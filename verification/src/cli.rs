//! Options, their defaults, and output naming.
//!
//! Options come from the `TASMOPTS` text first and the command line second,
//! so the command line wins. Output names default from the source name.

use vstd::prelude::*;
use vstd::string::*;
use crate::limits::{MAX_BASENAME, MAX_FILE_ARGS};
use crate::macros::take_chars;
use crate::table2::sb;
use crate::text::{digit_run, sat_value, digit_value, fields, is_digit, is_digit_in, is_upper, push_all, read_number, sat_number,
    slice_vec, split_fields, upper};

verus! {

#[derive(Clone, Copy, PartialEq, Eq, Debug, Structural)]
pub enum ObjFormat {
    /// `-g0`, the default.
    IntelHex,
    /// `-g1`, `-m`.
    MosTech,
    /// `-g2`.
    SRecord,
    /// `-g3`, `-b`.
    Binary,
    /// `-g4`: Intel HEX with word addresses.
    IntelWord,
}

#[derive(Clone, Copy, PartialEq, Eq, Debug, Structural)]
pub enum LabelTable {
    /// No label table (the default).
    Off,
    /// `-l`
    Short,
    /// `-ll`
    Long,
    /// `-la`
    All,
}

#[derive(Clone, Debug)]
pub struct Options {
    /// The table selector, as named.
    pub table: Option<Vec<u8>>,
    /// `-a<xx>`: the strict-check mask.
    pub strict: u32,
    pub format: ObjFormat,
    /// `-c`: contiguous block output.
    pub block: bool,
    /// `-d<macro>`
    pub defines: Vec<Vec<u8>>,
    /// `-e`: list macro-expanded source.
    pub expand: bool,
    /// `-f<xx>`: pre-fill the image.
    pub fill: Option<u8>,
    /// `-h`
    pub hex_dump: bool,
    /// `-i`
    pub ignore_case: bool,
    pub labels: LabelTable,
    /// `-o<xx>`: bytes per object record, in hex.
    pub bytes_per_record: u32,
    /// `-p<lines>`
    pub page_lines: Option<u32>,
    /// `-q`: no listing.
    pub quiet: bool,
    /// `-s`
    pub symfile: bool,
    /// `-x<x>`: the row class mask.
    pub class_mask: u32,
    /// `-y`
    pub timing: bool,
    /// `-z`
    pub debug: bool,
    /// `--compatibility`
    pub compatibility: bool,
    /// `--message-prefix`
    pub message_prefix: Vec<u8>,
    /// `--page-title`
    pub page_title: Vec<u8>,
    /// `--bug-compatibility`
    pub bug_compatibility: bool,
    pub files: Vec<Vec<u8>>,
}

pub struct OptionsV {
    pub table: Option<Seq<u8>>,
    pub strict: u32,
    pub format: ObjFormat,
    pub block: bool,
    pub defines: Seq<Seq<u8>>,
    pub expand: bool,
    pub fill: Option<u8>,
    pub hex_dump: bool,
    pub ignore_case: bool,
    pub labels: LabelTable,
    pub bytes_per_record: u32,
    pub page_lines: Option<u32>,
    pub quiet: bool,
    pub symfile: bool,
    pub class_mask: u32,
    pub timing: bool,
    pub debug: bool,
    pub compatibility: bool,
    pub message_prefix: Seq<u8>,
    pub page_title: Seq<u8>,
    pub bug_compatibility: bool,
    pub files: Seq<Seq<u8>>,
}

pub open spec fn seqs(v: Seq<Vec<u8>>) -> Seq<Seq<u8>> {
    v.map_values(|x: Vec<u8>| x@)
}

impl View for Options {
    type V = OptionsV;
    open spec fn view(&self) -> OptionsV {
        OptionsV {
            table: match self.table { Some(t) => Some(t@), None => None },
            strict: self.strict, format: self.format, block: self.block, defines: seqs(self.defines@),
            expand: self.expand, fill: self.fill, hex_dump: self.hex_dump, ignore_case: self.ignore_case,
            labels: self.labels, bytes_per_record: self.bytes_per_record, page_lines: self.page_lines,
            quiet: self.quiet, symfile: self.symfile, class_mask: self.class_mask, timing: self.timing,
            debug: self.debug, compatibility: self.compatibility, message_prefix: self.message_prefix@,
            page_title: self.page_title@, bug_compatibility: self.bug_compatibility, files: seqs(self.files@),
        }
    }
}

pub open spec fn default_options() -> OptionsV {
    OptionsV {
        table: None, strict: 0x06, format: ObjFormat::IntelHex, block: false, defines: Seq::empty(),
        expand: false, fill: None, hex_dump: false, ignore_case: false, labels: LabelTable::Off,
        bytes_per_record: 0x18, page_lines: None, quiet: false, symfile: false, class_mask: 1,
        timing: false, debug: false, compatibility: false, message_prefix: sb("tabasm"),
        page_title: sb("tabasm"), bug_compatibility: false, files: Seq::empty(),
    }
}

fn copy(s: &[u8]) -> (r: Vec<u8>)
    ensures r@ == s@,
{
    let r = slice_vec(s, 0, s.len());
    assert(s@.subrange(0, s@.len() as int) =~= s@);
    r
}

fn lit(s: &str) -> (r: Vec<u8>)
    ensures r@ == sb(s),
{
    copy(s.as_bytes())
}

fn eq_str(a: &[u8], s: &str) -> (r: bool)
    ensures r == (a@ == sb(s)),
{
    crate::text::bytes_eq(a, s.as_bytes())
}

pub open spec fn dir_prefix(tasmtabs: Option<&[u8]>) -> Seq<u8> {
    match tasmtabs { Some(d) => d@ + seq![0x2Fu8], None => Seq::empty() }
}

impl Options {
    /// The defaults: strict mask 06, Intel HEX, 24 bytes a record, class
    /// mask 1, and `tabasm` as message prefix and page title.
    pub fn default() -> (r: Options)
        ensures r@ == default_options(),
    {
        let o = Options {
            table: None, strict: 0x06, format: ObjFormat::IntelHex, block: false, defines: Vec::new(),
            expand: false, fill: None, hex_dump: false, ignore_case: false, labels: LabelTable::Off,
            bytes_per_record: 0x18, page_lines: None, quiet: false, symfile: false, class_mask: 1,
            timing: false, debug: false, compatibility: false, message_prefix: lit("tabasm"),
            page_title: lit("tabasm"), bug_compatibility: false, files: Vec::new(),
        };
        assert(seqs(o.defines@) =~= Seq::<Seq<u8>>::empty());
        assert(seqs(o.files@) =~= Seq::<Seq<u8>>::empty());
        o
    }
}

// --- one option -------------------------------------------------------------------

/// The first `=` in `s`, or its length.
pub open spec fn eq_at(s: Seq<u8>) -> int {
    crate::table2::first_eq(s, 0)
}

/// What one option (the text after its leading `-`) does, and the warning it
/// raises, if any.
pub open spec fn option_effect(o: OptionsV, body: Seq<u8>) -> (OptionsV, Option<Seq<u8>>) {
    if body.len() > 0 && body[0] == 0x2D { long_effect(o, body.subrange(1, body.len() as int)) }
    else if body.len() == 0 { (o, None) }
    else { short_effect(o, body) }
}

/// A long option, `--name` or `--name=value`, given its name.
pub open spec fn long_effect(o: OptionsV, name: Seq<u8>) -> (OptionsV, Option<Seq<u8>>) {
        if eq_at(name) < name.len() {
            let key = name.subrange(0, eq_at(name));
            let value = name.subrange(eq_at(name) + 1, name.len() as int);
            if key == sb("cpu") { (OptionsV { table: Some(value), ..o }, None) }
            else if key == sb("message-prefix") { (OptionsV { message_prefix: value, ..o }, None) }
            else if key == sb("page-title") { (OptionsV { page_title: value, ..o }, None) }
            else { (o, Some(sb("unrecognized option: --") + key)) }
        } else if name == sb("compatibility") { (OptionsV { compatibility: true, ..o }, None) }
        else if name == sb("bug-compatibility") { (OptionsV { bug_compatibility: true, ..o }, None) }
        else { (o, Some(sb("unrecognized option: --") + name)) }
}

/// A short option: a letter (or a digit naming a table) and its argument.
pub open spec fn short_effect(o: OptionsV, body: Seq<u8>) -> (OptionsV, Option<Seq<u8>>) {
    let first = body[0];
    let rest = body.subrange(1, body.len() as int);
    let low = if is_upper(first) { (first + 32) as u8 } else { first };
    if is_digit(first) { (OptionsV { table: Some(body), ..o }, None) }
    else if first == 0x59 { (o, Some(sb("unrecognized option: -Y"))) }
    else if low < 0x68 { short_lo(o, low, rest, body) }
    else { short_hi(o, low, rest, body) }
}

/// Options `a` to `g`.
pub open spec fn short_lo(o: OptionsV, low: u8, rest: Seq<u8>, body: Seq<u8>) -> (OptionsV, Option<Seq<u8>>) {
    let r0: u8 = if rest.len() > 0 { rest[0] } else { 0 };
    if low == 0x61 { (OptionsV { strict: if rest.len() == 0 { 0xFF } else { sat_number(rest, 16) as u32 }, ..o }, None) }
    else if low == 0x62 { (OptionsV { format: ObjFormat::Binary, block: true, ..o }, None) }
    else if low == 0x63 { (OptionsV { block: true, ..o }, None) }
    else if low == 0x64 { (OptionsV { defines: o.defines.push(rest), ..o }, None) }
    else if low == 0x65 { (OptionsV { expand: true, ..o }, None) }
    else if low == 0x66 { (OptionsV { fill: Some((sat_number(rest, 16) % 256) as u8), ..o }, None) }
    else if low == 0x67 {
        if rest.len() > 0 && r0 == 0x30 { (OptionsV { format: ObjFormat::IntelHex, ..o }, None) }
        else if rest.len() > 0 && r0 == 0x31 { (OptionsV { format: ObjFormat::MosTech, ..o }, None) }
        else if rest.len() > 0 && r0 == 0x32 { (OptionsV { format: ObjFormat::SRecord, ..o }, None) }
        else if rest.len() > 0 && r0 == 0x33 { (OptionsV { format: ObjFormat::Binary, ..o }, None) }
        else if rest.len() > 0 && r0 == 0x34 { (OptionsV { format: ObjFormat::IntelWord, ..o }, None) }
        else { (o, Some(sb("unrecognized object format: -g") + rest)) }
    }
    else { (o, Some(sb("unrecognized option: -") + body)) }
}

/// Options `h` to `z`.
pub open spec fn short_hi(o: OptionsV, low: u8, rest: Seq<u8>, body: Seq<u8>) -> (OptionsV, Option<Seq<u8>>) {
    let r0: u8 = if rest.len() > 0 { rest[0] } else { 0 };
    if low == 0x68 { (OptionsV { hex_dump: true, ..o }, None) }
    else if low == 0x69 { (OptionsV { ignore_case: true, ..o }, None) }
    else if low == 0x6C {
        let l = if is_upper(r0) { (r0 + 32) as u8 } else { r0 };
        (OptionsV { labels: if rest.len() > 0 && l == 0x6C { LabelTable::Long }
            else if rest.len() > 0 && l == 0x61 { LabelTable::All } else { LabelTable::Short }, ..o }, None)
    }
    else if low == 0x6D { (OptionsV { format: ObjFormat::MosTech, ..o }, None) }
    else if low == 0x6F { (OptionsV { bytes_per_record: sat_number(rest, 16) as u32, ..o }, None) }
    else if low == 0x70 { (OptionsV { page_lines: Some(sat_number(rest, 10) as u32), ..o }, None) }
    else if low == 0x71 { (OptionsV { quiet: true, ..o }, None) }
    else if low == 0x73 { (OptionsV { symfile: true, ..o }, None) }
    else if low == 0x74 { (OptionsV { table: Some(rest), ..o }, None) }
    else if low == 0x78 {
        (OptionsV { class_mask: if rest.len() > 0 && is_digit_in(r0, 16) { digit_value(r0) as u32 } else { 0xFF }, ..o }, None)
    }
    else if low == 0x79 { (OptionsV { timing: true, ..o }, None) }
    else if low == 0x7A { (OptionsV { debug: true, ..o }, None) }
    else { (o, Some(sb("unrecognized option: -") + body)) }
}

fn first_eq_exec(s: &[u8]) -> (r: usize)
    ensures r == eq_at(s@), r <= s.len(),
{
    proof { crate::table2::lemma_first_eq(s@, 0); }
    let mut e: usize = 0;
    while e < s.len() && s[e] != 0x3D
        invariant e <= s.len(), crate::table2::first_eq(s@, e as int) == crate::table2::first_eq(s@, 0),
        decreases s.len() - e,
    {
        e += 1;
    }
    e
}

fn warn2(a: &str, t: &[u8]) -> (r: Vec<u8>)
    ensures r@ == sb(a) + t@,
{
    let mut v = lit(a);
    push_all(&mut v, t);
    v
}


impl Options {
    fn long_option(&mut self, name: &[u8]) -> (w: Option<Vec<u8>>)
        ensures final(self)@ == long_effect(old(self)@, name@).0,
            match w { Some(x) => long_effect(old(self)@, name@).1 == Some(x@), None => long_effect(old(self)@, name@).1 is None },
    {
        let mut w: Option<Vec<u8>> = None;
            let e = first_eq_exec(name);
            if e < name.len() {
                let key = slice_vec(name, 0, e);
                let value = slice_vec(name, e + 1, name.len());
                if eq_str(key.as_slice(), "cpu") { self.table = Some(value); }
                else if eq_str(key.as_slice(), "message-prefix") { self.message_prefix = value; }
                else if eq_str(key.as_slice(), "page-title") { self.page_title = value; }
                else { w = Some(warn2("unrecognized option: --", key.as_slice())); }
            } else if eq_str(name, "compatibility") { self.compatibility = true; }
            else if eq_str(name, "bug-compatibility") { self.bug_compatibility = true; }
            else { w = Some(warn2("unrecognized option: --", name)); }
        w
    }

    fn short_option(&mut self, body: &[u8]) -> (w: Option<Vec<u8>>)
        requires body.len() > 0,
        ensures final(self)@ == short_effect(old(self)@, body@).0,
            match w { Some(x) => short_effect(old(self)@, body@).1 == Some(x@), None => short_effect(old(self)@, body@).1 is None },
    {
        let first = body[0];
        let rest = slice_vec(body, 1, body.len());
        let low = if 0x41 <= first && first <= 0x5A { first + 32 } else { first };
        if 0x30 <= first && first <= 0x39 { self.table = Some(copy(body)); return None; }
        if first == 0x59 { return Some(lit("unrecognized option: -Y")); }
        if low < 0x68 { self.short_lo(low, rest, body) } else { self.short_hi(low, rest, body) }
    }

    #[verifier::rlimit(100)]
    fn short_lo(&mut self, low: u8, rest: Vec<u8>, body: &[u8]) -> (w: Option<Vec<u8>>)
        ensures final(self)@ == short_lo(old(self)@, low, rest@, body@).0,
            match w { Some(x) => short_lo(old(self)@, low, rest@, body@).1 == Some(x@), None => short_lo(old(self)@, low, rest@, body@).1 is None },
    {
        let r0: u8 = if rest.len() > 0 { rest[0] } else { 0 };
        if low == 0x61 { self.strict = if rest.len() == 0 { 0xFF } else { read_number(rest.as_slice(), 16) }; }
        else if low == 0x62 { self.format = ObjFormat::Binary; self.block = true; }
        else if low == 0x63 { self.block = true; }
        else if low == 0x64 {
            let ghost d0 = seqs(self.defines@);
            let ghost rv = rest@;
            self.defines.push(rest);
            assert(seqs(self.defines@) =~= d0.push(rv));
        }
        else if low == 0x65 { self.expand = true; }
        else if low == 0x66 { self.fill = Some((read_number(rest.as_slice(), 16) % 256) as u8); }
        else if low == 0x67 {
            if rest.len() > 0 && r0 == 0x30 { self.format = ObjFormat::IntelHex; }
            else if rest.len() > 0 && r0 == 0x31 { self.format = ObjFormat::MosTech; }
            else if rest.len() > 0 && r0 == 0x32 { self.format = ObjFormat::SRecord; }
            else if rest.len() > 0 && r0 == 0x33 { self.format = ObjFormat::Binary; }
            else if rest.len() > 0 && r0 == 0x34 { self.format = ObjFormat::IntelWord; }
            else { return Some(warn2("unrecognized object format: -g", rest.as_slice())); }
        }
        else { return Some(warn2("unrecognized option: -", body)); }
        None
    }

    #[verifier::rlimit(100)]
    fn short_hi(&mut self, low: u8, rest: Vec<u8>, body: &[u8]) -> (w: Option<Vec<u8>>)
        ensures final(self)@ == short_hi(old(self)@, low, rest@, body@).0,
            match w { Some(x) => short_hi(old(self)@, low, rest@, body@).1 == Some(x@), None => short_hi(old(self)@, low, rest@, body@).1 is None },
    {
        let r0: u8 = if rest.len() > 0 { rest[0] } else { 0 };
        if low == 0x68 { self.hex_dump = true; }
        else if low == 0x69 { self.ignore_case = true; }
        else if low == 0x6C {
            let l = if 0x41 <= r0 && r0 <= 0x5A { r0 + 32 } else { r0 };
            self.labels = if rest.len() > 0 && l == 0x6C { LabelTable::Long }
                else if rest.len() > 0 && l == 0x61 { LabelTable::All } else { LabelTable::Short };
        }
        else if low == 0x6D { self.format = ObjFormat::MosTech; }
        else if low == 0x6F { self.bytes_per_record = read_number(rest.as_slice(), 16); }
        else if low == 0x70 { self.page_lines = Some(read_number(rest.as_slice(), 10)); }
        else if low == 0x71 { self.quiet = true; }
        else if low == 0x73 { self.symfile = true; }
        else if low == 0x74 { self.table = Some(rest); }
        else if low == 0x78 {
            self.class_mask = if rest.len() > 0 {
                match crate::text::digit_in(r0, 16) { Some(d) => d, None => 0xFF }
            } else { 0xFF };
        }
        else if low == 0x79 { self.timing = true; }
        else if low == 0x7A { self.debug = true; }
        else { return Some(warn2("unrecognized option: -", body)); }
        None
    }
}

// --- the command line -------------------------------------------------------------

/// The parsed options and the warnings raised on the way.
pub struct Parsed {
    pub opts: Options,
    pub warnings: Vec<Vec<u8>>,
}

/// The long options that take a value, written `--name value` or `--name=value`.
pub open spec fn takes_value(name: Seq<u8>) -> bool {
    name == sb("cpu") || name == sb("message-prefix") || name == sb("page-title")
}

pub open spec fn add_warning(w: Seq<Seq<u8>>, x: Option<Seq<u8>>) -> Seq<Seq<u8>> {
    match x { Some(m) => w.push(m), None => w }
}

/// The arguments from `i` on: options in order, anything not starting with
/// `-` the next file name (five at most).
pub open spec fn parse_from(o: OptionsV, w: Seq<Seq<u8>>, args: Seq<Seq<u8>>, i: int) -> (OptionsV, Seq<Seq<u8>>)
    decreases args.len() - i,
{
    if i < 0 || i >= args.len() { (o, w) }
    else {
        let arg = args[i];
        if arg.len() > 0 && arg[0] == 0x2D {
            let body = arg.subrange(1, arg.len() as int);
            let name = body.subrange(1, body.len() as int);
            if body.len() > 0 && body[0] == 0x2D && eq_at(name) >= name.len() && takes_value(name) {
                if i + 1 < args.len() {
                    let e = option_effect(o, seq![0x2Du8] + name + seq![0x3Du8] + args[i + 1]);
                    parse_from(e.0, add_warning(w, e.1), args, i + 2)
                } else {
                    parse_from(o, w.push(sb("option --") + name + sb(" needs a value")), args, i + 1)
                }
            } else {
                let e = option_effect(o, body);
                parse_from(e.0, add_warning(w, e.1), args, i + 1)
            }
        } else if o.files.len() < MAX_FILE_ARGS {
            parse_from(OptionsV { files: o.files.push(arg), ..o }, w, args, i + 1)
        } else {
            parse_from(o, w.push(sb("too many file names (max 5): ") + arg), args, i + 1)
        }
    }
}

/// Take the argument at `i`; returns where the next one starts.
#[verifier::spinoff_prover]
#[verifier::rlimit(50)]
fn parse_step(o: &mut Options, warnings: &mut Vec<Vec<u8>>, args: &Vec<Vec<u8>>, i: usize) -> (next: usize)
    requires i < args.len(),
    ensures i < next <= args.len(),
        parse_from(old(o)@, seqs(old(warnings)@), seqs(args@), i as int)
            == parse_from(final(o)@, seqs(final(warnings)@), seqs(args@), next as int),
{
    let ghost av = seqs(args@);
    let arg = args[i].as_slice();
    assert(arg@ == av[i as int]);
    if arg.len() > 0 && arg[0] == 0x2D {
        let body = slice_vec(arg, 1, arg.len());
        let name = slice_vec(body.as_slice(), if body.len() > 0 { 1 } else { 0 }, body.len());
        let e = first_eq_exec(name.as_slice());
        let tv = eq_str(name.as_slice(), "cpu") || eq_str(name.as_slice(), "message-prefix")
            || eq_str(name.as_slice(), "page-title");
        if body.len() > 0 && body[0] == 0x2D && e >= name.len() && tv {
            if i + 1 < args.len() {
                let mut b2: Vec<u8> = Vec::new();
                b2.push(0x2D);
                push_all(&mut b2, name.as_slice());
                b2.push(0x3D);
                push_all(&mut b2, args[i + 1].as_slice());
                assert(args@[i + 1]@ == av[i + 1]);
                assert(b2@ =~= seq![0x2Du8] + name@ + seq![0x3Du8] + av[i + 1]);
                o.option(b2.as_slice(), warnings);
                return i + 2;
            }
            let mut m = lit("option --");
            push_all(&mut m, name.as_slice());
            push_all(&mut m, " needs a value".as_bytes());
            let ghost w0 = seqs(warnings@);
            let ghost mv = m@;
            warnings.push(m);
            assert(seqs(warnings@) =~= w0.push(mv));
            return i + 1;
        }
        o.option(body.as_slice(), warnings);
    } else if o.files.len() < MAX_FILE_ARGS {
        let ghost f0 = seqs(o.files@);
        o.files.push(copy(arg));
        assert(seqs(o.files@) =~= f0.push(av[i as int]));
    } else {
        let m = warn2("too many file names (max 5): ", arg);
        let ghost w0 = seqs(warnings@);
        let ghost mv = m@;
        warnings.push(m);
        assert(seqs(warnings@) =~= w0.push(mv));
    }
    i + 1
}

/// The white-space separated words of the `TASMOPTS` text, then the
/// command line.
pub open spec fn all_args(argv: Seq<Seq<u8>>, tasmopts: Option<Seq<u8>>) -> Seq<Seq<u8>> {
    match tasmopts { Some(t) => fields(t) + argv, None => argv }
}

pub open spec fn parse_spec(argv: Seq<Seq<u8>>, tasmopts: Option<Seq<u8>>) -> (OptionsV, Seq<Seq<u8>>) {
    parse_from(default_options(), Seq::empty(), all_args(argv, tasmopts), 0)
}

/// The object format `-g<d>` selects: 0 Intel HEX, 1 MOS Technology,
/// 2 Motorola S-record, 3 binary, 4 Intel HEX with word addresses.
pub open spec fn numbered_format(d: u8) -> ObjFormat {
    if d == 0x30 { ObjFormat::IntelHex } else if d == 0x31 { ObjFormat::MosTech }
    else if d == 0x32 { ObjFormat::SRecord } else if d == 0x33 { ObjFormat::Binary }
    else { ObjFormat::IntelWord }
}

/// `-g<d>` with `d` from 0 to 4 sets the object format it numbers, whatever
/// was read before it and with nothing else changed; on a command line of
/// that option and a source name, the format is the numbered one.
pub proof fn lemma_g_option_selects_format(o: OptionsV, d: u8, src: Seq<u8>)
    requires 0x30 <= d <= 0x34,
    ensures
        option_effect(o, seq![0x67u8, d]) == (OptionsV { format: numbered_format(d), ..o }, None::<Seq<u8>>),
        option_effect(o, seq![0x47u8, d]) == (OptionsV { format: numbered_format(d), ..o }, None::<Seq<u8>>),
        src.len() > 0 && src[0] != 0x2D ==>
            parse_spec(seq![seq![0x2Du8, 0x67u8, d], src], None).0.format == numbered_format(d),
{
    let args = seq![seq![0x2Du8, 0x67u8, d], src];
    let a0 = args[0];
    assert(a0.subrange(1, a0.len() as int) =~= seq![0x67u8, d]);
    assert(seq![0x67u8, d].subrange(1, 2) =~= seq![d]);
    assert(seq![0x47u8, d].subrange(1, 2) =~= seq![d]);
    let o1 = option_effect(default_options(), seq![0x67u8, d]).0;
    assert(o1.format == numbered_format(d));
    if src.len() > 0 && src[0] != 0x2D {
        assert(parse_from(default_options(), Seq::empty(), args, 0)
            == parse_from(o1, add_warning(Seq::empty(), None), args, 1));
        assert(parse_from(o1, add_warning(Seq::empty(), None), args, 1)
            == parse_from(OptionsV { files: o1.files.push(src), ..o1 }, add_warning(Seq::empty(), None), args, 2));
    }
}

/// What the one-letter switches do, each on its own and whatever was read
/// before: `-b` binary output in block mode, `-c` block mode, `-e` expanded
/// listing, `-h` hex dump, `-i` case folding, `-l` short label table (`-ll`
/// long, `-la` all), `-m` MOS Technology output, `-q` no listing, `-s` the
/// symbol file, `-x` every instruction class, `-x<d>` class mask `d`, `-a`
/// every strict check, `-y` timing, `-z` trace, `-d<name>` a definition,
/// `-t<name>` the table.
pub proof fn lemma_switches(o: OptionsV, d: u8, name: Seq<u8>)
    ensures
        option_effect(o, seq![0x62u8]) == (OptionsV { format: ObjFormat::Binary, block: true, ..o }, None::<Seq<u8>>),
        option_effect(o, seq![0x63u8]) == (OptionsV { block: true, ..o }, None::<Seq<u8>>),
        option_effect(o, seq![0x65u8]) == (OptionsV { expand: true, ..o }, None::<Seq<u8>>),
        option_effect(o, seq![0x68u8]) == (OptionsV { hex_dump: true, ..o }, None::<Seq<u8>>),
        option_effect(o, seq![0x69u8]) == (OptionsV { ignore_case: true, ..o }, None::<Seq<u8>>),
        option_effect(o, seq![0x49u8]) == (OptionsV { ignore_case: true, ..o }, None::<Seq<u8>>),
        option_effect(o, seq![0x6Cu8]) == (OptionsV { labels: LabelTable::Short, ..o }, None::<Seq<u8>>),
        option_effect(o, seq![0x6Cu8, 0x6Cu8]) == (OptionsV { labels: LabelTable::Long, ..o }, None::<Seq<u8>>),
        option_effect(o, seq![0x6Cu8, 0x61u8]) == (OptionsV { labels: LabelTable::All, ..o }, None::<Seq<u8>>),
        option_effect(o, seq![0x6Du8]) == (OptionsV { format: ObjFormat::MosTech, ..o }, None::<Seq<u8>>),
        option_effect(o, seq![0x71u8]) == (OptionsV { quiet: true, ..o }, None::<Seq<u8>>),
        option_effect(o, seq![0x73u8]) == (OptionsV { symfile: true, ..o }, None::<Seq<u8>>),
        option_effect(o, seq![0x78u8]) == (OptionsV { class_mask: 0xFF, ..o }, None::<Seq<u8>>),
        0x30 <= d <= 0x39 ==> option_effect(o, seq![0x78u8, d]) == (OptionsV { class_mask: (d - 0x30) as u32, ..o }, None::<Seq<u8>>),
        option_effect(o, seq![0x61u8]) == (OptionsV { strict: 0xFF, ..o }, None::<Seq<u8>>),
        option_effect(o, seq![0x79u8]) == (OptionsV { timing: true, ..o }, None::<Seq<u8>>),
        option_effect(o, seq![0x7Au8]) == (OptionsV { debug: true, ..o }, None::<Seq<u8>>),
        option_effect(o, seq![0x64u8] + name) == (OptionsV { defines: o.defines.push(name), ..o }, None::<Seq<u8>>),
        option_effect(o, seq![0x74u8] + name) == (OptionsV { table: Some(name), ..o }, None::<Seq<u8>>),
{
    assert((seq![0x64u8] + name).subrange(1, (seq![0x64u8] + name).len() as int) =~= name);
    assert((seq![0x74u8] + name).subrange(1, (seq![0x74u8] + name).len() as int) =~= name);
    assert(seq![0x6Cu8, 0x6Cu8].subrange(1, 2) =~= seq![0x6Cu8]);
    assert(seq![0x6Cu8, 0x61u8].subrange(1, 2) =~= seq![0x61u8]);
    assert(seq![0x78u8, d].subrange(1, 2) =~= seq![d]);
    assert(seq![0x6Cu8].subrange(1, 1) =~= Seq::<u8>::empty());
}

/// `-o<xx>` reads its count in hexadecimal and `-p<n>` its page length in
/// decimal: with two digits, `-o1A` gives 26 bytes per record and `-p60`
/// pages of 60 lines.
pub proof fn lemma_numeric_switches(o: OptionsV, a: u8, b: u8)
    ensures
        is_digit(a) && is_digit(b) ==> option_effect(o, seq![0x6Fu8, a, b]).0.bytes_per_record
            == 16 * (a - 0x30) + (b - 0x30),
        is_digit(a) && 0x41 <= b <= 0x46 ==> option_effect(o, seq![0x6Fu8, a, b]).0.bytes_per_record
            == 16 * (a - 0x30) + (b - 0x37),
        is_digit(a) && is_digit(b) ==> option_effect(o, seq![0x70u8, a, b]).0.page_lines
            == Some((10 * (a - 0x30) + (b - 0x30)) as u32),
{
    let r = seq![a, b];
    assert(seq![0x6Fu8, a, b].subrange(1, 3) =~= r);
    assert(seq![0x70u8, a, b].subrange(1, 3) =~= r);
    assert(r.drop_first() =~= seq![b]);
    assert(seq![b].drop_first() =~= Seq::<u8>::empty());
    if is_digit(a) && (is_digit(b) || 0x41 <= b <= 0x46) {
        assert(digit_run(Seq::<u8>::empty(), 16) == 0);
        assert(digit_run(seq![b], 16) == 1);
        assert(digit_run(r, 16) == 2);
        assert(sat_value(r, 0, 16) == 0);
        assert(r[0] == a && r[1] == b);
        assert(digit_value(a) == a - 0x30);
        assert(sat_value(r, 1, 16) == a - 0x30);
    }
    if is_digit(a) && is_digit(b) {
        assert(digit_run(Seq::<u8>::empty(), 10) == 0);
        assert(digit_run(seq![b], 10) == 1);
        assert(digit_run(r, 10) == 2);
        assert(sat_value(r, 0, 10) == 0);
        assert(r[0] == a && r[1] == b);
        assert(digit_value(a) == a - 0x30);
        assert(sat_value(r, 1, 10) == a - 0x30);
    }
}

/// `--compatibility` turns on the compatibility mode and
/// `--bug-compatibility` the legacy defects, nothing else; `--cpu=<name>`
/// selects the table `<name>`.
#[verifier::spinoff_prover]
pub proof fn lemma_long_switches(o: OptionsV, v: Seq<u8>)
    ensures
        option_effect(o, seq![0x2Du8] + sb("compatibility")) == (OptionsV { compatibility: true, ..o }, None::<Seq<u8>>),
        option_effect(o, seq![0x2Du8] + sb("bug-compatibility"))
            == (OptionsV { bug_compatibility: true, ..o }, None::<Seq<u8>>),
        option_effect(o, seq![0x2Du8] + sb("cpu") + seq![0x3Du8] + v) == (OptionsV { table: Some(v), ..o }, None::<Seq<u8>>),
{
    reveal_strlit("compatibility");
    reveal_strlit("bug-compatibility");
    reveal_strlit("cpu");
    reveal_strlit("message-prefix");
    reveal_strlit("page-title");
    broadcast use vstd::string::is_ascii_spec_bytes;
    assert(vstd::string::is_ascii("compatibility"));
    assert(vstd::string::is_ascii("bug-compatibility"));
    assert(vstd::string::is_ascii("cpu"));
    let c = sb("compatibility");
    let bc = sb("bug-compatibility");
    let cpu = sb("cpu");
    assert(c =~= seq![0x63u8, 0x6F, 0x6D, 0x70, 0x61, 0x74, 0x69, 0x62, 0x69, 0x6C, 0x69, 0x74, 0x79]);
    assert(bc =~= seq![0x62u8, 0x75, 0x67, 0x2D, 0x63, 0x6F, 0x6D, 0x70, 0x61, 0x74, 0x69, 0x62, 0x69, 0x6C, 0x69, 0x74, 0x79]);
    assert(cpu =~= seq![0x63u8, 0x70, 0x75]);
    assert((seq![0x2Du8] + c).subrange(1, c.len() as int + 1) =~= c);
    assert((seq![0x2Du8] + bc).subrange(1, bc.len() as int + 1) =~= bc);
    let n = cpu + seq![0x3Du8] + v;
    assert((seq![0x2Du8] + cpu + seq![0x3Du8] + v).subrange(1, n.len() as int + 1) =~= n);
    assert(crate::table2::first_eq(c, 0) == c.len()) by { reveal_with_fuel(crate::table2::first_eq, 14); }
    assert(crate::table2::first_eq(bc, 0) == bc.len()) by { reveal_with_fuel(crate::table2::first_eq, 18); }
    assert(crate::table2::first_eq(n, 0) == 3) by { reveal_with_fuel(crate::table2::first_eq, 4); }
    assert(n.subrange(0, 3) =~= cpu);
    assert(n.subrange(4, n.len() as int) =~= v);
}

impl Options {
    fn option(&mut self, body: &[u8], warnings: &mut Vec<Vec<u8>>)
        ensures
            final(self)@ == option_effect(old(self)@, body@).0,
            seqs(final(warnings)@) == add_warning(seqs(old(warnings)@), option_effect(old(self)@, body@).1),
    {
        let ghost w0 = seqs(warnings@);
        let w: Option<Vec<u8>> = if body.len() > 0 && body[0] == 0x2D {
            let name = slice_vec(body, 1, body.len());
            self.long_option(name.as_slice())
        } else if body.len() == 0 {
            None
        } else {
            self.short_option(body)
        };
        match w {
            Some(x) => {
                let ghost xv = x@;
                warnings.push(x);
                assert(seqs(warnings@) =~= w0.push(xv));
            }
            None => {}
        }
    }

    /// Parse the `TASMOPTS` text and then the command line, which wins.
    pub fn parse(argv: &Vec<Vec<u8>>, tasmopts: Option<&[u8]>) -> (r: Parsed)
        ensures
            r.opts@ == parse_spec(seqs(argv@), match tasmopts { Some(t) => Some(t@), None => None }).0,
            seqs(r.warnings@) == parse_spec(seqs(argv@), match tasmopts { Some(t) => Some(t@), None => None }).1,
    {
        let mut args: Vec<Vec<u8>> = Vec::new();
        let ghost pre: Seq<Seq<u8>> = match tasmopts { Some(t) => fields(t@), None => Seq::empty() };
        match tasmopts {
            Some(t) => {
                let extra = split_fields(t);
                let mut j: usize = 0;
                while j < extra.len()
                    invariant j <= extra.len(), seqs(args@) == seqs(extra@).subrange(0, j as int),
                    decreases extra.len() - j,
                {
                    let ghost b0 = seqs(args@);
                    let c = copy(extra[j].as_slice());
                    let ghost cv = c@;
                    args.push(c);
                    assert(seqs(args@) =~= b0.push(cv));
                    assert(seqs(args@) =~= seqs(extra@).subrange(0, j + 1));
                    j += 1;
                }
                assert(seqs(extra@).subrange(0, j as int) =~= seqs(extra@));
                assert(seqs(extra@) == fields(t@));
            }
            None => { assert(seqs(args@) =~= pre); }
        }
        let ghost base = seqs(args@);
        assert(base == pre);
        let mut k: usize = 0;
        while k < argv.len()
            invariant k <= argv.len(), seqs(args@) == base + seqs(argv@).subrange(0, k as int),
            decreases argv.len() - k,
        {
            let ghost before = seqs(args@);
            let c = copy(argv[k].as_slice());
            let ghost cv = c@;
            args.push(c);
            assert(seqs(args@) =~= before.push(cv));
            assert(seqs(args@) =~= base + seqs(argv@).subrange(0, k + 1));
            k += 1;
        }
        assert(seqs(argv@).subrange(0, k as int) =~= seqs(argv@));
        assert(seqs(args@) =~= pre + seqs(argv@));
        let ghost av = seqs(args@);
        assert(av == all_args(seqs(argv@), match tasmopts { Some(t) => Some(t@), None => None }));
        let mut o = Options::default();
        let mut warnings: Vec<Vec<u8>> = Vec::new();
        assert(seqs(warnings@) =~= Seq::<Seq<u8>>::empty());
        let mut i: usize = 0;
        while i < args.len()
            invariant i <= args.len(), av == seqs(args@),
                parse_from(default_options(), Seq::empty(), av, 0) == parse_from(o@, seqs(warnings@), av, i as int),
            decreases args.len() - i,
        {
            i = parse_step(&mut o, &mut warnings, &args, i);
        }
        Parsed { opts: o, warnings }
    }

    /// The source file name: the first positional name.
    pub fn source(&self) -> (r: Option<&Vec<u8>>)
        ensures match r { Some(s) => self.files@.len() > 0 && s@ == self.files@[0]@, None => self.files@.len() == 0 },
    {
        if self.files.len() > 0 { Some(&self.files[0]) } else { None }
    }

    /// The base name for output files: the source name cut at its first
    /// `.`, and cut to 79 characters with a warning when longer.
    pub fn base_name(&self) -> (r: (Vec<u8>, Option<Vec<u8>>))
        ensures ({
            let src = if self.files@.len() > 0 { self.files@[0]@ } else { Seq::empty() };
            let base = src.subrange(0, crate::table::quote_dot(src));
            if base.len() > MAX_BASENAME {
                &&& r.0@ == take_chars(base, MAX_BASENAME as int)
                &&& r.1 matches Some(w) && w@ == sb("base file name longer than 79 characters, truncated to ") + r.0@
            } else {
                r.0@ == base && r.1 is None
            }
        }),
    {
        let src: Vec<u8> = if self.files.len() > 0 { copy(self.files[0].as_slice()) } else { Vec::new() };
        let d = crate::table::dot_exec(src.as_slice());
        let base = slice_vec(src.as_slice(), 0, d);
        if base.len() > MAX_BASENAME {
            let cut = crate::macros::take_chars_pub(base.as_slice(), MAX_BASENAME);
            let w = warn2("base file name longer than 79 characters, truncated to ", cut.as_slice());
            (cut, Some(w))
        } else {
            (base, None)
        }
    }

    /// The positional output name in `slot`, else the base name and `ext`.
    pub fn out_name(&self, slot: usize, ext: &[u8], base: &[u8]) -> (r: Vec<u8>)
        ensures
            slot < self.files@.len() ==> r@ == self.files@[slot as int]@,
            slot >= self.files@.len() ==> r@ == base@ + ext@,
    {
        if slot < self.files.len() {
            copy(self.files[slot].as_slice())
        } else {
            let mut r = copy(base);
            push_all(&mut r, ext);
            r
        }
    }

    /// Where to look for the selected table, in order: `<name>.tab2`, then
    /// `tasm<name>.tab`, each under the `TASMTABS` directory when given.
    pub fn table_paths(&self, tasmtabs: Option<&[u8]>) -> (r: Vec<Vec<u8>>)
        ensures
            self.table is None ==> r@.len() == 0,
            self.table matches Some(sel) ==> seqs(r@) == seq![dir_prefix(tasmtabs) + sel@ + sb(".tab2"),
                dir_prefix(tasmtabs) + sb("tasm") + sel@ + sb(".tab")],
    {
        match &self.table {
            None => {
                let r: Vec<Vec<u8>> = Vec::new();
                assert(r@.len() == 0);
                r
            }
            Some(sel) => {
                let mut pre: Vec<u8> = Vec::new();
                match tasmtabs { Some(d) => { push_all(&mut pre, d); pre.push(0x2F); } None => {} }
                assert(pre@ =~= dir_prefix(tasmtabs));
                let mut a = copy(pre.as_slice());
                push_all(&mut a, sel.as_slice());
                push_all(&mut a, ".tab2".as_bytes());
                let mut b = copy(pre.as_slice());
                push_all(&mut b, "tasm".as_bytes());
                push_all(&mut b, sel.as_slice());
                push_all(&mut b, ".tab".as_bytes());
                let ghost av = a@;
                let ghost bv = b@;
                let mut r: Vec<Vec<u8>> = Vec::new();
                r.push(a);
                r.push(b);
                assert(seqs(r@) =~= seq![av, bv]);
                r
            }
        }
    }
}

/// The prefix on the assembler's own messages (the progress lines, the
/// error count and the fatal reports): `--message-prefix`.
pub fn prog(o: &Options) -> (r: &[u8])
    ensures r@ == o.message_prefix@,
{
    o.message_prefix.as_slice()
}

} // verus!
