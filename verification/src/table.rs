//! Instruction tables: rows, register sets, and the legacy text format.
//!
//! A table is a list of rows tried in order by the matcher. The legacy format
//! dispatches each line on its first character: a `"` banner on the first
//! line, a `.` directive, or an upper-case letter opening a row; anything else
//! is skipped.

use vstd::prelude::*;
use crate::limits::{MAX_REGSETS, MAX_TABLE_ROWS};
use crate::rules::{Rule, key_of, rule_of_key};
use crate::text::{
    all_hex, digit_run, fields, is_all_hex, is_upper, read_number, sat_number, slice_vec,
    split_fields, upper, upper_byte, upper_seq, to_upper, lemma_digit_run, is_ws, trim,
    trim_bytes,
};

verus! {

/// The rule a RULE column names: its first two characters, raised, with a
/// space standing in for a missing one.
pub open spec fn rule_from_text(s: Seq<u8>) -> Rule {
    let a = if s.len() > 0 { upper(s[0]) } else { 0x20u8 };
    let b = if s.len() > 1 { upper(s[1]) } else { 0x20u8 };
    rule_of_key(key_of(a, b))
}

impl Rule {
    /// The rule a RULE column names; only the first two characters count.
    pub fn from_str(s: &[u8]) -> (r: Rule)
        ensures r == rule_from_text(s@),
    {
        let a = if s.len() > 0 { upper_byte(s[0]) } else { 0x20 };
        let b = if s.len() > 1 { upper_byte(s[1]) } else { 0x20 };
        Rule::key(a, b)
    }
}

/// One instruction form.
#[derive(Clone, Debug)]
pub struct Row {
    pub mnemonic: Vec<u8>,
    pub args: Vec<u8>,
    pub opcode: u32,
    pub opcode_bytes: u8,
    pub arg_bytes: u8,
    pub rule: Rule,
    pub class: u32,
    pub shift: u32,
    pub or: u32,
    /// The post-rule transform `argval = (argval << post_shift) | post_or`.
    pub post_shift: u32,
    pub post_or: u32,
    /// The byte count was under the opcode size; the argument count is zero.
    pub short_count: bool,
}

pub struct RowV {
    pub mnemonic: Seq<u8>,
    pub args: Seq<u8>,
    pub opcode: u32,
    pub opcode_bytes: u8,
    pub arg_bytes: u8,
    pub rule: Rule,
    pub class: u32,
    pub shift: u32,
    pub or: u32,
    pub post_shift: u32,
    pub post_or: u32,
    pub short_count: bool,
}

impl View for Row {
    type V = RowV;
    open spec fn view(&self) -> RowV {
        RowV {
            mnemonic: self.mnemonic@, args: self.args@, opcode: self.opcode,
            opcode_bytes: self.opcode_bytes, arg_bytes: self.arg_bytes, rule: self.rule,
            class: self.class, shift: self.shift, or: self.or, post_shift: self.post_shift,
            post_or: self.post_or, short_count: self.short_count,
        }
    }
}

/// A named register whose mask folds into the opcode.
#[derive(Clone, Debug)]
pub struct RegSet {
    pub name: Vec<u8>,
    pub mask: u32,
    pub class: u32,
}

pub struct RegSetV {
    pub name: Seq<u8>,
    pub mask: u32,
    pub class: u32,
}

impl View for RegSet {
    type V = RegSetV;
    open spec fn view(&self) -> RegSetV {
        RegSetV { name: self.name@, mask: self.mask, class: self.class }
    }
}

#[derive(Clone, Debug)]
pub struct Table {
    pub selector: Vec<u8>,
    pub banner: Vec<u8>,
    pub rows: Vec<Row>,
    pub regsets: Vec<RegSet>,
    /// Opcode byte order.
    pub msfirst: bool,
    /// One address unit is two bytes.
    pub wordaddrs: bool,
    /// The legacy per-table switch that turns off the post-rule transform.
    pub noargshift: bool,
    /// The pattern character that captures an operand.
    pub wildcard: u8,
    /// The pattern character for a register-set slot.
    pub regmark: u8,
    /// How many auxiliary registers the target has.
    pub aux_registers: u32,
}

pub struct TableV {
    pub selector: Seq<u8>,
    pub banner: Seq<u8>,
    pub rows: Seq<RowV>,
    pub regsets: Seq<RegSetV>,
    pub msfirst: bool,
    pub wordaddrs: bool,
    pub noargshift: bool,
    pub wildcard: u8,
    pub regmark: u8,
    pub aux_registers: u32,
}

impl View for Table {
    type V = TableV;
    open spec fn view(&self) -> TableV {
        TableV {
            selector: self.selector@, banner: self.banner@,
            rows: self.rows@.map_values(|r: Row| r@),
            regsets: self.regsets@.map_values(|r: RegSet| r@),
            msfirst: self.msfirst, wordaddrs: self.wordaddrs, noargshift: self.noargshift,
            wildcard: self.wildcard, regmark: self.regmark, aux_registers: self.aux_registers,
        }
    }
}

/// Why a table could not be loaded.
#[derive(Debug)]
pub enum LoadError {
    Open(Vec<u8>),
    TooManyRows,
    TooManyRegsets,
    /// A table in the current format that does not parse: the line number
    /// and what was wrong.
    Syntax(usize, Vec<u8>),
}

pub open spec fn selector_3225() -> Seq<u8> {
    seq![0x33u8, 0x32u8, 0x32u8, 0x35u8]
}

/// An empty table for `selector`.
pub open spec fn new_table(selector: Seq<u8>) -> TableV {
    TableV {
        selector, banner: Seq::empty(), rows: Seq::empty(), regsets: Seq::empty(),
        msfirst: false, wordaddrs: false, noargshift: false, wildcard: 0x2Au8, regmark: 0x21u8,
        aux_registers: if selector == selector_3225() { 8 } else { 2 },
    }
}

// --- rows -------------------------------------------------------------------------

pub open spec fn clamp_bytes(digits: int) -> int {
    if digits / 2 < 1 { 1 } else if digits / 2 > 4 { 4 } else { digits / 2 }
}

/// The row a legacy row line describes, when it has the six fields a row needs.
pub open spec fn row_of(line: Seq<u8>) -> Option<RowV> {
    let f = fields(line);
    if f.len() < 6 { None } else {
        let ob = clamp_bytes(digit_run(f[2], 16));
        let nb = if sat_number(f[3], 10) > 255 { 255 } else { sat_number(f[3], 10) };
        let has7 = f.len() > 6 && all_hex(f[6]);
        Some(RowV {
            mnemonic: upper_seq(f[0]),
            args: f[1],
            opcode: sat_number(f[2], 16) as u32,
            opcode_bytes: ob as u8,
            arg_bytes: if nb >= ob { (nb - ob) as u8 } else { 0 },
            rule: rule_from_text(f[4]),
            class: sat_number(f[5], 16) as u32,
            shift: if has7 { sat_number(f[6], 16) as u32 } else { 0 },
            or: if has7 && f.len() > 7 && all_hex(f[7]) { sat_number(f[7], 16) as u32 } else { 0 },
            post_shift: 0,
            post_or: 0,
            short_count: nb < ob,
        })
    }
}

/// How many leading bytes of `s` are hex digits.
fn hex_run(s: &[u8]) -> (r: usize)
    ensures r == digit_run(s@, 16),
{
    proof { lemma_digit_run(s@, 16, 0); }
    let mut i: usize = 0;
    while i < s.len() && crate::text::digit_in(s[i], 16).is_some()
        invariant i <= digit_run(s@, 16) <= s.len(),
        decreases s.len() - i,
    {
        proof { if i == digit_run(s@, 16) { lemma_digit_run(s@, 16, i as int); } }
        i += 1;
    }
    proof { lemma_digit_run(s@, 16, i as int); }
    i
}

/// Parse one legacy row line; `None` for a line with fewer than six fields.
/// The opcode size is the count of its hex digits halved, held to 1..4; the
/// argument size is the byte count less the opcode size, or zero with
/// `short_count` set where that would be negative. SHIFT and OR are read only
/// when they are hexadecimal, so trailing commentary is ignored.
pub fn parse_row(line: &[u8]) -> (r: Option<Row>)
    ensures
        match r {
            None => row_of(line@) is None,
            Some(row) => row_of(line@) == Some(row@),
        },
{
    let f = split_fields(line);
    let ghost fv = fields(line@);
    assert(f@.map_values(|v: Vec<u8>| v@) == fv);
    if f.len() < 6 {
        return None;
    }
    assert(f@[2]@ == fv[2] && f@[3]@ == fv[3] && f@[0]@ == fv[0] && f@[1]@ == fv[1]);
    assert(f@[4]@ == fv[4] && f@[5]@ == fv[5]);
    let digits = hex_run(f[2].as_slice());
    let ob: u8 = if digits / 2 < 1 { 1 } else if digits / 2 > 4 { 4 } else { (digits / 2) as u8 };
    let opcode = read_number(f[2].as_slice(), 16);
    let n = read_number(f[3].as_slice(), 10);
    let nb: u8 = if n > 255 { 255 } else { n as u8 };
    let (arg_bytes, short_count) = if nb >= ob { (nb - ob, false) } else { (0u8, true) };
    let has7 = f.len() > 6 && is_all_hex(f[6].as_slice());
    proof { if f.len() > 6 { assert(f@[6]@ == fv[6]); } if f.len() > 7 { assert(f@[7]@ == fv[7]); } }
    let shift = if has7 { read_number(f[6].as_slice(), 16) } else { 0 };
    let or = if has7 && f.len() > 7 && is_all_hex(f[7].as_slice()) { read_number(f[7].as_slice(), 16) } else { 0 };
    let row = Row {
        mnemonic: to_upper(f[0].as_slice()),
        args: slice_vec(f[1].as_slice(), 0, f[1].len()),
        opcode,
        opcode_bytes: ob,
        arg_bytes,
        rule: Rule::from_str(f[4].as_slice()),
        class: read_number(f[5].as_slice(), 16),
        shift,
        or,
        post_shift: 0,
        post_or: 0,
        short_count,
    };
    assert(f@[1]@.subrange(0, f@[1]@.len() as int) =~= f@[1]@);
    assert(row@ == row_of(line@).unwrap());
    Some(row)
}

// --- lines --------------------------------------------------------------------

/// The index of the first line feed at or after `i`, or the length.
pub open spec fn line_end(t: Seq<u8>, i: int) -> int
    decreases t.len() - i,
{
    if i < 0 || i >= t.len() { if i < 0 { 0 } else { t.len() as int } }
    else if t[i] == 0x0A { i }
    else { line_end(t, i + 1) }
}

pub proof fn lemma_line_end(t: Seq<u8>, i: int)
    requires 0 <= i <= t.len(),
    ensures i <= line_end(t, i) <= t.len(),
        line_end(t, i) < t.len() ==> t[line_end(t, i)] == 0x0A,
    decreases t.len() - i,
{
    if i < t.len() && t[i] != 0x0A { lemma_line_end(t, i + 1); }
}

/// `s` less one trailing carriage return.
pub open spec fn chomp(s: Seq<u8>) -> Seq<u8> {
    if s.len() > 0 && s.last() == 0x0D { s.drop_last() } else { s }
}

/// The text of the line starting at `i`: a line ended by CR LF loses both
/// and one more carriage return, an unterminated last line one.
pub open spec fn line_body(t: Seq<u8>, i: int) -> Seq<u8> {
    let e = line_end(t, i);
    let seg = t.subrange(i, e);
    if e < t.len() { chomp(chomp(seg)) } else { chomp(seg) }
}

/// Where the line after the one at `i` starts.
pub open spec fn next_line(t: Seq<u8>, i: int) -> int {
    let e = line_end(t, i);
    if e < t.len() { e + 1 } else { t.len() as int }
}

/// The line starting at `i`: its text, and where the next one starts.
pub(crate) fn read_line(t: &[u8], i: usize) -> (r: (Vec<u8>, usize))
    requires i < t.len(),
    ensures r.0@ == line_body(t@, i as int), r.1 == next_line(t@, i as int), i < r.1 <= t.len(),
{
    proof { lemma_line_end(t@, i as int); }
    let mut e = i;
    while e < t.len() && t[e] != 0x0A
        invariant i <= e <= t.len(), line_end(t@, e as int) == line_end(t@, i as int),
        decreases t.len() - e,
    {
        e += 1;
    }
    let mut hi = e;
    if hi > i && t[hi - 1] == 0x0D { hi -= 1; }
    if e < t.len() && hi > i && t[hi - 1] == 0x0D { hi -= 1; }
    let body = slice_vec(t, i, hi);
    proof {
        let seg = t@.subrange(i as int, e as int);
        if e < t.len() {
            if seg.len() > 0 && seg.last() == 0x0D {
                let c1 = seg.drop_last();
                assert(c1 =~= t@.subrange(i as int, e - 1));
                if c1.len() > 0 && c1.last() == 0x0D {
                    assert(c1.drop_last() =~= t@.subrange(i as int, e - 2));
                }
            }
        } else if seg.len() > 0 && seg.last() == 0x0D {
            assert(seg.drop_last() =~= t@.subrange(i as int, e - 1));
        }
        assert(body@ =~= line_body(t@, i as int));
    }
    let next = if e < t.len() { e + 1 } else { t.len() };
    (body, next)
}

// --- the legacy format ----------------------------------------------------------

/// The banner: the text between the first double quote and the next.
pub open spec fn banner_of(line: Seq<u8>) -> Seq<u8> {
    let a = quote_at(line, 0);
    if a >= line.len() { Seq::empty() } else { line.subrange(a + 1, quote_at(line, a + 1)) }
}

/// The first double quote at or after `i`, or the length.
pub open spec fn quote_at(s: Seq<u8>, i: int) -> int
    decreases s.len() - i,
{
    if i < 0 || i >= s.len() { if i < 0 { 0 } else { s.len() as int } }
    else if s[i] == 0x22 { i }
    else { quote_at(s, i + 1) }
}

pub proof fn lemma_quote_at(s: Seq<u8>, i: int)
    requires 0 <= i <= s.len(),
    ensures i <= quote_at(s, i) <= s.len(),
    decreases s.len() - i,
{
    if i < s.len() && s[i] != 0x22 { lemma_quote_at(s, i + 1); }
}

fn quote_at_exec(s: &[u8], i: usize) -> (r: usize)
    requires i <= s.len(),
    ensures r == quote_at(s@, i as int), i <= r <= s.len(),
{
    proof { lemma_quote_at(s@, i as int); }
    let mut k = i;
    while k < s.len() && s[k] != 0x22
        invariant i <= k <= s.len(), quote_at(s@, k as int) == quote_at(s@, i as int),
        decreases s.len() - k,
    {
        k += 1;
    }
    k
}

fn banner_text(line: &[u8]) -> (r: Vec<u8>)
    ensures r@ == banner_of(line@),
{
    let a = quote_at_exec(line, 0);
    if a >= line.len() {
        return Vec::new();
    }
    let b = quote_at_exec(line, a + 1);
    slice_vec(line, a + 1, b)
}

pub open spec fn kw_msfirst() -> Seq<u8> { seq![0x2Eu8, 0x4D, 0x53, 0x46, 0x49, 0x52, 0x53, 0x54] }
pub open spec fn kw_lsfirst() -> Seq<u8> { seq![0x2Eu8, 0x4C, 0x53, 0x46, 0x49, 0x52, 0x53, 0x54] }
pub open spec fn kw_wordaddrs() -> Seq<u8> { seq![0x2Eu8, 0x57, 0x4F, 0x52, 0x44, 0x41, 0x44, 0x44, 0x52, 0x53] }
pub open spec fn kw_noargshift() -> Seq<u8> { seq![0x2Eu8, 0x4E, 0x4F, 0x41, 0x52, 0x47, 0x53, 0x48, 0x49, 0x46, 0x54] }
pub open spec fn kw_regset() -> Seq<u8> { seq![0x2Eu8, 0x52, 0x45, 0x47, 0x53, 0x45, 0x54] }
pub open spec fn kw_altwild() -> Seq<u8> { seq![0x2Eu8, 0x41, 0x4C, 0x54, 0x57, 0x49, 0x4C, 0x44] }

/// The `i`-th field of `f`, or nothing.
pub open spec fn field_or_empty(f: Seq<Seq<u8>>, i: int) -> Seq<u8> {
    if 0 <= i < f.len() { f[i] } else { Seq::empty() }
}

/// What a legacy `.` directive line does to the table.
pub open spec fn directive_effect(t: TableV, line: Seq<u8>) -> TableV {
    let f = fields(line);
    let name = field_or_empty(f, 0);
    let up = upper_seq(name);
    if up == kw_msfirst() { TableV { msfirst: true, ..t } }
    else if up == kw_lsfirst() { TableV { msfirst: false, ..t } }
    else if up == kw_wordaddrs() { TableV { wordaddrs: true, ..t } }
    else if up == kw_noargshift() { TableV { noargshift: true, ..t } }
    else if up == kw_regset() {
        let n = field_or_empty(f, 1);
        let c = field_or_empty(f, 3);
        if n.len() > 0 && t.regsets.len() < MAX_REGSETS {
            TableV { regsets: t.regsets.push(RegSetV {
                name: n,
                mask: sat_number(field_or_empty(f, 2), 16) as u32,
                class: if c.len() == 0 { 1 } else { sat_number(c, 16) as u32 },
            }), ..t }
        } else { t }
    }
    else if up.len() >= 8 && up.subrange(0, 8) == kw_altwild() {
        let c = if name.len() > 8 { name[8] } else { 0u8 };
        TableV { wildcard: if 33 <= c <= 127 { c } else { 0x40u8 }, ..t }
    }
    else { t }
}

/// One line of a legacy table; `None` where a row would pass the row limit.
pub open spec fn v1_line(t: TableV, n: int, line: Seq<u8>) -> Option<TableV> {
    if line.len() == 0 { Some(t) }
    else if line[0] == 0x22 && n == 0 { Some(TableV { banner: banner_of(line), ..t }) }
    else if line[0] == 0x2E { Some(directive_effect(t, line)) }
    else if is_upper(line[0]) {
        if t.rows.len() >= MAX_TABLE_ROWS { None }
        else {
            match row_of(line) {
                Some(r) => Some(TableV { rows: t.rows.push(r), ..t }),
                None => Some(t),
            }
        }
    }
    else { Some(t) }
}

/// The lines of a legacy table from byte `i` (line number `n`) on.
pub open spec fn v1_from(t: TableV, text: Seq<u8>, i: int, n: int) -> Option<TableV>
    decreases text.len() - i,
{
    if i < 0 || i >= text.len() { Some(t) }
    else {
        match v1_line(t, n, line_body(text, i)) {
            None => None,
            Some(t2) => if next_line(text, i) <= i { None } else { v1_from(t2, text, next_line(text, i), n + 1) },
        }
    }
}

/// A row with the table-level post-rule transform resolved onto it.
pub open spec fn resolve_row(r: RowV) -> RowV {
    RowV { post_shift: r.shift, post_or: r.or, ..r }
}

/// The table a legacy table text describes.
pub open spec fn load_v1_spec(text: Seq<u8>, selector: Seq<u8>) -> Result<TableV, ()> {
    match v1_from(new_table(selector), text, 0, 0) {
        None => Err(()),
        Some(t) => Ok(if t.noargshift { t } else {
            TableV { rows: t.rows.map_values(|r: RowV| resolve_row(r)), ..t }
        }),
    }
}

/// True when the first line that is neither blank nor a `;` comment opens
/// with `%format`.
pub open spec fn v2_from(text: Seq<u8>, i: int) -> bool
    decreases text.len() - i,
{
    if i < 0 || i >= text.len() { false }
    else {
        let l = trim(line_body(text, i));
        if l.len() == 0 || l[0] == 0x3B {
            if next_line(text, i) <= i { false } else { v2_from(text, next_line(text, i)) }
        } else {
            l.len() >= 7 && l.subrange(0, 7) == seq![0x25u8, 0x66, 0x6F, 0x72, 0x6D, 0x61, 0x74]
        }
    }
}

/// `p` is where a line of `t` starts.
pub open spec fn line_start(t: Seq<u8>, p: int) -> bool {
    0 <= p < t.len() && (p == 0 || t[p - 1] == 0x0A)
}

/// The line at `p` holds something: it is neither blank nor a `;` comment.
pub open spec fn content_line(t: Seq<u8>, p: int) -> bool {
    let l = trim(line_body(t, p));
    l.len() > 0 && l[0] != 0x3B
}

/// The line at `p` opens with `%format`, once trimmed.
pub open spec fn format_line(t: Seq<u8>, p: int) -> bool {
    let l = trim(line_body(t, p));
    l.len() >= 7 && l.subrange(0, 7) == seq![0x25u8, 0x66, 0x6F, 0x72, 0x6D, 0x61, 0x74]
}

proof fn lemma_no_newline_before_end(t: Seq<u8>, i: int, k: int)
    requires 0 <= i <= k < line_end(t, i),
    ensures t[k] != 0x0A,
    decreases t.len() - i,
{
    if i < k { lemma_no_newline_before_end(t, i + 1, k); }
}

proof fn lemma_v2_from_lines(t: Seq<u8>, i: int)
    requires i == t.len() || line_start(t, i),
    ensures v2_from(t, i) <==> exists|p: int| #[trigger] line_start(t, p) && i <= p && content_line(t, p)
        && format_line(t, p) && forall|q: int| #[trigger] line_start(t, q) && i <= q < p ==> !content_line(t, q),
    decreases t.len() - i,
{
    if i < t.len() {
        lemma_line_end(t, i);
        let n = next_line(t, i);
        if content_line(t, i) {
            if v2_from(t, i) {
                assert(forall|q: int| #[trigger] line_start(t, q) && i <= q < i ==> !content_line(t, q));
            }
            assert forall|p: int| #[trigger] line_start(t, p) && i <= p && content_line(t, p) && format_line(t, p)
                && (forall|q: int| #[trigger] line_start(t, q) && i <= q < p ==> !content_line(t, q))
                implies v2_from(t, i) by {
                if p > i { assert(line_start(t, i)); }
            }
        } else {
            assert(i < n);
            assert forall|q: int| i < q < n implies !line_start(t, q) by {
                lemma_no_newline_before_end(t, i, q - 1);
            }
            if n < t.len() { assert(t[n - 1] == 0x0A); assert(line_start(t, n)); }
            lemma_v2_from_lines(t, n);
            if v2_from(t, i) {
                let p = choose|p: int| #[trigger] line_start(t, p) && n <= p && content_line(t, p)
                    && format_line(t, p) && forall|q: int| #[trigger] line_start(t, q) && n <= q < p ==> !content_line(t, q);
                assert(line_start(t, p) && i <= p && content_line(t, p) && format_line(t, p));
                assert forall|q: int| #[trigger] line_start(t, q) && i <= q < p implies !content_line(t, q) by {
                    if q < n { if q > i { } }
                }
            }
            assert forall|p: int| #[trigger] line_start(t, p) && i <= p && content_line(t, p) && format_line(t, p)
                && (forall|q: int| #[trigger] line_start(t, q) && i <= q < p ==> !content_line(t, q))
                implies v2_from(t, i) by {
                assert(p >= n);
                assert forall|q: int| #[trigger] line_start(t, q) && n <= q < p implies !content_line(t, q) by {}
            }
        }
    }
}

/// A text is in the current format exactly when its first line that is
/// neither blank nor a `;` comment opens with `%format`.
pub proof fn lemma_is_v2_first_line(t: Seq<u8>)
    ensures v2_from(t, 0) <==> exists|p: int| #[trigger] line_start(t, p) && content_line(t, p) && format_line(t, p)
        && forall|q: int| #[trigger] line_start(t, q) && q < p ==> !content_line(t, q),
{
    if t.len() > 0 { assert(line_start(t, 0)); }
    lemma_v2_from_lines(t, 0);
    assert forall|p: int| #[trigger] line_start(t, p) implies 0 <= p by {}
}

pub fn is_v2(text: &[u8]) -> (r: bool)
    ensures r == v2_from(text@, 0),
{
    let mut i: usize = 0;
    while i < text.len()
        invariant i <= text.len(), v2_from(text@, i as int) == v2_from(text@, 0),
        decreases text.len() - i,
    {
        let (body, next) = read_line(text, i);
        let l = trim_bytes(body.as_slice());
        if l.len() == 0 || l[0] == 0x3B {
            i = next;
        } else {
            let kw: [u8; 7] = [0x25, 0x66, 0x6F, 0x72, 0x6D, 0x61, 0x74];
            let r = crate::text::starts_with(l.as_slice(), &kw);
            assert(kw@ =~= seq![0x25u8, 0x66, 0x6F, 0x72, 0x6D, 0x61, 0x74]);
            assert(r == (l@.len() >= 7 && l@.subrange(0, 7) == kw@)) by {
                if l@.len() >= 7 {
                    assert(l@.subrange(0, kw@.len() as int) =~= l@.subrange(0, 7));
                }
            }
            return r;
        }
    }
    false
}

impl Table {
    /// An empty table for `selector`; the `3225` table has eight auxiliary
    /// registers, every other two.
    pub fn new(selector: &[u8]) -> (r: Table)
        ensures r@ == new_table(selector@),
    {
        let is3225 = selector.len() == 4 && selector[0] == 0x33 && selector[1] == 0x32
            && selector[2] == 0x32 && selector[3] == 0x35;
        assert(is3225 <==> selector@ == selector_3225()) by {
            if selector@ == selector_3225() { assert(selector@[0] == 0x33); }
            if is3225 { assert(selector@ =~= selector_3225()); }
        }
        let t = Table {
            selector: slice_vec(selector, 0, selector.len()),
            banner: Vec::new(),
            rows: Vec::new(),
            regsets: Vec::new(),
            msfirst: false,
            wordaddrs: false,
            noargshift: false,
            wildcard: 0x2A,
            regmark: 0x21,
            aux_registers: if is3225 { 8 } else { 2 },
        };
        assert(selector@.subrange(0, selector@.len() as int) =~= selector@);
        assert(t@.rows =~= Seq::<RowV>::empty());
        assert(t@.regsets =~= Seq::<RegSetV>::empty());
        assert(t@ == new_table(selector@));
        t
    }
}

fn field_copy(f: &Vec<Vec<u8>>, i: usize) -> (r: Vec<u8>)
    ensures r@ == field_or_empty(f@.map_values(|v: Vec<u8>| v@), i as int),
{
    if i < f.len() {
        let r = slice_vec(f[i].as_slice(), 0, f[i].len());
        assert(f@[i as int]@.subrange(0, f@[i as int]@.len() as int) =~= f@[i as int]@);
        r
    } else {
        Vec::new()
    }
}

fn resolve_in_place(r: &mut Row)
    ensures final(r)@ == resolve_row(old(r)@),
{
    r.post_shift = r.shift;
    r.post_or = r.or;
}

impl Table {
    /// Apply one legacy `.` directive line.
    pub fn directive(&mut self, line: &[u8])
        ensures final(self)@ == directive_effect(old(self)@, line@),
    {
        let f = split_fields(line);
        let ghost fv = fields(line@);
        let name = field_copy(&f, 0);
        let up = to_upper(name.as_slice());
        let k1: [u8; 8] = [0x2E, 0x4D, 0x53, 0x46, 0x49, 0x52, 0x53, 0x54];
        let k2: [u8; 8] = [0x2E, 0x4C, 0x53, 0x46, 0x49, 0x52, 0x53, 0x54];
        let k3: [u8; 10] = [0x2E, 0x57, 0x4F, 0x52, 0x44, 0x41, 0x44, 0x44, 0x52, 0x53];
        let k4: [u8; 11] = [0x2E, 0x4E, 0x4F, 0x41, 0x52, 0x47, 0x53, 0x48, 0x49, 0x46, 0x54];
        let k5: [u8; 7] = [0x2E, 0x52, 0x45, 0x47, 0x53, 0x45, 0x54];
        let k6: [u8; 8] = [0x2E, 0x41, 0x4C, 0x54, 0x57, 0x49, 0x4C, 0x44];
        assert(k1@ =~= kw_msfirst() && k2@ =~= kw_lsfirst() && k3@ =~= kw_wordaddrs());
        assert(k4@ =~= kw_noargshift() && k5@ =~= kw_regset() && k6@ =~= kw_altwild());
        if crate::text::bytes_eq(up.as_slice(), &k1) {
            self.msfirst = true;
        } else if crate::text::bytes_eq(up.as_slice(), &k2) {
            self.msfirst = false;
        } else if crate::text::bytes_eq(up.as_slice(), &k3) {
            self.wordaddrs = true;
        } else if crate::text::bytes_eq(up.as_slice(), &k4) {
            self.noargshift = true;
        } else if crate::text::bytes_eq(up.as_slice(), &k5) {
            let n = field_copy(&f, 1);
            let m = field_copy(&f, 2);
            let c = field_copy(&f, 3);
            if n.len() > 0 && self.regsets.len() < MAX_REGSETS {
                let class = if c.len() == 0 { 1 } else { read_number(c.as_slice(), 16) };
                let rs = RegSet { name: n, mask: read_number(m.as_slice(), 16), class };
                let ghost before = self.regsets@;
                self.regsets.push(rs);
                assert(self.regsets@.map_values(|r: RegSet| r@) =~= before.map_values(|r: RegSet| r@).push(rs@));
            }
        } else if crate::text::starts_with(up.as_slice(), &k6) {
            assert(up@.subrange(0, k6@.len() as int) =~= up@.subrange(0, 8));
            let c: u8 = if name.len() > 8 { name[8] } else { 0 };
            self.wildcard = if 33 <= c && c <= 127 { c } else { 0x40 };
        } else {
            assert(!(up@.len() >= 8 && up@.subrange(0, 8) == kw_altwild())) by {
                if up@.len() >= 8 && up@.subrange(0, 8) == kw_altwild() {
                    assert(up@.subrange(0, k6@.len() as int) =~= up@.subrange(0, 8));
                }
            }
        }
    }

    /// Load a table in the legacy format. Fails only when the rows pass the
    /// row limit.
    pub fn load_v1(text: &[u8], selector: &[u8]) -> (r: Result<Table, LoadError>)
        ensures
            match load_v1_spec(text@, selector@) {
                Err(_) => r matches Err(LoadError::TooManyRows),
                Ok(tv) => r matches Ok(t) && t@ == tv,
            },
    {
        let mut t = Table::new(selector);
        let ghost start = t@;
        let mut i: usize = 0;
        let mut n: usize = 0;
        while i < text.len()
            invariant
                i <= text.len(), n <= i,
                v1_from(start, text@, 0, 0) == v1_from(t@, text@, i as int, n as int),
                start == new_table(selector@),
            decreases text.len() - i,
        {
            let (line, next) = read_line(text, i);
            let ghost before = t@;
            if line.len() == 0 {
            } else if line[0] == 0x22 && n == 0 {
                t.banner = banner_text(line.as_slice());
            } else if line[0] == 0x2E {
                t.directive(line.as_slice());
            } else if 0x41 <= line[0] && line[0] <= 0x5A {
                if t.rows.len() >= MAX_TABLE_ROWS {
                    return Err(LoadError::TooManyRows);
                }
                match parse_row(line.as_slice()) {
                    Some(row) => {
                        let ghost rv = row@;
                        t.rows.push(row);
                        assert(t.rows@.map_values(|r: Row| r@) =~= before.rows.push(rv));
                    }
                    None => {}
                }
            }
            assert(v1_line(before, n as int, line@) == Some(t@));
            i = next;
            n += 1;
        }
        if !t.noargshift {
            let ghost t0 = t@;
            assert(forall|j: int| 0 <= j < t.rows.len() ==> #[trigger] t.rows@[j]@ == t0.rows[j]);
            let mut k: usize = 0;
            while k < t.rows.len()
                invariant
                    k <= t.rows.len(), t.rows.len() == t0.rows.len(),
                    t@.selector == t0.selector, t@.banner == t0.banner, t@.regsets == t0.regsets,
                    t@.msfirst == t0.msfirst, t@.wordaddrs == t0.wordaddrs, t@.noargshift == t0.noargshift,
                    t@.wildcard == t0.wildcard, t@.regmark == t0.regmark, t@.aux_registers == t0.aux_registers,
                    forall|j: int| 0 <= j < k ==> #[trigger] t.rows@[j]@ == resolve_row(t0.rows[j]),
                    forall|j: int| k <= j < t.rows.len() ==> #[trigger] t.rows@[j]@ == t0.rows[j],
                decreases t.rows.len() - k,
            {
                let ghost before = t.rows@;
                resolve_in_place(&mut t.rows[k]);
                assert(t.rows@ == before.update(k as int, t.rows@[k as int]));
                assert(t.rows@[k as int]@ == resolve_row(t0.rows[k as int]));
                k += 1;
            }
            assert(t@.rows =~= t0.rows.map_values(|r: RowV| resolve_row(r)));
        }
        Ok(t)
    }
}

impl Table {
    /// Load a table from its text, in the format its content shows: the
    /// current format when the first substantive line opens with `%format`,
    /// else the legacy one.
    pub fn load(text: &[u8], selector: &[u8]) -> (r: Result<Table, LoadError>)
        ensures
            v2_from(text@, 0) ==> match crate::table2::parse_spec(text@, selector@) {
                Ok(tv) => r matches Ok(t) && t@ == tv,
                Err(e) => r matches Err(x) && crate::table2::fail_matches(x, e),
            },
            !v2_from(text@, 0) ==> match load_v1_spec(text@, selector@) {
                Err(_) => r matches Err(LoadError::TooManyRows),
                Ok(tv) => r matches Ok(t) && t@ == tv,
            },
    {
        if is_v2(text) { crate::table2::parse(text, selector) } else { Table::load_v1(text, selector) }
    }
}

/// The first `.` in `s`, or its length.
pub open spec fn quote_dot(s: Seq<u8>) -> int {
    dot_from(s, 0)
}

pub open spec fn dot_from(s: Seq<u8>, i: int) -> int
    decreases s.len() - i,
{
    if i < 0 || i >= s.len() { s.len() as int } else if s[i] == 0x2E { i } else { dot_from(s, i + 1) }
}

pub proof fn lemma_dot_from(s: Seq<u8>, i: int)
    requires 0 <= i <= s.len(),
    ensures i <= dot_from(s, i) <= s.len(),
    decreases s.len() - i,
{
    if i < s.len() && s[i] != 0x2E { lemma_dot_from(s, i + 1); }
}

pub fn dot_exec(s: &[u8]) -> (r: usize)
    ensures r == quote_dot(s@), r <= s.len(),
{
    proof { lemma_dot_from(s@, 0); }
    let mut i: usize = 0;
    while i < s.len() && s[i] != 0x2E
        invariant i <= s.len(), dot_from(s@, i as int) == dot_from(s@, 0),
        decreases s.len() - i,
    {
        i += 1;
    }
    i
}

} // verus!
