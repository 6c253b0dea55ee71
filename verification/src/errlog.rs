//! Diagnostics: the message catalogue and the layout of a reported line.

use vstd::prelude::*;
use crate::fmt::{dec_digits, dec_pad, spaces, zeros, push_dec, push_dec_pad, push_spaces, push_zeros};
use crate::text::{is_digit, push_all};

verus! {

/// Every diagnostic the assembler raises. The text, capitalisation and
/// trailing padding of each are part of the output.
#[derive(Clone, Copy, PartialEq, Eq, Debug, Structural)]
pub enum Msg {
    LabelNotFound,
    NoSuchLabel,
    DuplicateLabel,
    LabelTooLong,
    TokenTooLong,
    Misaligned,
    SetPreexist,
    ForwardInEquate,
    LabelTableOverflow,
    BinopWhereValue,
    InvalidToken,
    NonUnary,
    ParenImbalance,
    NoTerminatingQuote,
    DivideByZero,
    ModuloByZero,
    NegativeShift,
    NoBinaryDigit,
    PrematureChar,
    BadDirective,
    BadInstruction,
    BadArgument,
    RangeArg,
    RangeArgLc,
    RangeBranch,
    RangeBranchLc,
    Off2kPage,
    OffPage,
    UnusedMsByte,
    InvalidModop,
    NoIndirection,
    RangeArp,
    OutsideImage,
    ShortByteCount,
    NoEnd,
    ImbalancedCond,
    EndifNoMatch,
    ElseNoMatch,
    CondTooDeep,
    IncludeTooDeep,
    EndOutOfRange,
    TooManyArgs,
    MacroTooLong,
    MacroTooDeep,
    DefcontNoDefine,
    MacroExpectsArgs,
    TooManyMacros,
}

/// The exact text of a message.
pub open spec fn msg_str(m: Msg) -> &'static str {
    match m {
        Msg::LabelNotFound => "Label not found:",
        Msg::NoSuchLabel => "No such label:",
        Msg::DuplicateLabel => "Duplicate label:",
        Msg::LabelTooLong => "Label too long:",
        Msg::TokenTooLong => "Label or instruction too long.",
        Msg::Misaligned => "label value misalligned.          ",
        Msg::SetPreexist => "Label must pre-exist for SET:",
        Msg::ForwardInEquate => "Forward reference in equate:",
        Msg::LabelTableOverflow => "label table overflow              ",
        Msg::BinopWhereValue => "Binary operator where a value expected:",
        Msg::InvalidToken => "Invalid token where value expected:",
        Msg::NonUnary => "Non-unary operator at beginning of expression.",
        Msg::ParenImbalance => "Paren imbalance.",
        Msg::NoTerminatingQuote => "No terminating quote:",
        Msg::DivideByZero => "Division by zero.",
        Msg::ModuloByZero => "Modulo by zero.",
        Msg::NegativeShift => "Negative shift count.",
        Msg::NoBinaryDigit => "No binary digit after '%'.",
        Msg::PrematureChar => "Premature end of character constant.",
        Msg::BadDirective => "unrecognized directive.           ",
        Msg::BadInstruction => "unrecognized instruction.         ",
        Msg::BadArgument => "unrecognized argument.            ",
        Msg::RangeArg => "Range of argument exceeded.",
        Msg::RangeArgLc => "range of argument exceeded.",
        Msg::RangeBranch => "Range of relative branch exceeded.",
        Msg::RangeBranchLc => "range of relative branch exceeded.",
        Msg::Off2kPage => "Branch off of current 2K page.",
        Msg::OffPage => "Branch off of current page.",
        Msg::UnusedMsByte => "Unused data in MS byte of argument.",
        Msg::InvalidModop => "Invalid MODOP.",
        Msg::NoIndirection => "Invalid operand.  No indirection for this instruction.",
        Msg::RangeArp => "Range of ARP argument exceeded.",
        Msg::OutsideImage => "Address outside memory image.",
        Msg::ShortByteCount => "Table entry byte count is less than the opcode size.",
        Msg::NoEnd => "No END directive before EOF.      ",
        Msg::ImbalancedCond => "Imbalanced conditional.",
        Msg::EndifNoMatch => "ENDIF without a matching conditional.",
        Msg::ElseNoMatch => "ELSE without a matching conditional.",
        Msg::CondTooDeep => "Max number of nested conditionals exceeded.",
        Msg::IncludeTooDeep => "Include nesting too deep.",
        Msg::EndOutOfRange => "END address out of range.",
        Msg::TooManyArgs => "Maximum number of args exceeded.",
        Msg::MacroTooLong => "Macro expansion too long         ",
        Msg::MacroTooDeep => "Macro expansion too deep (recursive macro?).",
        Msg::DefcontNoDefine => "DEFCONT with no preceding DEFINE.",
        Msg::MacroExpectsArgs => "Macro expects args but none found",
        Msg::TooManyMacros => "Maximum number of macros exceeded ",
    }
}

impl Msg {
    pub fn text(self) -> (r: &'static str)
        ensures r == msg_str(self),
    {
        match self {
            Msg::LabelNotFound => "Label not found:",
            Msg::NoSuchLabel => "No such label:",
            Msg::DuplicateLabel => "Duplicate label:",
            Msg::LabelTooLong => "Label too long:",
            Msg::TokenTooLong => "Label or instruction too long.",
            Msg::Misaligned => "label value misalligned.          ",
            Msg::SetPreexist => "Label must pre-exist for SET:",
            Msg::ForwardInEquate => "Forward reference in equate:",
            Msg::LabelTableOverflow => "label table overflow              ",
            Msg::BinopWhereValue => "Binary operator where a value expected:",
            Msg::InvalidToken => "Invalid token where value expected:",
            Msg::NonUnary => "Non-unary operator at beginning of expression.",
            Msg::ParenImbalance => "Paren imbalance.",
            Msg::NoTerminatingQuote => "No terminating quote:",
            Msg::DivideByZero => "Division by zero.",
            Msg::ModuloByZero => "Modulo by zero.",
            Msg::NegativeShift => "Negative shift count.",
            Msg::NoBinaryDigit => "No binary digit after '%'.",
            Msg::PrematureChar => "Premature end of character constant.",
            Msg::BadDirective => "unrecognized directive.           ",
            Msg::BadInstruction => "unrecognized instruction.         ",
            Msg::BadArgument => "unrecognized argument.            ",
            Msg::RangeArg => "Range of argument exceeded.",
            Msg::RangeArgLc => "range of argument exceeded.",
            Msg::RangeBranch => "Range of relative branch exceeded.",
            Msg::RangeBranchLc => "range of relative branch exceeded.",
            Msg::Off2kPage => "Branch off of current 2K page.",
            Msg::OffPage => "Branch off of current page.",
            Msg::UnusedMsByte => "Unused data in MS byte of argument.",
            Msg::InvalidModop => "Invalid MODOP.",
            Msg::NoIndirection => "Invalid operand.  No indirection for this instruction.",
            Msg::RangeArp => "Range of ARP argument exceeded.",
            Msg::OutsideImage => "Address outside memory image.",
            Msg::ShortByteCount => "Table entry byte count is less than the opcode size.",
            Msg::NoEnd => "No END directive before EOF.      ",
            Msg::ImbalancedCond => "Imbalanced conditional.",
            Msg::EndifNoMatch => "ENDIF without a matching conditional.",
            Msg::ElseNoMatch => "ELSE without a matching conditional.",
            Msg::CondTooDeep => "Max number of nested conditionals exceeded.",
            Msg::IncludeTooDeep => "Include nesting too deep.",
            Msg::EndOutOfRange => "END address out of range.",
            Msg::TooManyArgs => "Maximum number of args exceeded.",
            Msg::MacroTooLong => "Macro expansion too long         ",
            Msg::MacroTooDeep => "Macro expansion too deep (recursive macro?).",
            Msg::DefcontNoDefine => "DEFCONT with no preceding DEFINE.",
            Msg::MacroExpectsArgs => "Macro expects args but none found",
            Msg::TooManyMacros => "Maximum number of macros exceeded ",
        }
    }
}

// --- the reported line -------------------------------------------------------

/// A rendered custom-format line is cut at this many bytes: two short of the
/// line buffer, the room left for the newline and terminator.
pub const RENDER_LIMIT: usize = 508 + 2;

/// The kinds of conversion a custom format may use.
#[derive(Clone, Copy, PartialEq, Eq, Debug, Structural)]
pub enum Conv {
    Str,
    Int,
}

/// The conversions a custom format must use, in this order: file name, line
/// number, message, detail. A format may stop early.
pub open spec fn expected_convs() -> Seq<Conv> {
    seq![Conv::Str, Conv::Int, Conv::Str, Conv::Str]
}

pub open spec fn is_flag(c: u8) -> bool {
    c == 0x2D || c == 0x2B || c == 0x20 || c == 0x23 || c == 0x30
}

/// The end of a run of flag characters from `i`.
pub open spec fn flags_end(b: Seq<u8>, i: int) -> int
    decreases b.len() - i,
{
    if 0 <= i < b.len() && is_flag(b[i]) { flags_end(b, i + 1) } else { i }
}

/// The end of a run of decimal digits from `i`.
pub open spec fn digits_end(b: Seq<u8>, i: int) -> int
    decreases b.len() - i,
{
    if 0 <= i < b.len() && is_digit(b[i]) { digits_end(b, i + 1) } else { i }
}

/// The value of the digits `b[from..to]`.
pub open spec fn digits_val(b: Seq<u8>, from: int, to: int) -> int
    decreases to - from,
{
    if to <= from { 0 } else { digits_val(b, from, to - 1) * 10 + (b[to - 1] - 0x30) }
}

/// A width or precision: the digits' value, or the render limit where the
/// digits do not fit a `usize` (or, for a precision, where there are none).
pub open spec fn field_num(b: Seq<u8>, from: int, to: int) -> int {
    if to <= from || digits_val(b, from, to) > usize::MAX { RENDER_LIMIT as int } else { digits_val(b, from, to) }
}

/// The conversions of `b` from `i` on, given those already seen; `None`
/// where the format uses one that is not supported.
pub open spec fn parse_convs(b: Seq<u8>, i: int, convs: Seq<Conv>) -> Option<Seq<Conv>>
    decreases b.len() - i, 1int,
{
    if i < 0 || i >= b.len() { Some(convs) }
    else if b[i] != 0x25 { parse_convs(b, i + 1, convs) }
    else if i + 1 < b.len() && b[i + 1] == 0x25 { parse_convs(b, i + 2, convs) }
    else {
        proof { lemma_flags_end(b, i + 1); }
        parse_conv_at(b, flags_end(b, i + 1), convs)
    }
}

/// After the flags of a conversion, at `f`.
pub open spec fn parse_conv_at(b: Seq<u8>, f: int, convs: Seq<Conv>) -> Option<Seq<Conv>>
    decreases b.len() - f, 0int,
{
    if f < 1 || f > b.len() { None }
    else if f < b.len() && b[f] == 0x2A { None }
    else {
        let w = digits_end(b, f);
        let p = if w < b.len() && b[w] == 0x2E { digits_end(b, w + 1) } else { w };
        if p >= b.len() || p < f { None }
        else {
            let c = b[p];
            if c != 0x73 && c != 0x64 && c != 0x69 { None }
            else {
                let next = convs.push(if c == 0x73 { Conv::Str } else { Conv::Int });
                if next.len() > 4 { None } else { parse_convs(b, p + 1, next) }
            }
        }
    }
}

/// A format is accepted when its conversions are a prefix of the expected ones.
pub open spec fn accepted(b: Seq<u8>) -> bool {
    match parse_convs(b, 0, Seq::empty()) {
        Some(c) => c.len() <= 4 && c == expected_convs().subrange(0, c.len() as int),
        None => false,
    }
}

/// The text of the `argi`-th argument of a `%s`.
pub open spec fn str_arg(argi: int, file: Seq<u8>, message: Seq<u8>, detail: Seq<u8>) -> Seq<u8> {
    if argi == 0 { file } else if argi == 2 { message } else { detail }
}

/// Whether `c` occurs in `b[from..to]`.
pub open spec fn has_byte(b: Seq<u8>, from: int, to: int, c: u8) -> bool
    decreases to - from,
{
    if to <= from { false } else { has_byte(b, from, to - 1, c) || b[to - 1] == c }
}

/// The text one conversion at `i` (just after its `%`) produces, before the
/// line is cut, with `used` bytes already written.
pub open spec fn piece(b: Seq<u8>, i: int, argi: int, used: int, file: Seq<u8>, line: u32,
    message: Seq<u8>, detail: Seq<u8>) -> Seq<u8>
{
    let f = flags_end(b, i);
    let left = has_byte(b, i, f, 0x2D);
    let zero = has_byte(b, i, f, 0x30);
    let w = digits_end(b, f);
    let width = if w > f { field_num(b, f, w) } else { 0 };
    let has_prec = w < b.len() && b[w] == 0x2E;
    let p = if has_prec { digits_end(b, w + 1) } else { w };
    let prec = field_num(b, w + 1, p);
    let is_str = b[p] == 0x73;
    let s = if is_str { str_arg(argi, file, message, detail) }
        else if zero { dec_pad(line as nat, width) } else { dec_digits(line as nat) };
    let s2 = if is_str && has_prec && prec < s.len() { s.subrange(0, prec) } else { s };
    let room = if used < RENDER_LIMIT { RENDER_LIMIT - used } else { 0 };
    let padn = if width - s2.len() < room { width - s2.len() } else { room };
    if s2.len() < width { if left { s2 + spaces(padn) } else { spaces(padn) + s2 } } else { s2 }
}

/// Where the conversion at `i` ends.
pub open spec fn piece_end(b: Seq<u8>, i: int) -> int {
    let w = digits_end(b, flags_end(b, i));
    if w < b.len() && b[w] == 0x2E { digits_end(b, w + 1) + 1 } else { w + 1 }
}

/// A custom format applied from `i`, with `out` written so far. Ordinary
/// bytes of the format are copied unchanged, as `printf` copies them, `%%`
/// gives `%`, and each conversion its piece; the line stops at
/// `RENDER_LIMIT` bytes, the room a source line leaves for its newline and
/// terminator.
pub open spec fn apply_from(b: Seq<u8>, i: int, out: Seq<u8>, argi: int, file: Seq<u8>, line: u32,
    message: Seq<u8>, detail: Seq<u8>) -> Seq<u8>
    decreases b.len() - i,
{
    if i < 0 || i >= b.len() { out }
    else if b[i] != 0x25 {
        if out.len() + 1 >= RENDER_LIMIT { out.push(b[i]).subrange(0, RENDER_LIMIT as int) }
        else { apply_from(b, i + 1, out.push(b[i]), argi, file, line, message, detail) }
    }
    else if i + 1 < b.len() && b[i + 1] == 0x25 {
        if out.len() + 1 >= RENDER_LIMIT { out.push(0x25).subrange(0, RENDER_LIMIT as int) }
        else { apply_from(b, i + 2, out.push(0x25), argi, file, line, message, detail) }
    }
    else if piece_end(b, i + 1) > b.len() || piece_end(b, i + 1) <= i { out }
    else {
        let o2 = out + piece(b, i + 1, argi, out.len() as int, file, line, message, detail);
        if o2.len() >= RENDER_LIMIT { o2.subrange(0, RENDER_LIMIT as int) }
        else { apply_from(b, piece_end(b, i + 1), o2, argi + 1, file, line, message, detail) }
    }
}

/// A custom layout renders to at most `RENDER_LIMIT` bytes, whatever its
/// plain text and whatever the arguments.
pub proof fn lemma_apply_within_limit(b: Seq<u8>, i: int, out: Seq<u8>, argi: int, file: Seq<u8>, line: u32,
    message: Seq<u8>, detail: Seq<u8>)
    requires out.len() <= RENDER_LIMIT,
    ensures apply_from(b, i, out, argi, file, line, message, detail).len() <= RENDER_LIMIT,
    decreases b.len() - i,
{
    if i < 0 || i >= b.len() {
    } else if b[i] != 0x25 {
        if out.len() + 1 < RENDER_LIMIT { lemma_apply_within_limit(b, i + 1, out.push(b[i]), argi, file, line, message, detail); }
    } else if i + 1 < b.len() && b[i + 1] == 0x25 {
        if out.len() + 1 < RENDER_LIMIT { lemma_apply_within_limit(b, i + 2, out.push(0x25), argi, file, line, message, detail); }
    } else if piece_end(b, i + 1) > b.len() || piece_end(b, i + 1) <= i {
    } else {
        let o2 = out + piece(b, i + 1, argi, out.len() as int, file, line, message, detail);
        if o2.len() < RENDER_LIMIT {
            lemma_apply_within_limit(b, piece_end(b, i + 1), o2, argi + 1, file, line, message, detail);
        }
    }
}

/// The detail argument: the detail in parentheses, or nothing.
pub open spec fn detail_text(detail: Option<Seq<u8>>) -> Seq<u8> {
    match detail { Some(d) => seq![0x28u8] + d + seq![0x29u8], None => Seq::empty() }
}

/// The built-in layout, `<file> line <nnnn>: <message> <detail>`.
pub open spec fn default_text(file: Seq<u8>, line: u32, message: Seq<u8>, detail: Option<Seq<u8>>) -> Seq<u8> {
    file + seq![0x20u8, 0x6Cu8, 0x69u8, 0x6Eu8, 0x65u8, 0x20u8] + dec_pad(line as nat, 4)
        + seq![0x3Au8, 0x20u8] + message + seq![0x20u8] + detail_text(detail)
}

/// How a diagnostic line is laid out: the built-in layout, or a custom format
/// whose conversions were checked.
#[derive(Clone, Debug)]
pub struct Format {
    pub spec: Option<Vec<u8>>,
}

/// The warning printed when a custom format is refused.
pub open spec fn rejection_text() -> &'static str {
    "ignoring TASMERRFORMAT: unsupported conversion (expected %s, %d, %s, %s in that order)"
}

impl Format {
    pub open spec fn wf(&self) -> bool {
        match self.spec { Some(s) => accepted(s@), None => true }
    }

    pub open spec fn rendered(&self, file: Seq<u8>, line: u32, message: Seq<u8>, detail: Option<Seq<u8>>) -> Seq<u8> {
        match self.spec {
            None => default_text(file, line, message, detail),
            Some(s) => apply_from(s@, 0, Seq::empty(), 0, file, line, message, detail_text(detail)),
        }
    }

    /// The built-in layout.
    pub fn default_layout() -> (r: Format)
        ensures r.spec is None, r.wf(),
    {
        Format { spec: None }
    }

    /// The layout a custom format string selects, and the warning to print
    /// when it is refused (the layout is then the built-in one).
    pub fn from_env(spec: Option<&[u8]>) -> (r: (Format, Option<&'static str>))
        ensures
            r.0.wf(),
            match spec {
                None => r.0.spec is None && r.1 is None,
                Some(s) => if accepted(s@) {
                    r.0.spec matches Some(v) && v@ == s@ && r.1 is None
                } else {
                    r.0.spec is None && r.1 == Some(rejection_text())
                },
            },
    {
        match spec {
            None => (Format::default_layout(), None),
            Some(s) => {
                if check_format(s) {
                    let mut v: Vec<u8> = Vec::new();
                    push_all(&mut v, s);
                    assert(v@ =~= s@);
                    (Format { spec: Some(v) }, None)
                } else {
                    (Format::default_layout(),
                     Some("ignoring TASMERRFORMAT: unsupported conversion (expected %s, %d, %s, %s in that order)"))
                }
            }
        }
    }

    /// One reported line.
    pub fn render(&self, file: &[u8], line: u32, message: &[u8], detail: Option<&[u8]>) -> (r: Vec<u8>)
        requires self.wf(),
        ensures r@ == self.rendered(file@, line, message@, match detail { Some(d) => Some(d@), None => None }),
            self.spec is Some ==> r@.len() <= RENDER_LIMIT,
    {
        let ghost dv = match detail { Some(d) => Some(d@), None => None };
        let mut d: Vec<u8> = Vec::new();
        match detail {
            Some(t) => {
                d.push(0x28);
                push_all(&mut d, t);
                d.push(0x29);
            }
            None => {}
        }
        assert(d@ =~= detail_text(dv));
        match &self.spec {
            None => {
                let mut out: Vec<u8> = Vec::new();
                push_all(&mut out, file);
                let mid: [u8; 6] = [0x20, 0x6C, 0x69, 0x6E, 0x65, 0x20];
                push_all(&mut out, &mid);
                push_dec_pad(&mut out, line as u64, 4);
                out.push(0x3A);
                out.push(0x20);
                push_all(&mut out, message);
                out.push(0x20);
                push_all(&mut out, d.as_slice());
                assert(out@ =~= default_text(file@, line, message@, dv));
                out
            }
            Some(spec) => {
                proof { lemma_apply_within_limit(spec@, 0, Seq::empty(), 0, file@, line, message@, d@); }
                apply(spec.as_slice(), file, line, message, d.as_slice())
            }
        }
    }
}

fn flags_end_exec(b: &[u8], i: usize) -> (r: usize)
    requires i <= b.len(),
    ensures r == flags_end(b@, i as int), i <= r <= b.len(),
{
    let mut j = i;
    while j < b.len() && (b[j] == 0x2D || b[j] == 0x2B || b[j] == 0x20 || b[j] == 0x23 || b[j] == 0x30)
        invariant i <= j <= b.len(), flags_end(b@, j as int) == flags_end(b@, i as int),
        decreases b.len() - j,
    {
        j += 1;
    }
    j
}

fn digits_end_exec(b: &[u8], i: usize) -> (r: usize)
    requires i <= b.len(),
    ensures r == digits_end(b@, i as int), i <= r <= b.len(),
{
    let mut j = i;
    while j < b.len() && 0x30 <= b[j] && b[j] <= 0x39
        invariant i <= j <= b.len(), digits_end(b@, j as int) == digits_end(b@, i as int),
        decreases b.len() - j,
    {
        j += 1;
    }
    j
}

pub proof fn lemma_digits_end(b: Seq<u8>, i: int)
    requires 0 <= i <= b.len(),
    ensures i <= digits_end(b, i) <= b.len(),
        forall|k: int| i <= k < digits_end(b, i) ==> is_digit(#[trigger] b[k]),
    decreases b.len() - i,
{
    if i < b.len() && is_digit(b[i]) { lemma_digits_end(b, i + 1); }
}

pub proof fn lemma_flags_end(b: Seq<u8>, i: int)
    requires 0 <= i <= b.len(),
    ensures i <= flags_end(b, i) <= b.len(),
    decreases b.len() - i,
{
    if i < b.len() && is_flag(b[i]) { lemma_flags_end(b, i + 1); }
}

/// The width or precision written in `b[from..to]`, a run of digits.
fn field_num_exec(b: &[u8], from: usize, to: usize) -> (r: usize)
    requires from <= to <= b.len(), forall|k: int| from <= k < to ==> is_digit(#[trigger] b@[k]),
    ensures r == field_num(b@, from as int, to as int),
{
    if to <= from { return RENDER_LIMIT; }
    let mut v: usize = 0;
    let mut over = false;
    let mut k = from;
    while k < to
        invariant
            from <= k <= to <= b.len(),
            forall|q: int| from <= q < to ==> is_digit(#[trigger] b@[q]),
            !over ==> v == digits_val(b@, from as int, k as int),
            over ==> digits_val(b@, from as int, k as int) > usize::MAX,
        decreases to - k,
    {
        assert(is_digit(b@[k as int]));
        let d = (b[k] - 0x30) as usize;
        if !over {
            match v.checked_mul(10) {
                Some(m) => match m.checked_add(d) {
                    Some(n) => { v = n; }
                    None => { over = true; }
                },
                None => { over = true; }
            }
        }
        k += 1;
    }
    if over { RENDER_LIMIT } else if v > usize::MAX { RENDER_LIMIT } else { v }
}

/// Whether a custom format uses only the supported conversions, in order.
fn check_format(b: &[u8]) -> (r: bool)
    ensures r == accepted(b@),
{
    let ghost bs = b@;
    let mut convs: Vec<Conv> = Vec::new();
    let mut i: usize = 0;
    while i < b.len()
        invariant
            i <= b.len(), convs@.len() <= 4, bs == b@,
            parse_convs(bs, 0, Seq::empty()) == parse_convs(bs, i as int, convs@),
        decreases b.len() - i,
    {
        if b[i] != 0x25 {
            i += 1;
        } else if i + 1 < b.len() && b[i + 1] == 0x25 {
            i += 2;
        } else {
            let f = flags_end_exec(b, i + 1);
            assert(parse_convs(bs, i as int, convs@) == parse_conv_at(bs, f as int, convs@));
            if f < b.len() && b[f] == 0x2A {
                return false;
            }
            let w = digits_end_exec(b, f);
            let p = if w < b.len() && b[w] == 0x2E { digits_end_exec(b, w + 1) } else { w };
            if p >= b.len() {
                return false;
            }
            let c = b[p];
            if c != 0x73 && c != 0x64 && c != 0x69 {
                return false;
            }
            convs.push(if c == 0x73 { Conv::Str } else { Conv::Int });
            if convs.len() > 4 {
                return false;
            }
            i = p + 1;
        }
    }
    assert(parse_convs(bs, i as int, convs@) == Some(convs@));
    let n = convs.len();
    let ok = (n < 1 || convs[0] == Conv::Str) && (n < 2 || convs[1] == Conv::Int)
        && (n < 3 || convs[2] == Conv::Str) && (n < 4 || convs[3] == Conv::Str);
    assert(ok <==> convs@ =~= expected_convs().subrange(0, n as int));
    ok
}

/// The text of one conversion, for all but a zero-padded number wider than
/// the line, which is handled where the line is cut.
fn build_piece(b: &[u8], j: usize, f: usize, w: usize, p: usize, argi: usize, used: usize,
    file: &[u8], line: u32, message: &[u8], detail: &[u8]) -> (r: Vec<u8>)
    requires
        j <= b.len(), f == flags_end(b@, j as int), w == digits_end(b@, f as int),
        p == (if w < b.len() && b@[w as int] == 0x2E { digits_end(b@, w + 1) } else { w as int }),
        p < b.len(),
        !(b@[p as int] != 0x73 && has_byte(b@, j as int, f as int, 0x30)
            && (if w > f { field_num(b@, f as int, w as int) } else { 0 }) >= RENDER_LIMIT + 10),
    ensures r@ == piece(b@, j as int, argi as int, used as int, file@, line, message@, detail@),
{
    let ghost bs = b@;
    proof {
        lemma_flags_end(bs, j as int);
        lemma_digits_end(bs, f as int);
        if w < b.len() && bs[w as int] == 0x2E { lemma_digits_end(bs, w + 1); }
    }
    let has_prec = w < b.len() && b[w] == 0x2E;
    let mut left = false;
    let mut zero = false;
    let mut k = j;
    while k < f
        invariant j <= k <= f <= b.len(), bs == b@,
            left == has_byte(bs, j as int, k as int, 0x2D),
            zero == has_byte(bs, j as int, k as int, 0x30),
        decreases f - k,
    {
        if b[k] == 0x2D { left = true; }
        if b[k] == 0x30 { zero = true; }
        k += 1;
    }
    let width: usize = if w > f { field_num_exec(b, f, w) } else { 0 };
    let is_str = b[p] == 0x73;
    let mut s: Vec<u8> = Vec::new();
    if is_str {
        let src: &[u8] = if argi == 0 { file } else if argi == 2 { message } else { detail };
        let mut n = src.len();
        if has_prec {
            let prec = field_num_exec(b, w + 1, p);
            if prec < n { n = prec; }
        }
        let mut q: usize = 0;
        while q < n
            invariant q <= n <= src.len(), s@ == src@.subrange(0, q as int),
            decreases n - q,
        {
            s.push(src[q]);
            assert(s@ =~= src@.subrange(0, q + 1));
            q += 1;
        }
        assert(src@.subrange(0, src@.len() as int) =~= src@);
    } else if zero {
        push_dec_pad(&mut s, line as u64, width);
    } else {
        push_dec(&mut s, line as u64);
    }
    assert(s@ =~= Seq::<u8>::empty() + s@);
    let mut out: Vec<u8> = Vec::new();
    if s.len() < width {
        let room = if used < RENDER_LIMIT { RENDER_LIMIT - used } else { 0 };
        let padn = if width - s.len() < room { width - s.len() } else { room };
        if left {
            push_all(&mut out, s.as_slice());
            push_spaces(&mut out, padn);
        } else {
            push_spaces(&mut out, padn);
            push_all(&mut out, s.as_slice());
        }
    } else {
        push_all(&mut out, s.as_slice());
    }
    assert(out@ =~= piece(bs, j as int, argi as int, used as int, file@, line, message@, detail@));
    out
}

/// Apply a custom format to the four arguments.
fn apply(spec: &[u8], file: &[u8], line: u32, message: &[u8], detail: &[u8]) -> (r: Vec<u8>)
    ensures r@ == apply_from(spec@, 0, Seq::empty(), 0, file@, line, message@, detail@),
{
    let b = spec;
    let ghost bs = b@;
    let ghost total = apply_from(bs, 0, Seq::empty(), 0, file@, line, message@, detail@);
    let mut out: Vec<u8> = Vec::new();
    let mut argi: usize = 0;
    let mut i: usize = 0;
    while i < b.len()
        invariant
            i <= b.len(), argi <= i, bs == b@,
            total == apply_from(spec@, 0, Seq::empty(), 0, file@, line, message@, detail@),
            total == apply_from(bs, i as int, out@, argi as int, file@, line, message@, detail@),
        decreases b.len() - i,
    {
        if b[i] != 0x25 || (i + 1 < b.len() && b[i + 1] == 0x25) {
            let ghost before = out@;
            let c = b[i];
            out.push(c);
            if out.len() >= RENDER_LIMIT {
                out.truncate(RENDER_LIMIT);
                assert(out@ =~= before.push(c).subrange(0, RENDER_LIMIT as int));
                return out;
            }
            i = if c != 0x25 { i + 1 } else { i + 2 };
        } else {
            let j = i + 1;
            let f = flags_end_exec(b, j);
            let w = digits_end_exec(b, f);
            let has_prec = w < b.len() && b[w] == 0x2E;
            let p = if has_prec { digits_end_exec(b, w + 1) } else { w };
            assert(piece_end(bs, j as int) == p + 1);
            if p >= b.len() {
                return out;
            }
            proof { lemma_digits_end(bs, f as int); }
            let used = out.len();
            let ghost pc = piece(bs, j as int, argi as int, used as int, file@, line, message@, detail@);
            let zero = has_zero_flag(b, j, f);
            let width: usize = if w > f { field_num_exec(b, f, w) } else { 0 };
            let ghost out_before = out@;
            if b[p] != 0x73 && zero && width >= RENDER_LIMIT + 10 {
                // The zeros alone reach the end of the line.
                proof {
                    crate::fmt::lemma_dec_digits_len(line as nat);
                    assert(pc == dec_pad(line as nat, width as int));
                }
                if used >= RENDER_LIMIT {
                    out.truncate(RENDER_LIMIT);
                } else {
                    push_zeros(&mut out, RENDER_LIMIT - used);
                }
                assert(out@ =~= (out_before + pc).subrange(0, RENDER_LIMIT as int));
                return out;
            }
            let pv = build_piece(b, j, f, w, p, argi, used, file, line, message, detail);
            push_all(&mut out, pv.as_slice());
            if out.len() >= RENDER_LIMIT {
                out.truncate(RENDER_LIMIT);
                return out;
            }
            i = p + 1;
            argi += 1;
        }
    }
    out
}

fn has_zero_flag(b: &[u8], j: usize, f: usize) -> (r: bool)
    requires j <= f <= b.len(),
    ensures r == has_byte(b@, j as int, f as int, 0x30),
{
    let mut zero = false;
    let mut k = j;
    while k < f
        invariant j <= k <= f <= b.len(), zero == has_byte(b@, j as int, k as int, 0x30),
        decreases f - k,
    {
        if b[k] == 0x30 { zero = true; }
        k += 1;
    }
    zero
}

} // verus!
