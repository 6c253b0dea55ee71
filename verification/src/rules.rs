//! Encoding rules: how an instruction's operand values fold into its opcode
//! and argument bytes.
//!
//! `argval` starts as the first operand's value; a rule may rewrite the
//! opcode, `argval`, both byte counts, or supply the argument bytes directly;
//! then the row's post-rule transform `argval = (argval << post_shift) |
//! post_or` runs. Every rule is stated below as a function on the encoder's
//! state, and each is proved to compute exactly that.

use vstd::prelude::*;
use crate::errlog::Msg;
use crate::expr::{Diag, diags_view, names_view, to_u32, to_i32, u32_of, i32_of, wrap, wrap_i64};
use crate::fmt::{dec_signed, push_dec_signed};
use crate::text::{push_all, slice_vec};

verus! {

/// An encoding rule, named by two characters.
#[derive(Clone, Copy, PartialEq, Eq, Debug, Structural)]
pub enum Rule {
    NO, JM, JT, R1, ZP, MZ, MB, ZB, ZI, CO, CR, CS, SW, R3REL,
    T1, TD, TL, T5, TA, SU, R2, I1, I2, I3, I4, I5, I6, I7, I8,
    T2, T3, T4, T6, A3, CN, C5, SZ, SB, R3, ZW, ZD, ZL,
    /// A key no rule is known by; encoding with it reports `Invalid MODOP.`
    Other(u16),
}

pub open spec fn key_of(a: u8, b: u8) -> u16 {
    (a as u16 * 256 + b as u16) as u16
}

/// The rule a two-character key names.
pub open spec fn rule_of_key(k: u16) -> Rule {
    if k == key_of(0x4E, 0x4F) { Rule::NO } else if k == key_of(0x4A, 0x4D) { Rule::JM }
    else if k == key_of(0x4A, 0x54) { Rule::JT } else if k == key_of(0x52, 0x31) { Rule::R1 }
    else if k == key_of(0x5A, 0x50) { Rule::ZP } else if k == key_of(0x4D, 0x5A) { Rule::MZ }
    else if k == key_of(0x4D, 0x42) { Rule::MB } else if k == key_of(0x5A, 0x42) { Rule::ZB }
    else if k == key_of(0x5A, 0x49) { Rule::ZI } else if k == key_of(0x43, 0x4F) { Rule::CO }
    else if k == key_of(0x43, 0x52) { Rule::CR } else if k == key_of(0x43, 0x53) { Rule::CS }
    else if k == key_of(0x53, 0x57) { Rule::SW } else if k == key_of(0x33, 0x52) { Rule::R3REL }
    else if k == key_of(0x54, 0x31) { Rule::T1 } else if k == key_of(0x54, 0x44) { Rule::TD }
    else if k == key_of(0x54, 0x4C) { Rule::TL } else if k == key_of(0x54, 0x35) { Rule::T5 }
    else if k == key_of(0x54, 0x41) { Rule::TA } else if k == key_of(0x53, 0x55) { Rule::SU }
    else if k == key_of(0x52, 0x32) { Rule::R2 } else if k == key_of(0x49, 0x31) { Rule::I1 }
    else if k == key_of(0x49, 0x32) { Rule::I2 } else if k == key_of(0x49, 0x33) { Rule::I3 }
    else if k == key_of(0x49, 0x34) { Rule::I4 } else if k == key_of(0x49, 0x35) { Rule::I5 }
    else if k == key_of(0x49, 0x36) { Rule::I6 } else if k == key_of(0x49, 0x37) { Rule::I7 }
    else if k == key_of(0x49, 0x38) { Rule::I8 } else if k == key_of(0x54, 0x32) { Rule::T2 }
    else if k == key_of(0x54, 0x33) { Rule::T3 } else if k == key_of(0x54, 0x34) { Rule::T4 }
    else if k == key_of(0x54, 0x36) { Rule::T6 } else if k == key_of(0x33, 0x41) { Rule::A3 }
    else if k == key_of(0x43, 0x4E) { Rule::CN } else if k == key_of(0x43, 0x35) { Rule::C5 }
    else if k == key_of(0x53, 0x5A) { Rule::SZ } else if k == key_of(0x53, 0x42) { Rule::SB }
    else if k == key_of(0x52, 0x33) { Rule::R3 } else if k == key_of(0x5A, 0x57) { Rule::ZW }
    else if k == key_of(0x5A, 0x44) { Rule::ZD } else if k == key_of(0x5A, 0x4C) { Rule::ZL }
    else { Rule::Other(k) }
}

impl Rule {
    /// The rule a two-character key names.
    pub fn key(a: u8, b: u8) -> (r: Rule)
        returns rule_of_key(key_of(a, b)),
    {
        let k: u16 = a as u16 * 256 + b as u16;
        if k == 0x4E4F { Rule::NO } else if k == 0x4A4D { Rule::JM }
        else if k == 0x4A54 { Rule::JT } else if k == 0x5231 { Rule::R1 }
        else if k == 0x5A50 { Rule::ZP } else if k == 0x4D5A { Rule::MZ }
        else if k == 0x4D42 { Rule::MB } else if k == 0x5A42 { Rule::ZB }
        else if k == 0x5A49 { Rule::ZI } else if k == 0x434F { Rule::CO }
        else if k == 0x4352 { Rule::CR } else if k == 0x4353 { Rule::CS }
        else if k == 0x5357 { Rule::SW } else if k == 0x3352 { Rule::R3REL }
        else if k == 0x5431 { Rule::T1 } else if k == 0x5444 { Rule::TD }
        else if k == 0x544C { Rule::TL } else if k == 0x5435 { Rule::T5 }
        else if k == 0x5441 { Rule::TA } else if k == 0x5355 { Rule::SU }
        else if k == 0x5232 { Rule::R2 } else if k == 0x4931 { Rule::I1 }
        else if k == 0x4932 { Rule::I2 } else if k == 0x4933 { Rule::I3 }
        else if k == 0x4934 { Rule::I4 } else if k == 0x4935 { Rule::I5 }
        else if k == 0x4936 { Rule::I6 } else if k == 0x4937 { Rule::I7 }
        else if k == 0x4938 { Rule::I8 } else if k == 0x5432 { Rule::T2 }
        else if k == 0x5433 { Rule::T3 } else if k == 0x5434 { Rule::T4 }
        else if k == 0x5436 { Rule::T6 } else if k == 0x3341 { Rule::A3 }
        else if k == 0x434E { Rule::CN } else if k == 0x4335 { Rule::C5 }
        else if k == 0x535A { Rule::SZ } else if k == 0x5342 { Rule::SB }
        else if k == 0x5233 { Rule::R3 } else if k == 0x5A57 { Rule::ZW }
        else if k == 0x5A44 { Rule::ZD } else if k == 0x5A4C { Rule::ZL }
        else { Rule::Other(k) }
    }
}

// --- the encoder state -------------------------------------------------------------

pub struct Enc {
    pub pcx: i32,
    pub opcode: u32,
    pub opcode_bytes: u8,
    pub arg_bytes: u8,
    pub argval: i32,
    pub shift: u32,
    pub or: u32,
    /// Evaluated operand values, in source order.
    pub argv: Vec<i32>,
    /// The operands' source text, reported as diagnostic detail.
    pub argt: Vec<Vec<u8>>,
    /// Argument bytes given outright, for encodings no 32-bit value can hold.
    pub vector: Option<Vec<u8>>,
    pub diags: Vec<Diag>,
    /// The post-rule transform, per row.
    pub post_shift: u32,
    pub post_or: u32,
    /// How many auxiliary registers the target has.
    pub aux_registers: u32,
}

pub struct EncV {
    pub pcx: i32,
    pub opcode: u32,
    pub opcode_bytes: u8,
    pub arg_bytes: u8,
    pub argval: i32,
    pub shift: u32,
    pub or: u32,
    pub argv: Seq<i32>,
    pub argt: Seq<Seq<u8>>,
    pub vector: Option<Seq<u8>>,
    pub diags: Seq<(Msg, Option<Seq<u8>>)>,
    pub post_shift: u32,
    pub post_or: u32,
    pub aux_registers: u32,
}

impl View for Enc {
    type V = EncV;

    open spec fn view(&self) -> EncV {
        EncV {
            pcx: self.pcx,
            opcode: self.opcode,
            opcode_bytes: self.opcode_bytes,
            arg_bytes: self.arg_bytes,
            argval: self.argval,
            shift: self.shift,
            or: self.or,
            argv: self.argv@,
            argt: names_view(self.argt@),
            vector: match self.vector { Some(v) => Some(v@), None => None },
            diags: diags_view(self.diags@),
            post_shift: self.post_shift,
            post_or: self.post_or,
            aux_registers: self.aux_registers,
        }
    }
}

// --- shared pieces ------------------------------------------------------------------

/// The low 16 bits of `argval`: the first operand, truncated.
pub open spec fn aval(e: EncV) -> u32 {
    to_u32(e.argval) & 0xFFFF
}

pub open spec fn arg(e: EncV, i: int) -> i32 {
    if 0 <= i < e.argv.len() { e.argv[i] } else { 0 }
}

/// The low byte of operand `i`.
pub open spec fn lo8(e: EncV, i: int) -> u32 {
    to_u32(arg(e, i)) & 0xFF
}

pub open spec fn text_of(e: EncV, i: int) -> Option<Seq<u8>> {
    if 0 <= i < e.argt.len() { Some(e.argt[i]) } else { None }
}

pub open spec fn text_or_empty(e: EncV, i: int) -> Seq<u8> {
    if 0 <= i < e.argt.len() { e.argt[i] } else { Seq::empty() }
}

pub open spec fn diag(e: EncV, m: Msg, d: Option<Seq<u8>>) -> EncV {
    EncV { diags: e.diags.push((m, d)), ..e }
}

pub open spec fn err(e: EncV, m: Msg) -> EncV {
    diag(e, m, None)
}

/// The shared single-operand range report, naming the operand's text.
pub open spec fn range(e: EncV, i: int) -> EncV {
    diag(e, Msg::RangeArg, text_of(e, i))
}

pub open spec fn checked(e: EncV, i: int, lo: int, hi: int) -> EncV {
    if arg(e, i) < lo || arg(e, i) > hi { range(e, i) } else { e }
}

/// A displacement measured from the address after the whole instruction.
pub open spec fn delta(e: EncV, target: int) -> int {
    target - e.pcx - (e.opcode_bytes + e.arg_bytes)
}

pub open spec fn swap16(v: u32) -> i32 {
    (((v >> 8) & 0x00FF) | ((v << 8) & 0xFF00)) as i32
}

pub open spec fn in_byte(d: int) -> bool {
    -128 <= d <= 127
}

/// The two-operand detail `<first> or <second>`.
pub open spec fn either_text(e: EncV) -> Seq<u8> {
    text_or_empty(e, 0) + seq![0x20u8, 0x6Fu8, 0x72u8, 0x20u8] + text_or_empty(e, 1)
}

/// The post-rule transform.
pub open spec fn post(e: EncV) -> EncV {
    EncV { argval: to_i32((to_u32(e.argval) << (e.post_shift & 31)) | e.post_or), ..e }
}


// --- the rules, stated ----------------------------------------------------------------

/// Jump within a 2K page: the high bits selected by `or` must agree with the
/// counter's (the counter plus two); bits 8-10 go into the opcode.
pub open spec fn rule_jm(e: EncV) -> EncV {
    let a = aval(e);
    let e1 = if (((to_u32(e.pcx) + 2) % 0x1_0000_0000) as u32 & e.or) != (a & e.or) { err(e, Msg::Off2kPage) } else { e };
    EncV { opcode: e1.opcode | ((a & 0x700) >> 3), argval: (a & 0xFF) as i32, ..e1 }
}

/// Jump within the page of the byte after the opcode.
pub open spec fn rule_jt(e: EncV) -> EncV {
    let a = aval(e);
    let e1 = if (a & 0xFF00) != (((to_u32(e.pcx) + 1) % 0x1_0000_0000) as u32 & 0xFF00) { err(e, Msg::OffPage) } else { e };
    EncV { argval: (a & 0xFF) as i32, ..e1 }
}

/// An 8-bit displacement from the end of the instruction.
pub open spec fn rule_r1(e: EncV) -> EncV {
    let d = delta(e, aval(e) as int);
    if !in_byte(d) { EncV { argval: 0, ..err(e, Msg::RangeBranch) } } else { EncV { argval: (d % 256) as i32, ..e } }
}

/// An 8-bit relative branch lands on its target: when the target lies within
/// 128 bytes behind or 127 ahead of the end of the instruction, the argument
/// byte, read as a signed byte and added to that end, gives the target; any
/// other target is a range error with a zero argument.
pub proof fn lemma_rel8_lands_on_target(e: EncV)
    ensures ({
        let end = e.pcx + e.opcode_bytes + e.arg_bytes;
        let b = rule_r1(e).argval;
        &&& (-128 <= aval(e) - end <= 127 ==> rule_r1(e).diags == e.diags && 0 <= b < 256
            && end + (if b >= 128 { b - 256 } else { b as int }) == aval(e))
        &&& (!(-128 <= aval(e) - end <= 127) ==> b == 0
            && rule_r1(e).diags == e.diags.push((Msg::RangeBranch, None::<Seq<u8>>)))
    }),
{
}

/// Page jumps: the argument is the target's low byte; a 256-byte page jump
/// is refused unless the target is in the page of the byte after the opcode,
/// and a 2K page jump carries bits 8 to 10 of the target in opcode bits 5 to 7.
pub proof fn lemma_page_jumps(e: EncV)
    ensures
        rule_jt(e).argval == aval(e) % 256,
        (rule_jt(e).diags == e.diags) <==> aval(e) / 256 == ((to_u32(e.pcx) + 1) % 0x1_0000_0000) / 256 % 256,
        rule_jm(e).argval == aval(e) % 256,
        rule_jm(e).opcode == e.opcode | (aval(e) / 256 % 8 * 32) as u32,
{
    let a: u32 = aval(e);
    let w: u32 = to_u32(e.argval);
    let p: u32 = ((to_u32(e.pcx) + 1) % 0x1_0000_0000) as u32;
    assert(a < 0x1_0000) by (bit_vector) requires a == w & 0xFFFF;
    assert(a & 0xFF == a % 256 && (a & 0x700) >> 3 == a / 256 % 8 * 32) by (bit_vector);
    assert(((a & 0xFF00) == (p & 0xFF00)) == (a / 256 == p / 256 % 256)) by (bit_vector) requires a < 0x1_0000;
    assert(e.diags.push((Msg::OffPage, None::<Seq<u8>>)) != e.diags) by {
        assert(e.diags.push((Msg::OffPage, None::<Seq<u8>>)).len() != e.diags.len());
    }
}

/// A swapped word goes out high byte first: the argument's low byte is the
/// value's high byte and its next byte the value's low byte.
pub proof fn lemma_swapped_word(e: EncV)
    ensures
        to_u32(rule_sw(e).argval) % 256 == aval(e) / 256,
        to_u32(rule_sw(e).argval) / 256 == aval(e) % 256,
{
    let a: u32 = aval(e);
    let w: u32 = to_u32(e.argval);
    assert(a < 0x1_0000) by (bit_vector) requires a == w & 0xFFFF;
    let v: u32 = ((a >> 8) & 0x00FF) | ((a << 8) & 0xFF00);
    assert(v < 0x1_0000 && v % 256 == a / 256 && v / 256 == a % 256) by (bit_vector)
        requires a < 0x1_0000, v == ((a >> 8) & 0x00FF) | ((a << 8) & 0xFF00);
}

/// Where an instruction ends: the address displacements are measured from.
pub open spec fn branch_end(e: EncV) -> int {
    e.pcx + e.opcode_bytes + e.arg_bytes
}

/// A byte read as a two's-complement signed value.
pub open spec fn signed_byte(b: int) -> int {
    if b >= 128 { b - 256 } else { b }
}

/// The displacements the other relative rules write land on their targets
/// too, measured from the end of the instruction: the Z8 `djnz` byte, the
/// second byte of `combine-rel` (the first keeps the first operand's low
/// byte), the third byte of `three-rel`, the low nibble of a `rel4` opcode
/// (modulo 16), and the unchecked 16-bit displacement of `rel16`, modulo 2^32.
pub proof fn lemma_relative_rules_land_on_target(e: EncV)
    ensures
        -128 <= arg(e, 1) - branch_end(e) <= 127 ==> rule_zd(e).diags == e.diags
            && branch_end(e) + signed_byte(rule_zd(e).argval as int) == arg(e, 1),
        -128 <= arg(e, 1) - branch_end(e) <= 127 ==> rule_cr(e).diags == e.diags
            && branch_end(e) + signed_byte((to_u32(rule_cr(e).argval) / 256) as int) == arg(e, 1)
            && to_u32(rule_cr(e).argval) % 256 == to_u32(e.argval) % 256,
        -128 <= arg(e, 2) - branch_end(e) <= 127 ==> rule_r3rel(e).diags == e.diags
            && branch_end(e) + signed_byte((to_u32(rule_r3rel(e).argval) / 0x1_0000) as int) == arg(e, 2)
            && to_u32(rule_r3rel(e).argval) % 256 == aval(e) % 256
            && to_u32(rule_r3rel(e).argval) / 256 % 256 == lo8(e, 1),
        -16 <= aval(e) - branch_end(e) <= 15 && e.opcode % 16 == 0 ==> rule_r3(e).diags == e.diags
            && (branch_end(e) + rule_r3(e).opcode % 16 - aval(e)) % 16 == 0
            && rule_r3(e).opcode / 16 == e.opcode / 16,
        (branch_end(e) + rule_r2(e).argval - e.argval) % 0x1_0000_0000 == 0,
{
    let end = e.pcx + e.opcode_bytes + e.arg_bytes;
    if -128 <= arg(e, 1) - end <= 127 {
        let d = arg(e, 1) - end;
        let w: u32 = to_u32(e.argval);
        let lo: u32 = w & 0xFF;
        let hi: u32 = (d % 256) as u32;
        assert(lo < 256) by (bit_vector) requires lo == w & 0xFF;
        let v: u32 = lo | (hi << 8);
        assert(v < 0x1_0000 && v / 256 == hi && v % 256 == lo) by (bit_vector) requires lo < 256, hi < 256, v == lo | (hi << 8);
        assert(lo == w % 256) by (bit_vector) requires lo == w & 0xFF;
    }
    if -128 <= arg(e, 2) - end <= 127 {
        let d = arg(e, 2) - end;
        let av: u32 = aval(e);
        let w1: u32 = to_u32(arg(e, 1));
        let a: u32 = av & 0xFF;
        let b: u32 = w1 & 0xFF;
        let c: u32 = (d % 256) as u32;
        assert(b < 256) by (bit_vector) requires b == w1 & 0xFF;
        assert(a == av % 256 && a < 256) by (bit_vector) requires a == av & 0xFF;
        let v: u32 = a | (b << 8) | (c << 16);
        assert(v < 0x100_0000 && v / 0x1_0000 == c && v % 256 == a && v / 256 % 256 == b) by (bit_vector)
            requires a < 256, b < 256, c < 256, v == a | (b << 8) | (c << 16);
    }
    if -16 <= aval(e) - end <= 15 && e.opcode % 16 == 0 {
        let d = aval(e) - end;
        let n: u32 = (d % 16) as u32;
        let o: u32 = e.opcode;
        assert((o | n) % 16 == n && (o | n) / 16 == o / 16) by (bit_vector) requires o % 16 == 0, n < 16;
    }
    let x: int = end + (e.argval - end) - e.argval;
    assert(x == 0);
}

pub open spec fn fits_page0(e: EncV) -> bool {
    e.argval < 0x10000 && aval(e) < 0x100
}

/// 6502 zero page: a defined value below 0x100 shortens the instruction.
pub open spec fn rule_zp(e: EncV) -> EncV {
    if fits_page0(e) {
        EncV {
            opcode: if e.opcode == 0x9C { 0x64 } else if e.opcode == 0x9E { 0x74 } else { e.opcode & 0xF7 },
            arg_bytes: 1,
            ..e
        }
    } else { e }
}

/// Motorola direct page; otherwise the 16-bit value is written high byte first.
pub open spec fn rule_mz(e: EncV) -> EncV {
    if fits_page0(e) {
        EncV {
            opcode: if e.opcode & 0xF0 == 0xC0 { (e.opcode & 0x0F) | 0xB0 }
                else if e.opcode & 0xF0 == 0xD0 { (e.opcode & 0x0F) | 0xE0 }
                else { e.opcode & 0xFFDF },
            arg_bytes: 1,
            ..e
        }
    } else { EncV { argval: swap16(aval(e)), ..e } }
}

/// 6805 bit instructions: bit number into the opcode, then a direct address
/// and, with three operands, a displacement in the high byte.
pub open spec fn rule_mb(e: EncV) -> EncV {
    let e1 = EncV { opcode: e.opcode | ((to_u32(arg(e, 0)) & 0x7) << 1), ..e };
    if e.argv.len() >= 3 {
        let d = arg(e, 2) - e.pcx - 3;
        if !in_byte(d) { EncV { argval: 0, ..err(e1, Msg::RangeBranch) } }
        else { EncV { argval: ((((d % 256) as u32) << 8) | lo8(e, 1)) as i32, ..e1 } }
    } else {
        EncV { argval: lo8(e, 1) as i32, ..e1 }
    }
}

/// Z80 bit instructions: the bit number at bits 11-13.
pub open spec fn rule_zb(e: EncV) -> EncV {
    let e1 = checked(e, 0, 0, 7);
    let bit = to_u32(arg(e, 0)) & 0x7;
    if e.argv.len() == 1 {
        EncV { opcode: e1.opcode | (bit << 11), argval: 0, ..e1 }
    } else {
        let e2 = checked(e1, 1, -128, 127);
        EncV { argval: ((bit << 11) | (to_u32(arg(e, 1)) & 0xFF)) as i32, ..e2 }
    }
}

/// Z80 indexed: a signed displacement, and an optional data byte after it.
pub open spec fn rule_zi(e: EncV) -> EncV {
    let e1 = checked(e, 0, -128, 127);
    if e.argv.len() == 1 {
        EncV { argval: lo8(e, 0) as i32, ..e1 }
    } else {
        let e2 = checked(e1, 1, -128, 255);
        EncV { argval: (lo8(e, 0) | (lo8(e, 1) << 8)) as i32, ..e2 }
    }
}

/// Two operands combined, low byte first; the shape follows the argument byte count.
pub open spec fn rule_co(e: EncV) -> EncV {
    if e.arg_bytes == 2 {
        EncV { argval: ((aval(e) & 0xFF) | (lo8(e, 1) << 8)) as i32, ..e }
    } else {
        EncV { argval: ((lo8(e, 1) << 16) | (to_u32(e.argval) & 0xFFFF)) as i32, ..e }
    }
}

/// Two operands combined with the first swapped; `or` is a validity mask.
pub open spec fn rule_cs(e: EncV) -> EncV {
    let a = aval(e);
    let v: u32 = if e.arg_bytes == 2 { lo8(e, 1) | ((a & 0xFF) << 8) }
        else { (lo8(e, 1) << 16) | ((a & 0x00FF) << 8) | ((a & 0xFF00) >> 8) };
    let e1 = EncV { argval: to_i32(v), ..e };
    if e.or != 0 && v != (v & e.or) { diag(e1, Msg::RangeArgLc, Some(either_text(e))) } else { e1 }
}

/// The first operand's low byte, then a displacement to the second.
pub open spec fn rule_cr(e: EncV) -> EncV {
    let d = delta(e, arg(e, 1) as int);
    if !in_byte(d) { EncV { argval: 0, ..err(e, Msg::RangeBranch) } }
    else { EncV { argval: ((to_u32(e.argval) & 0xFF) | (((d % 256) as u32) << 8)) as i32, ..e } }
}

/// The 16-bit value written high byte first.
pub open spec fn rule_sw(e: EncV) -> EncV {
    EncV { argval: swap16(aval(e)), ..e }
}

/// Three operands, the third a displacement.
pub open spec fn rule_r3rel(e: EncV) -> EncV {
    let d = delta(e, arg(e, 2) as int);
    if !in_byte(d) { EncV { argval: 0, ..err(e, Msg::RangeBranchLc) } }
    else { EncV { argval: ((aval(e) & 0xFF) | (lo8(e, 1) << 8) | (((d % 256) as u32) << 16)) as i32, ..e } }
}

/// Shift an operand, keep the bits of `mask`, report bits lost; a non-zero
/// high nibble of `shift` inverts the field.
pub open spec fn shift_and(e: EncV, i: int, shift: u32, mask: u32) -> (u32, EncV) {
    let shifted = (to_u32(arg(e, i)) & 0xFFFF) << (shift & 0x0F);
    let result = shifted & mask;
    let e1 = if result != shifted { range(e, i) } else { e };
    (if shift & 0xF0 != 0 { (!shifted) & mask } else { result }, e1)
}

pub open spec fn aux_mask(e: EncV) -> u32 {
    if e.aux_registers >= 1 { (e.aux_registers - 1) as u32 } else { 0 }
}

/// The auxiliary-register number, checked against the target's count.
pub open spec fn arp_val(e: EncV, i: int) -> (u32, EncV) {
    let value = to_u32(arg(e, i)) & 0xFFFF;
    let result = value & aux_mask(e);
    (result, if result != value { diag(e, Msg::RangeArp, text_of(e, i)) } else { e })
}

pub open spec fn width_mask(width: u32) -> u32 {
    if width >= 32 { 0xFFFF_FFFF } else { ((1u64 << width) - 1) as u32 }
}

/// Check operand `i` against the `width`-bit slice of `mask` at `startbit`.
pub open spec fn arg_valid(e: EncV, i: int, mask: u32, startbit: u32, width: u32) -> EncV {
    let wm = width_mask(width);
    let valid = if mask != 0 { wm & (mask >> startbit) } else { wm };
    let v = if arg(e, i) < 0 { to_u32(arg(e, i)) & wm } else { to_u32(arg(e, i)) };
    if v != (v & valid) { diag(e, Msg::RangeArgLc, text_of(e, i)) } else { e }
}

pub open spec fn rule_t1(e: EncV) -> EncV {
    let (a0, e1) = shift_and(e, 0, e.shift, e.or);
    let (arp, e2) = if e.argv.len() > 1 { arp_val(e1, 1) } else { (0u32, e1) };
    EncV { opcode: e2.opcode | arp | a0, argval: 0, ..e2 }
}

pub open spec fn rule_td(e: EncV) -> EncV {
    let (dma, e1) = shift_and(e, 0, 0, 0x7F);
    let (a1, e2) = if e.argv.len() > 1 { shift_and(e1, 1, e.shift, e.or) } else { (0u32, e1) };
    EncV { opcode: e2.opcode | dma | a1, argval: 0, ..e2 }
}

pub open spec fn rule_tl(e: EncV) -> EncV {
    let e1 = EncV { argval: swap16(to_u32(arg(e, 0)) & 0xFFFF), ..e };
    if e.argv.len() > 1 {
        let (a1, e2) = shift_and(e1, 1, e.shift, e.or);
        EncV { opcode: e2.opcode | a1, ..e2 }
    } else { e1 }
}

pub open spec fn rule_t5(e: EncV) -> EncV {
    let e1 = EncV { argval: swap16(to_u32(arg(e, 1)) & 0xFFFF), ..e };
    let (a0, e2) = shift_and(e1, 0, e.shift, e.or);
    EncV { opcode: e2.opcode | a0, ..e2 }
}

pub open spec fn rule_ta(e: EncV) -> EncV {
    let (arp, e1) = arp_val(e, 0);
    let (a1, e2) = if e.argv.len() > 1 { shift_and(e1, 1, e.shift, e.or) } else { (0u32, e1) };
    EncV { opcode: e2.opcode | (arp << 8) | a1, argval: 0, ..e2 }
}

/// TMS7000 TRAP: the operand is subtracted from the opcode, then checked.
pub open spec fn rule_su(e: EncV) -> EncV {
    let e1 = EncV { opcode: ((e.opcode - to_u32(arg(e, 0)) + 0x1_0000_0000) % 0x1_0000_0000) as u32, ..e };
    EncV { argval: 0, ..(if arg(e, 0) > 23 { range(e1, 0) } else { e1 }) }
}

/// A 16-bit displacement, unchecked.
pub open spec fn rule_r2(e: EncV) -> EncV {
    EncV { argval: wrap(delta(e, e.argval as int)), ..e }
}

pub open spec fn rule_i1(e: EncV) -> EncV {
    let n = e.argv.len();
    let or = e.or;
    let (v, e1): (u32, EncV) = if n == 1 {
        (to_u32(e.argval), arg_valid(e, 0, or, 0, 8))
    } else if n == 2 && e.arg_bytes == 2 {
        (lo8(e, 1) | (lo8(e, 0) << 8), arg_valid(arg_valid(e, 1, or, 0, 8), 0, or, 8, 8))
    } else if n == 2 {
        ((to_u32(arg(e, 1)) & 0xFFFF) | (lo8(e, 0) << 16), arg_valid(arg_valid(e, 1, or, 0, 16), 0, or, 16, 8))
    } else if n == 3 && e.arg_bytes == 3 {
        (lo8(e, 2) | (lo8(e, 1) << 8) | (lo8(e, 0) << 16),
            arg_valid(arg_valid(arg_valid(e, 2, or, 0, 8), 1, or, 8, 8), 0, or, 16, 8))
    } else if n == 3 {
        ((to_u32(arg(e, 2)) & 0xFFFF) | (lo8(e, 1) << 16) | (lo8(e, 0) << 24),
            arg_valid(arg_valid(arg_valid(e, 2, or, 0, 16), 1, or, 16, 8), 0, or, 24, 8))
    } else {
        (lo8(e, 3) | (lo8(e, 2) << 8) | (lo8(e, 1) << 16) | (lo8(e, 0) << 24),
            arg_valid(arg_valid(arg_valid(arg_valid(e, 3, or, 0, 8), 2, or, 8, 8), 1, or, 16, 8), 0, or, 24, 8))
    };
    EncV { argval: to_i32(v | e.shift), ..e1 }
}

pub open spec fn rule_i8(e: EncV) -> EncV {
    if e.argv.len() == 3 && e.arg_bytes == 3 {
        EncV { argval: (lo8(e, 1) | (lo8(e, 2) << 8) | (lo8(e, 0) << 16)) as i32, ..e }
    } else { e }
}

/// The operands packed destination last; the tested one takes two bytes
/// unless it is below 256, when the instruction shortens.
pub open spec fn pack(e: EncV, tested: int, short: bool, n: int) -> u32
    decreases n,
{
    if n <= 0 { 0 }
    else if !short && n - 1 == tested { (pack(e, tested, short, n - 1) << 16) | (to_u32(arg(e, n - 1)) & 0xFFFF) }
    else { (pack(e, tested, short, n - 1) << 8) | lo8(e, n - 1) }
}

pub open spec fn rule_short_long(e: EncV, tested: int, xor: u32) -> EncV {
    let short = (to_u32(arg(e, tested)) & 0xFFFF) < 256;
    let e1 = EncV { argval: to_i32(pack(e, tested, short, e.argv.len() as int)), ..e };
    if short {
        EncV {
            opcode: ((e.opcode >> 8) & 0xFFFC) ^ xor,
            opcode_bytes: if e.opcode_bytes >= 1 { (e.opcode_bytes - 1) as u8 } else { 0 },
            arg_bytes: (e.argv.len() % 256) as u8,
            ..e1
        }
    } else { e1 }
}

/// Jump on bit: address, bit number into the opcode, displacement.
pub open spec fn rule_i4(e: EncV) -> EncV {
    let d = delta(e, arg(e, 2) as int);
    if !in_byte(d) { EncV { argval: 0, ..err(e, Msg::RangeBranchLc) } }
    else if arg(e, 1) > 7 { EncV { argval: 0, ..err(e, Msg::RangeArgLc) } }
    else { EncV { argval: (lo8(e, 0) | (((d % 256) as u32) << 8)) as i32, opcode: e.opcode | to_u32(arg(e, 1)), ..e } }
}

/// An 11-bit displacement inside the opcode; the report names the offset.
pub open spec fn rule_i5(e: EncV) -> EncV {
    let d = delta(e, arg(e, 0) as int);
    let e1 = if !(-1024 <= d <= 1023) {
        diag(e, Msg::RangeBranchLc, Some(seq![0x6Fu8, 0x66u8, 0x66u8, 0x73u8, 0x65u8, 0x74u8, 0x3Du8] + dec_signed(d)))
    } else {
        EncV { opcode: e.opcode | ((d % 2048) as u32), ..e }
    };
    EncV { argval: 0, ..e1 }
}

pub open spec fn i6_index(e: EncV) -> u32 {
    let raw = arg(e, e.argv.len() - 2);
    if -128 <= raw < 0 { (raw + 256) as u32 } else { to_u32(raw) }
}

/// 8096 indexed: short when the (biased) index fits a byte; the four-operand
/// form gives its argument bytes outright.
pub open spec fn rule_i6(e: EncV) -> EncV {
    let n = e.argv.len();
    if n < 2 {
        e
    } else {
        let idx = i6_index(e);
        let short = idx < 256;
        let b = lo8(e, n - 1);
        let ab = if e.arg_bytes >= 1 { (e.arg_bytes - 1) as u8 } else { 0u8 };
        if n == 4 {
            if short {
                EncV { vector: Some(seq![b as u8, idx as u8, lo8(e, 1) as u8, lo8(e, 0) as u8]), arg_bytes: ab, ..e }
            } else {
                EncV { vector: Some(seq![(b | 1) as u8, (idx & 0xFF) as u8, ((idx >> 8) & 0xFF) as u8,
                    lo8(e, 1) as u8, lo8(e, 0) as u8]), ..e }
            }
        } else if short {
            let v = b | (idx << 8);
            EncV { argval: to_i32(if n == 3 { v | (lo8(e, 0) << 16) } else { v }), arg_bytes: ab, ..e }
        } else {
            let v = (b | 1) | (idx << 8);
            EncV { argval: to_i32(if n == 3 { v | (lo8(e, 0) << 24) } else { v }), ..e }
        }
    }
}

pub open spec fn rule_t2(e: EncV) -> EncV {
    if e.argv.len() >= 2 {
        EncV { argval: swap16(to_u32(arg(e, 0)) & 0xFFFF), opcode: e.opcode | (to_u32(arg(e, 1)) & 0x0F), ..e }
    } else {
        EncV { opcode: e.opcode | (to_u32(arg(e, 0)) & 0x0F), argval: 0, ..e }
    }
}

pub open spec fn rule_t3(e: EncV) -> EncV {
    EncV { argval: swap16(to_u32(arg(e, 1)) & 0xFFFF), opcode: e.opcode | (to_u32(arg(e, 0)) & 0x0F), ..e }
}

pub open spec fn rule_t4(e: EncV) -> EncV {
    EncV { opcode: e.opcode | (to_u32(arg(e, 0)) & 0x0F) | ((to_u32(arg(e, 1)) & 0x0F) << 6), argval: 0, ..e }
}

pub open spec fn rule_t6(e: EncV) -> EncV {
    let (dma, e1) = shift_and(e, 0, 0, 0x0F);
    let (a1, e2) = if e.argv.len() > 1 { shift_and(e1, 1, e.shift, e.or) } else { (0u32, e1) };
    EncV { opcode: e2.opcode | dma | a1, argval: 0, ..e2 }
}

pub open spec fn rule_a3(e: EncV) -> EncV {
    EncV { argval: (lo8(e, 0) | (lo8(e, 1) << 8) | (lo8(e, 2) << 16)) as i32, ..e }
}

/// Two nibbles in one byte; `swapped` exchanges the operands.
pub open spec fn rule_cn(e: EncV, swapped: bool) -> EncV {
    let (lo, hi) = if swapped { (1int, 0int) } else { (0int, 1int) };
    let v = (to_u32(arg(e, lo)) & 0x0F) | ((to_u32(arg(e, hi)) & 0x0F) << 4);
    let e1 = EncV { argval: v as i32, ..e };
    if e.or != 0 && v != (v & e.or) { diag(e1, Msg::RangeArgLc, Some(either_text(e))) } else { e1 }
}

pub open spec fn rule_sz(e: EncV) -> EncV {
    if fits_page0(e) {
        EncV {
            opcode: if e.opcode & 0xF0 == 0xC0 { (e.opcode & 0x0F) | 0xB0 }
                else if e.opcode & 0xF0 == 0xD0 { (e.opcode & 0x0F) | 0xE0 }
                else { e.opcode },
            arg_bytes: 1,
            ..e
        }
    } else { EncV { argval: swap16(aval(e)), ..e } }
}

pub open spec fn rule_sb(e: EncV) -> EncV {
    let e1 = EncV { opcode: e.opcode | ((to_u32(arg(e, 1)) & 0x7) << 1), ..e };
    if e.argv.len() >= 3 {
        let d = arg(e, 2) - e.pcx - 3;
        if !in_byte(d) { EncV { argval: 0, ..err(e1, Msg::RangeBranch) } }
        else { EncV { argval: ((((d % 256) as u32) << 8) | lo8(e, 0)) as i32, ..e1 } }
    } else {
        EncV { argval: lo8(e, 0) as i32, ..e1 }
    }
}

/// A 4-bit displacement into the opcode.
pub open spec fn rule_r3(e: EncV) -> EncV {
    let d = delta(e, aval(e) as int);
    if !(-16 <= d <= 15) { EncV { argval: 0, ..err(e, Msg::RangeBranch) } }
    else { EncV { opcode: e.opcode | ((d % 16) as u32), argval: 0, ..e } }
}

pub open spec fn is_working(v: u32) -> bool {
    0xE0 <= v <= 0xEF
}

/// Z8: two working registers share one byte and the opcode drops by two;
/// otherwise the pair is written second operand first.
pub open spec fn rule_zw(e: EncV) -> EncV {
    let a = lo8(e, 0);
    let b = lo8(e, 1);
    if is_working(a) && is_working(b) {
        EncV {
            vector: Some(seq![(((a & 0x0F) << 4) | (b & 0x0F)) as u8]),
            opcode: ((e.opcode - 2 + 0x1_0000_0000) % 0x1_0000_0000) as u32,
            arg_bytes: 1,
            ..e
        }
    } else {
        EncV { argval: ((a << 8) | b) as i32, ..e }
    }
}

pub open spec fn rule_zd(e: EncV) -> EncV {
    let e1 = EncV { opcode: e.opcode | ((to_u32(arg(e, 0)) & 0x0F) << 4), ..e };
    let d = delta(e, arg(e, 1) as int);
    if !in_byte(d) { EncV { argval: 0, ..err(e1, Msg::RangeBranch) } }
    else { EncV { argval: (d % 256) as i32, ..e1 } }
}

pub open spec fn rule_zl(e: EncV) -> EncV {
    let r = arg(e, 1);
    let e1 = if !(0 <= r < 16) { range(e, 1) } else { e };
    EncV { opcode: e1.opcode | ((to_u32(r) & 0x0F) << 4), argval: aval(e) as i32, ..e1 }
}

/// What a rule does, before the post-rule transform.
pub open spec fn rule_effect(rule: Rule, e: EncV) -> EncV {
    match rule {
        Rule::NO => e,
        Rule::JM => rule_jm(e),
        Rule::JT => rule_jt(e),
        Rule::R1 => rule_r1(e),
        Rule::ZP => rule_zp(e),
        Rule::MZ => rule_mz(e),
        Rule::MB => rule_mb(e),
        Rule::ZB => rule_zb(e),
        Rule::ZI => rule_zi(e),
        Rule::CO => rule_co(e),
        Rule::CR => rule_cr(e),
        Rule::CS => rule_cs(e),
        Rule::SW => rule_sw(e),
        Rule::R3REL => rule_r3rel(e),
        Rule::T1 => rule_t1(e),
        Rule::TD => rule_td(e),
        Rule::TL => rule_tl(e),
        Rule::T5 => rule_t5(e),
        Rule::TA => rule_ta(e),
        Rule::SU => rule_su(e),
        Rule::R2 => rule_r2(e),
        Rule::I1 => rule_i1(e),
        Rule::I2 => rule_short_long(e, 1, e.shift),
        Rule::I3 => rule_short_long(e, 2, 0),
        Rule::I4 => rule_i4(e),
        Rule::I5 => rule_i5(e),
        Rule::I6 => rule_i6(e),
        Rule::I7 => rule_short_long(e, 0, 0),
        Rule::I8 => rule_i8(e),
        Rule::T2 => rule_t2(e),
        Rule::T3 => rule_t3(e),
        Rule::T4 => rule_t4(e),
        Rule::T6 => rule_t6(e),
        Rule::A3 => rule_a3(e),
        Rule::CN => rule_cn(e, false),
        Rule::C5 => rule_cn(e, true),
        Rule::SZ => rule_sz(e),
        Rule::SB => rule_sb(e),
        Rule::R3 => rule_r3(e),
        Rule::ZW => rule_zw(e),
        Rule::ZD => rule_zd(e),
        Rule::ZL => rule_zl(e),
        Rule::Other(_) => err(e, Msg::InvalidModop),
    }
}


// --- the rules, computed ---------------------------------------------------------------

pub fn swap16_of(v: u32) -> (r: i32)
    returns swap16(v),
{
    (((v >> 8) & 0x00FF) | ((v << 8) & 0xFF00)) as i32
}

/// `d % m` for a displacement already known to be in range.
fn low_bits(d: i64, m: i64) -> (r: u32)
    requires 0 < m <= 4096, -m <= d < m,
    ensures r as int == d as int % m as int,
{
    if d < 0 {
        assert((d + m) as int % m as int == d as int % m as int) by (nonlinear_arith)
            requires 0 < m, -m <= d < 0;
        assert(0 <= (d + m) as int % m as int) by (nonlinear_arith) requires 0 < m;
        assert((d + m) as int % m as int == (d + m) as int) by (nonlinear_arith) requires 0 < m, 0 <= d + m < m;
        (d + m) as u32
    } else {
        assert(d as int % m as int == d as int) by (nonlinear_arith) requires 0 < m, 0 <= d < m;
        d as u32
    }
}

impl Enc {
    fn aval(&self) -> (r: u32)
        returns aval(self@),
    {
        u32_of(self.argval) & 0xFFFF
    }

    fn arg(&self, i: usize) -> (r: i32)
        returns arg(self@, i as int),
    {
        if i < self.argv.len() { self.argv[i] } else { 0 }
    }

    fn lo8(&self, i: usize) -> (r: u32)
        returns lo8(self@, i as int),
    {
        u32_of(self.arg(i)) & 0xFF
    }

    fn text_of(&self, i: usize) -> (r: Option<Vec<u8>>)
        ensures match r { Some(v) => text_of(self@, i as int) == Some(v@), None => text_of(self@, i as int) is None },
    {
        if i < self.argt.len() {
            Some(slice_vec(&self.argt[i], 0, self.argt[i].len()))
        } else {
            None
        }
    }

    fn text_or_empty(&self, i: usize) -> (r: Vec<u8>)
        ensures r@ == text_or_empty(self@, i as int),
    {
        if i < self.argt.len() {
            let t = slice_vec(&self.argt[i], 0, self.argt[i].len());
            assert(self.argt@[i as int]@.subrange(0, self.argt@[i as int]@.len() as int) =~= self.argt@[i as int]@);
            t
        } else {
            Vec::new()
        }
    }

    fn diag(&mut self, m: Msg, d: Option<Vec<u8>>)
        ensures final(self)@ == diag(old(self)@, m, match d { Some(v) => Some(v@), None => None }),
    {
        let ghost before = self.diags@;
        self.diags.push(Diag { msg: m, detail: d });
        assert(diags_view(self.diags@) =~= diags_view(before).push((m, match d { Some(v) => Some(v@), None => None })));
    }

    fn err(&mut self, m: Msg)
        ensures final(self)@ == err(old(self)@, m),
    {
        self.diag(m, None);
    }

    fn range(&mut self, i: usize)
        ensures final(self)@ == range(old(self)@, i as int),
    {
        let t = self.text_of(i);
        self.diag(Msg::RangeArg, t);
    }

    fn checked(&mut self, i: usize, lo: i32, hi: i32)
        ensures final(self)@ == checked(old(self)@, i as int, lo as int, hi as int),
    {
        let v = self.arg(i);
        if v < lo || v > hi {
            self.range(i);
        }
    }

    fn delta(&self, target: i64) -> (r: i64)
        requires -0x1_0000_0000 < target < 0x1_0000_0000,
        ensures r as int == delta(self@, target as int),
    {
        target - self.pcx as i64 - (self.opcode_bytes as i64 + self.arg_bytes as i64)
    }

    fn either_text(&self) -> (r: Vec<u8>)
        ensures r@ == either_text(self@),
    {
        let mut out = self.text_or_empty(0);
        out.push(0x20);
        out.push(0x6F);
        out.push(0x72);
        out.push(0x20);
        let t = self.text_or_empty(1);
        let ghost a = out@;
        push_all(&mut out, &t);
        assert(out@ =~= either_text(self@));
        out
    }

    fn jm(&mut self)
        ensures final(self)@ == rule_jm(old(self)@),
    {
        let a = self.aval();
        let pc2 = ((u32_of(self.pcx) as u64 + 2) % 0x1_0000_0000u64) as u32;
        if (pc2 & self.or) != (a & self.or) {
            self.err(Msg::Off2kPage);
        }
        self.opcode = self.opcode | ((a & 0x700) >> 3);
        self.argval = (a & 0xFF) as i32;
    }

    fn jt(&mut self)
        ensures final(self)@ == rule_jt(old(self)@),
    {
        let a = self.aval();
        let pc1 = ((u32_of(self.pcx) as u64 + 1) % 0x1_0000_0000u64) as u32;
        if (a & 0xFF00) != (pc1 & 0xFF00) {
            self.err(Msg::OffPage);
        }
        self.argval = (a & 0xFF) as i32;
    }

    fn r1(&mut self)
        ensures final(self)@ == rule_r1(old(self)@),
    {
        let d = self.delta(self.aval() as i64);
        if d < -128 || d > 127 {
            self.err(Msg::RangeBranch);
            self.argval = 0;
        } else {
            self.argval = low_bits(d, 256) as i32;
        }
    }

    fn fits_page0(&self) -> (r: bool)
        returns fits_page0(self@),
    {
        self.argval < 0x10000 && self.aval() < 0x100
    }

    fn zp(&mut self)
        ensures final(self)@ == rule_zp(old(self)@),
    {
        if self.fits_page0() {
            self.opcode = if self.opcode == 0x9C { 0x64 } else if self.opcode == 0x9E { 0x74 } else { self.opcode & 0xF7 };
            self.arg_bytes = 1;
        }
    }

    fn mz(&mut self)
        ensures final(self)@ == rule_mz(old(self)@),
    {
        if self.fits_page0() {
            self.opcode = if self.opcode & 0xF0 == 0xC0 { (self.opcode & 0x0F) | 0xB0 }
                else if self.opcode & 0xF0 == 0xD0 { (self.opcode & 0x0F) | 0xE0 }
                else { self.opcode & 0xFFDF };
            self.arg_bytes = 1;
        } else {
            self.argval = swap16_of(self.aval());
        }
    }

    fn mb(&mut self)
        ensures final(self)@ == rule_mb(old(self)@),
    {
        self.opcode = self.opcode | ((u32_of(self.arg(0)) & 0x7) << 1);
        if self.argv.len() >= 3 {
            let d: i64 = self.arg(2) as i64 - self.pcx as i64 - 3;
            if d < -128 || d > 127 {
                self.err(Msg::RangeBranch);
                self.argval = 0;
            } else {
                self.argval = ((low_bits(d, 256) << 8) | self.lo8(1)) as i32;
            }
        } else {
            self.argval = self.lo8(1) as i32;
        }
    }

    fn zb(&mut self)
        ensures final(self)@ == rule_zb(old(self)@),
    {
        let bit = u32_of(self.arg(0)) & 0x7;
        self.checked(0, 0, 7);
        if self.argv.len() == 1 {
            self.opcode = self.opcode | (bit << 11);
            self.argval = 0;
        } else {
            let disp = self.arg(1);
            self.checked(1, -128, 127);
            self.argval = ((bit << 11) | (u32_of(disp) & 0xFF)) as i32;
        }
    }

    fn zi(&mut self)
        ensures final(self)@ == rule_zi(old(self)@),
    {
        let d0 = self.lo8(0);
        self.checked(0, -128, 127);
        if self.argv.len() == 1 {
            self.argval = d0 as i32;
        } else {
            let d1 = self.lo8(1);
            self.checked(1, -128, 255);
            self.argval = (d0 | (d1 << 8)) as i32;
        }
    }

    fn co(&mut self)
        ensures final(self)@ == rule_co(old(self)@),
    {
        if self.arg_bytes == 2 {
            self.argval = ((self.aval() & 0xFF) | (self.lo8(1) << 8)) as i32;
        } else {
            self.argval = ((self.lo8(1) << 16) | (u32_of(self.argval) & 0xFFFF)) as i32;
        }
    }

    fn cs(&mut self)
        ensures final(self)@ == rule_cs(old(self)@),
    {
        let a = self.aval();
        let v: u32 = if self.arg_bytes == 2 { self.lo8(1) | ((a & 0xFF) << 8) }
            else { (self.lo8(1) << 16) | ((a & 0x00FF) << 8) | ((a & 0xFF00) >> 8) };
        let detail = self.either_text();
        self.argval = i32_of(v);
        if self.or != 0 && v != (v & self.or) {
            self.diag(Msg::RangeArgLc, Some(detail));
        }
    }

    fn cr(&mut self)
        ensures final(self)@ == rule_cr(old(self)@),
    {
        let d = self.delta(self.arg(1) as i64);
        if d < -128 || d > 127 {
            self.err(Msg::RangeBranch);
            self.argval = 0;
        } else {
            self.argval = ((u32_of(self.argval) & 0xFF) | (low_bits(d, 256) << 8)) as i32;
        }
    }

    fn sw(&mut self)
        ensures final(self)@ == rule_sw(old(self)@),
    {
        self.argval = swap16_of(self.aval());
    }

    fn r3rel(&mut self)
        ensures final(self)@ == rule_r3rel(old(self)@),
    {
        let d = self.delta(self.arg(2) as i64);
        if d < -128 || d > 127 {
            self.err(Msg::RangeBranchLc);
            self.argval = 0;
        } else {
            self.argval = ((self.aval() & 0xFF) | (self.lo8(1) << 8) | (low_bits(d, 256) << 16)) as i32;
        }
    }

    fn shift_and(&mut self, i: usize, shift: u32, mask: u32) -> (r: u32)
        ensures (r, final(self)@) == shift_and(old(self)@, i as int, shift, mask),
    {
        assert(shift & 0x0F <= 15) by (bit_vector);
        let shifted = (u32_of(self.arg(i)) & 0xFFFF) << (shift & 0x0F);
        let result = shifted & mask;
        if result != shifted {
            self.range(i);
        }
        if shift & 0xF0 != 0 { (!shifted) & mask } else { result }
    }

    fn arp_val(&mut self, i: usize) -> (r: u32)
        ensures (r, final(self)@) == arp_val(old(self)@, i as int),
    {
        let value = u32_of(self.arg(i)) & 0xFFFF;
        let m: u32 = if self.aux_registers >= 1 { self.aux_registers - 1 } else { 0 };
        let result = value & m;
        if result != value {
            let t = self.text_of(i);
            self.diag(Msg::RangeArp, t);
        }
        result
    }

    fn arg_valid(&mut self, i: usize, mask: u32, startbit: u32, width: u32)
        requires startbit < 32, width < 32,
        ensures final(self)@ == arg_valid(old(self)@, i as int, mask, startbit, width),
    {
        assert(width < 32 ==> 1u64 << width >= 1) by (bit_vector);
        let wm: u32 = if width >= 32 { 0xFFFF_FFFF } else { ((1u64 << width) - 1) as u32 };
        let valid = if mask != 0 { wm & (mask >> startbit) } else { wm };
        let a = self.arg(i);
        let v = if a < 0 { u32_of(a) & wm } else { u32_of(a) };
        if v != (v & valid) {
            let t = self.text_of(i);
            self.diag(Msg::RangeArgLc, t);
        }
    }

    fn t1(&mut self)
        ensures final(self)@ == rule_t1(old(self)@),
    {
        let a0 = self.shift_and(0, self.shift, self.or);
        let arp = if self.argv.len() > 1 { self.arp_val(1) } else { 0 };
        self.opcode = self.opcode | arp | a0;
        self.argval = 0;
    }

    fn td(&mut self)
        ensures final(self)@ == rule_td(old(self)@),
    {
        let dma = self.shift_and(0, 0, 0x7F);
        let a1 = if self.argv.len() > 1 { self.shift_and(1, self.shift, self.or) } else { 0 };
        self.opcode = self.opcode | dma | a1;
        self.argval = 0;
    }

    fn tl(&mut self)
        ensures final(self)@ == rule_tl(old(self)@),
    {
        self.argval = swap16_of(u32_of(self.arg(0)) & 0xFFFF);
        if self.argv.len() > 1 {
            let a1 = self.shift_and(1, self.shift, self.or);
            self.opcode = self.opcode | a1;
        }
    }

    fn t5(&mut self)
        ensures final(self)@ == rule_t5(old(self)@),
    {
        self.argval = swap16_of(u32_of(self.arg(1)) & 0xFFFF);
        let a0 = self.shift_and(0, self.shift, self.or);
        self.opcode = self.opcode | a0;
    }

    fn ta(&mut self)
        ensures final(self)@ == rule_ta(old(self)@),
    {
        let arp = self.arp_val(0);
        let a1 = if self.argv.len() > 1 { self.shift_and(1, self.shift, self.or) } else { 0 };
        self.opcode = self.opcode | (arp << 8) | a1;
        self.argval = 0;
    }

    fn su(&mut self)
        ensures final(self)@ == rule_su(old(self)@),
    {
        let a = self.arg(0);
        self.opcode = ((self.opcode as u64 + 0x1_0000_0000u64 - u32_of(a) as u64) % 0x1_0000_0000u64) as u32;
        if a > 23 {
            self.range(0);
        }
        self.argval = 0;
    }

    fn r2(&mut self)
        ensures final(self)@ == rule_r2(old(self)@),
    {
        let d = self.delta(self.argval as i64);
        self.argval = wrap_i64(d);
    }

    fn i1(&mut self)
        ensures final(self)@ == rule_i1(old(self)@),
    {
        let n = self.argv.len();
        let or = self.or;
        let v: u32 = if n == 1 {
            self.arg_valid(0, or, 0, 8);
            u32_of(self.argval)
        } else if n == 2 && self.arg_bytes == 2 {
            let v = self.lo8(1) | (self.lo8(0) << 8);
            self.arg_valid(1, or, 0, 8);
            self.arg_valid(0, or, 8, 8);
            v
        } else if n == 2 {
            let v = (u32_of(self.arg(1)) & 0xFFFF) | (self.lo8(0) << 16);
            self.arg_valid(1, or, 0, 16);
            self.arg_valid(0, or, 16, 8);
            v
        } else if n == 3 && self.arg_bytes == 3 {
            let v = self.lo8(2) | (self.lo8(1) << 8) | (self.lo8(0) << 16);
            self.arg_valid(2, or, 0, 8);
            self.arg_valid(1, or, 8, 8);
            self.arg_valid(0, or, 16, 8);
            v
        } else if n == 3 {
            let v = (u32_of(self.arg(2)) & 0xFFFF) | (self.lo8(1) << 16) | (self.lo8(0) << 24);
            self.arg_valid(2, or, 0, 16);
            self.arg_valid(1, or, 16, 8);
            self.arg_valid(0, or, 24, 8);
            v
        } else {
            let v = self.lo8(3) | (self.lo8(2) << 8) | (self.lo8(1) << 16) | (self.lo8(0) << 24);
            self.arg_valid(3, or, 0, 8);
            self.arg_valid(2, or, 8, 8);
            self.arg_valid(1, or, 16, 8);
            self.arg_valid(0, or, 24, 8);
            v
        };
        self.argval = i32_of(v | self.shift);
    }

    fn i8(&mut self)
        ensures final(self)@ == rule_i8(old(self)@),
    {
        if self.argv.len() == 3 && self.arg_bytes == 3 {
            self.argval = (self.lo8(1) | (self.lo8(2) << 8) | (self.lo8(0) << 16)) as i32;
        }
    }

    fn short_long(&mut self, tested: usize, xor: u32)
        ensures final(self)@ == rule_short_long(old(self)@, tested as int, xor),
    {
        let n = self.argv.len();
        let short = (u32_of(self.arg(tested)) & 0xFFFF) < 256;
        let mut v: u32 = 0;
        let mut i: usize = 0;
        while i < n
            invariant i <= n, n == self.argv@.len(), self@ == old(self)@,
                v == pack(self@, tested as int, short, i as int),
            decreases n - i,
        {
            if !short && i == tested {
                v = (v << 16) | (u32_of(self.arg(i)) & 0xFFFF);
            } else {
                v = (v << 8) | self.lo8(i);
            }
            i += 1;
        }
        self.argval = i32_of(v);
        if short {
            self.opcode = ((self.opcode >> 8) & 0xFFFC) ^ xor;
            self.opcode_bytes = if self.opcode_bytes >= 1 { self.opcode_bytes - 1 } else { 0 };
            self.arg_bytes = (n % 256) as u8;
        }
    }

    fn i4(&mut self)
        ensures final(self)@ == rule_i4(old(self)@),
    {
        let d = self.delta(self.arg(2) as i64);
        let bit = self.arg(1);
        if d < -128 || d > 127 {
            self.err(Msg::RangeBranchLc);
            self.argval = 0;
        } else if bit > 7 {
            self.err(Msg::RangeArgLc);
            self.argval = 0;
        } else {
            self.argval = (self.lo8(0) | (low_bits(d, 256) << 8)) as i32;
            self.opcode = self.opcode | u32_of(bit);
        }
    }

    fn i5(&mut self)
        ensures final(self)@ == rule_i5(old(self)@),
    {
        let d = self.delta(self.arg(0) as i64);
        if d < -1024 || d > 1023 {
            let mut t: Vec<u8> = Vec::new();
            t.push(0x6F); t.push(0x66); t.push(0x66); t.push(0x73); t.push(0x65); t.push(0x74); t.push(0x3D);
            let ghost pre = t@;
            push_dec_signed(&mut t, d);
            assert(t@ =~= seq![0x6Fu8, 0x66u8, 0x66u8, 0x73u8, 0x65u8, 0x74u8, 0x3Du8] + dec_signed(d as int));
            self.diag(Msg::RangeBranchLc, Some(t));
        } else {
            self.opcode = self.opcode | low_bits(d, 2048);
        }
        self.argval = 0;
    }

    fn i6(&mut self)
        ensures final(self)@ == rule_i6(old(self)@),
    {
        let n = self.argv.len();
        if n < 2 {
            return;
        }
        let raw = self.arg(n - 2);
        let idx: u32 = if -128 <= raw && raw < 0 { (raw + 256) as u32 } else { u32_of(raw) };
        let short = idx < 256;
        let b = self.lo8(n - 1);
        let ab: u8 = if self.arg_bytes >= 1 { self.arg_bytes - 1 } else { 0 };
        if n == 4 {
            let mut v: Vec<u8> = Vec::new();
            if short {
                v.push(b as u8);
                v.push(idx as u8);
                v.push(self.lo8(1) as u8);
                v.push(self.lo8(0) as u8);
                self.arg_bytes = ab;
                assert(v@ =~= seq![b as u8, idx as u8, lo8(old(self)@, 1) as u8, lo8(old(self)@, 0) as u8]);
            } else {
                v.push((b | 1) as u8);
                v.push((idx & 0xFF) as u8);
                v.push(((idx >> 8) & 0xFF) as u8);
                v.push(self.lo8(1) as u8);
                v.push(self.lo8(0) as u8);
                assert(v@ =~= seq![(b | 1) as u8, (idx & 0xFF) as u8, ((idx >> 8) & 0xFF) as u8,
                    lo8(old(self)@, 1) as u8, lo8(old(self)@, 0) as u8]);
            }
            self.vector = Some(v);
            return;
        }
        if short {
            let v = b | (idx << 8);
            self.argval = i32_of(if n == 3 { v | (self.lo8(0) << 16) } else { v });
            self.arg_bytes = ab;
        } else {
            let v = (b | 1) | (idx << 8);
            self.argval = i32_of(if n == 3 { v | (self.lo8(0) << 24) } else { v });
        }
    }

    fn t2(&mut self)
        ensures final(self)@ == rule_t2(old(self)@),
    {
        if self.argv.len() >= 2 {
            self.argval = swap16_of(u32_of(self.arg(0)) & 0xFFFF);
            self.opcode = self.opcode | (u32_of(self.arg(1)) & 0x0F);
        } else {
            self.opcode = self.opcode | (u32_of(self.arg(0)) & 0x0F);
            self.argval = 0;
        }
    }

    fn t3(&mut self)
        ensures final(self)@ == rule_t3(old(self)@),
    {
        self.argval = swap16_of(u32_of(self.arg(1)) & 0xFFFF);
        self.opcode = self.opcode | (u32_of(self.arg(0)) & 0x0F);
    }

    fn t4(&mut self)
        ensures final(self)@ == rule_t4(old(self)@),
    {
        self.opcode = self.opcode | (u32_of(self.arg(0)) & 0x0F) | ((u32_of(self.arg(1)) & 0x0F) << 6);
        self.argval = 0;
    }

    fn t6(&mut self)
        ensures final(self)@ == rule_t6(old(self)@),
    {
        let dma = self.shift_and(0, 0, 0x0F);
        let a1 = if self.argv.len() > 1 { self.shift_and(1, self.shift, self.or) } else { 0 };
        self.opcode = self.opcode | dma | a1;
        self.argval = 0;
    }

    fn a3(&mut self)
        ensures final(self)@ == rule_a3(old(self)@),
    {
        self.argval = (self.lo8(0) | (self.lo8(1) << 8) | (self.lo8(2) << 16)) as i32;
    }

    fn cn(&mut self, swapped: bool)
        ensures final(self)@ == rule_cn(old(self)@, swapped),
    {
        let (lo, hi): (usize, usize) = if swapped { (1, 0) } else { (0, 1) };
        let v = (u32_of(self.arg(lo)) & 0x0F) | ((u32_of(self.arg(hi)) & 0x0F) << 4);
        let detail = self.either_text();
        self.argval = v as i32;
        if self.or != 0 && v != (v & self.or) {
            self.diag(Msg::RangeArgLc, Some(detail));
        }
    }

    fn sz(&mut self)
        ensures final(self)@ == rule_sz(old(self)@),
    {
        if self.fits_page0() {
            self.opcode = if self.opcode & 0xF0 == 0xC0 { (self.opcode & 0x0F) | 0xB0 }
                else if self.opcode & 0xF0 == 0xD0 { (self.opcode & 0x0F) | 0xE0 }
                else { self.opcode };
            self.arg_bytes = 1;
        } else {
            self.argval = swap16_of(self.aval());
        }
    }

    fn sb(&mut self)
        ensures final(self)@ == rule_sb(old(self)@),
    {
        self.opcode = self.opcode | ((u32_of(self.arg(1)) & 0x7) << 1);
        if self.argv.len() >= 3 {
            let d: i64 = self.arg(2) as i64 - self.pcx as i64 - 3;
            if d < -128 || d > 127 {
                self.err(Msg::RangeBranch);
                self.argval = 0;
            } else {
                self.argval = ((low_bits(d, 256) << 8) | self.lo8(0)) as i32;
            }
        } else {
            self.argval = self.lo8(0) as i32;
        }
    }

    fn r3(&mut self)
        ensures final(self)@ == rule_r3(old(self)@),
    {
        let d = self.delta(self.aval() as i64);
        if d < -16 || d > 15 {
            self.err(Msg::RangeBranch);
            self.argval = 0;
        } else {
            self.opcode = self.opcode | low_bits(d, 16);
            self.argval = 0;
        }
    }

    fn zw(&mut self)
        ensures final(self)@ == rule_zw(old(self)@),
    {
        let a = self.lo8(0);
        let b = self.lo8(1);
        if 0xE0 <= a && a <= 0xEF && 0xE0 <= b && b <= 0xEF {
            let mut v: Vec<u8> = Vec::new();
            v.push((((a & 0x0F) << 4) | (b & 0x0F)) as u8);
            assert(v@ =~= seq![(((a & 0x0F) << 4) | (b & 0x0F)) as u8]);
            self.vector = Some(v);
            self.opcode = ((self.opcode as u64 + 0x1_0000_0000u64 - 2) % 0x1_0000_0000u64) as u32;
            self.arg_bytes = 1;
        } else {
            self.argval = ((a << 8) | b) as i32;
        }
    }

    fn zd(&mut self)
        ensures final(self)@ == rule_zd(old(self)@),
    {
        self.opcode = self.opcode | ((u32_of(self.arg(0)) & 0x0F) << 4);
        let d = self.delta(self.arg(1) as i64);
        if d < -128 || d > 127 {
            self.err(Msg::RangeBranch);
            self.argval = 0;
        } else {
            self.argval = low_bits(d, 256) as i32;
        }
    }

    fn zl(&mut self)
        ensures final(self)@ == rule_zl(old(self)@),
    {
        let r = self.arg(1);
        let a = self.aval();
        if !(0 <= r && r < 16) {
            self.range(1);
        }
        self.opcode = self.opcode | ((u32_of(r) & 0x0F) << 4);
        self.argval = a as i32;
    }

    /// Apply `rule`, then the row's post-rule transform.
    pub fn apply(&mut self, rule: Rule)
        ensures final(self)@ == post(rule_effect(rule, old(self)@)),
    {
        match rule {
            Rule::NO => {}
            Rule::JM => self.jm(),
            Rule::JT => self.jt(),
            Rule::R1 => self.r1(),
            Rule::ZP => self.zp(),
            Rule::MZ => self.mz(),
            Rule::MB => self.mb(),
            Rule::ZB => self.zb(),
            Rule::ZI => self.zi(),
            Rule::CO => self.co(),
            Rule::CR => self.cr(),
            Rule::CS => self.cs(),
            Rule::SW => self.sw(),
            Rule::R3REL => self.r3rel(),
            Rule::T1 => self.t1(),
            Rule::TD => self.td(),
            Rule::TL => self.tl(),
            Rule::T5 => self.t5(),
            Rule::TA => self.ta(),
            Rule::SU => self.su(),
            Rule::R2 => self.r2(),
            Rule::I1 => self.i1(),
            Rule::I2 => { let x = self.shift; self.short_long(1, x) }
            Rule::I3 => self.short_long(2, 0),
            Rule::I4 => self.i4(),
            Rule::I5 => self.i5(),
            Rule::I6 => self.i6(),
            Rule::I7 => self.short_long(0, 0),
            Rule::I8 => self.i8(),
            Rule::T2 => self.t2(),
            Rule::T3 => self.t3(),
            Rule::T4 => self.t4(),
            Rule::T6 => self.t6(),
            Rule::A3 => self.a3(),
            Rule::CN => self.cn(false),
            Rule::C5 => self.cn(true),
            Rule::SZ => self.sz(),
            Rule::SB => self.sb(),
            Rule::R3 => self.r3(),
            Rule::ZW => self.zw(),
            Rule::ZD => self.zd(),
            Rule::ZL => self.zl(),
            Rule::Other(_) => self.err(Msg::InvalidModop),
        }
        let ps = self.post_shift;
        assert(ps & 31 < 32) by (bit_vector);
        self.argval = i32_of((u32_of(self.argval) << (self.post_shift & 31)) | self.post_or);
    }
}

} // verus!
