//! The current table format.
//!
//! It produces the same `Table` as the legacy loader, but what the legacy
//! format gets wrong silently is diagnosed: fields are checked against a
//! declared `%columns` list, `;` is a comment leader, byte counts are stated
//! and cross-checked, rule names are matched in full, and each rule accepts
//! only the parameters it reads.

use vstd::prelude::*;
use vstd::string::*;
use crate::errlog::digits_val;
use crate::fmt::{dec_digits, hex_digits, hex_pad, push_dec, push_hex, push_hex_pad};
use crate::limits::{MAX_REGSETS, MAX_TABLE_ROWS};
use crate::rules::Rule;
use crate::table::{
    LoadError, RegSet, RegSetV, Row, RowV, Table, TableV, line_body, new_table, next_line,
    read_line,
};
use crate::text::{
    all_hex, all_dec, bytes_eq, is_all_dec, is_all_hex, is_digit, push_all, read_number,
    sat_number, slice_vec, split_fields, fields, to_upper, trim, trim_bytes, upper_seq,
};

verus! {

/// The pattern byte that captures an operand expression.
pub const EXPR: u8 = 0x01;
/// The pattern byte for a register-set slot.
pub const REG: u8 = 0x02;

pub open spec fn sb(s: &str) -> Seq<u8> {
    s.spec_bytes()
}

pub fn eq_str(a: &[u8], s: &str) -> (r: bool)
    ensures r == (a@ == sb(s)),
{
    bytes_eq(a, s.as_bytes())
}

/// The rule a full rule name selects.
pub open spec fn rule_named(n: Seq<u8>) -> Option<Rule> {
    if n == sb("plain") { Some(Rule::NO) } else if n == sb("jmp-page-2k") { Some(Rule::JM) }
    else if n == sb("jmp-page-256") { Some(Rule::JT) } else if n == sb("rel8") { Some(Rule::R1) }
    else if n == sb("zero-page") { Some(Rule::ZP) } else if n == sb("zero-page-moto") { Some(Rule::MZ) }
    else if n == sb("bit-moto") { Some(Rule::MB) } else if n == sb("bit-z80") { Some(Rule::ZB) }
    else if n == sb("index-z80") { Some(Rule::ZI) } else if n == sb("combine") { Some(Rule::CO) }
    else if n == sb("combine-rel") { Some(Rule::CR) } else if n == sb("combine-swapped") { Some(Rule::CS) }
    else if n == sb("swap-bytes") { Some(Rule::SW) } else if n == sb("three-rel") { Some(Rule::R3REL) }
    else if n == sb("tms-fold") { Some(Rule::T1) } else if n == sb("tms-dma") { Some(Rule::TD) }
    else if n == sb("tms-long") { Some(Rule::TL) } else if n == sb("tms-long-swapped") { Some(Rule::T5) }
    else if n == sb("tms-aux") { Some(Rule::TA) } else if n == sb("tms7000-trap") { Some(Rule::SU) }
    else if n == sb("rel16") { Some(Rule::R2) } else if n == sb("i8096-combine") { Some(Rule::I1) }
    else if n == sb("i8096-short-long-2") { Some(Rule::I2) } else if n == sb("i8096-short-long-3") { Some(Rule::I3) }
    else if n == sb("i8096-jump-bit") { Some(Rule::I4) } else if n == sb("i8096-rel11") { Some(Rule::I5) }
    else if n == sb("i8096-indexed") { Some(Rule::I6) } else if n == sb("i8096-short-long-1") { Some(Rule::I7) }
    else if n == sb("i8096-combine-swapped") { Some(Rule::I8) }
    else if n == sb("tms9900-swap-dst") { Some(Rule::T2) } else if n == sb("tms9900-swap-src") { Some(Rule::T3) }
    else if n == sb("tms9900-regs") { Some(Rule::T4) } else if n == sb("nibble-dma") { Some(Rule::T6) }
    else if n == sb("three-plain") { Some(Rule::A3) } else if n == sb("z8-nibbles") { Some(Rule::CN) }
    else if n == sb("z8-nibbles-swapped") { Some(Rule::C5) } else if n == sb("zero-page-st7") { Some(Rule::SZ) }
    else if n == sb("bit-st7") { Some(Rule::SB) } else if n == sb("rel4") { Some(Rule::R3) }
    else if n == sb("z8-working-pair") { Some(Rule::ZW) } else if n == sb("z8-djnz") { Some(Rule::ZD) }
    else if n == sb("z8-load-indexed") { Some(Rule::ZL) }
    else { None }
}

/// The rule a full rule name selects, or `None` for a name no rule has.
pub fn rule_for(n: &[u8]) -> (r: Option<Rule>)
    ensures r == rule_named(n@),
{
    if eq_str(n, "plain") { Some(Rule::NO) } else if eq_str(n, "jmp-page-2k") { Some(Rule::JM) }
    else if eq_str(n, "jmp-page-256") { Some(Rule::JT) } else if eq_str(n, "rel8") { Some(Rule::R1) }
    else if eq_str(n, "zero-page") { Some(Rule::ZP) } else if eq_str(n, "zero-page-moto") { Some(Rule::MZ) }
    else if eq_str(n, "bit-moto") { Some(Rule::MB) } else if eq_str(n, "bit-z80") { Some(Rule::ZB) }
    else if eq_str(n, "index-z80") { Some(Rule::ZI) } else if eq_str(n, "combine") { Some(Rule::CO) }
    else if eq_str(n, "combine-rel") { Some(Rule::CR) } else if eq_str(n, "combine-swapped") { Some(Rule::CS) }
    else if eq_str(n, "swap-bytes") { Some(Rule::SW) } else if eq_str(n, "three-rel") { Some(Rule::R3REL) }
    else if eq_str(n, "tms-fold") { Some(Rule::T1) } else if eq_str(n, "tms-dma") { Some(Rule::TD) }
    else if eq_str(n, "tms-long") { Some(Rule::TL) } else if eq_str(n, "tms-long-swapped") { Some(Rule::T5) }
    else if eq_str(n, "tms-aux") { Some(Rule::TA) } else if eq_str(n, "tms7000-trap") { Some(Rule::SU) }
    else if eq_str(n, "rel16") { Some(Rule::R2) } else if eq_str(n, "i8096-combine") { Some(Rule::I1) }
    else if eq_str(n, "i8096-short-long-2") { Some(Rule::I2) } else if eq_str(n, "i8096-short-long-3") { Some(Rule::I3) }
    else if eq_str(n, "i8096-jump-bit") { Some(Rule::I4) } else if eq_str(n, "i8096-rel11") { Some(Rule::I5) }
    else if eq_str(n, "i8096-indexed") { Some(Rule::I6) } else if eq_str(n, "i8096-short-long-1") { Some(Rule::I7) }
    else if eq_str(n, "i8096-combine-swapped") { Some(Rule::I8) }
    else if eq_str(n, "tms9900-swap-dst") { Some(Rule::T2) } else if eq_str(n, "tms9900-swap-src") { Some(Rule::T3) }
    else if eq_str(n, "tms9900-regs") { Some(Rule::T4) } else if eq_str(n, "nibble-dma") { Some(Rule::T6) }
    else if eq_str(n, "three-plain") { Some(Rule::A3) } else if eq_str(n, "z8-nibbles") { Some(Rule::CN) }
    else if eq_str(n, "z8-nibbles-swapped") { Some(Rule::C5) } else if eq_str(n, "zero-page-st7") { Some(Rule::SZ) }
    else if eq_str(n, "bit-st7") { Some(Rule::SB) } else if eq_str(n, "rel4") { Some(Rule::R3) }
    else if eq_str(n, "z8-working-pair") { Some(Rule::ZW) } else if eq_str(n, "z8-djnz") { Some(Rule::ZD) }
    else if eq_str(n, "z8-load-indexed") { Some(Rule::ZL) }
    else { None }
}

/// The rules that have a name in the current format: every implemented
/// rule; a legacy key no rule is known by has none.
pub open spec fn has_v2_name(r: Rule) -> bool {
    !(r is Other)
}

pub open spec fn name_of(r: Rule) -> &'static str {
    match r {
        Rule::NO => "plain", Rule::JM => "jmp-page-2k", Rule::JT => "jmp-page-256", Rule::R1 => "rel8",
        Rule::ZP => "zero-page", Rule::MZ => "zero-page-moto", Rule::MB => "bit-moto",
        Rule::ZB => "bit-z80", Rule::ZI => "index-z80", Rule::CO => "combine",
        Rule::CR => "combine-rel", Rule::CS => "combine-swapped", Rule::SW => "swap-bytes",
        Rule::R3REL => "three-rel", Rule::T1 => "tms-fold", Rule::TD => "tms-dma",
        Rule::TL => "tms-long", Rule::T5 => "tms-long-swapped", Rule::TA => "tms-aux",
        Rule::SU => "tms7000-trap", Rule::R2 => "rel16", Rule::I1 => "i8096-combine",
        Rule::I2 => "i8096-short-long-2", Rule::I3 => "i8096-short-long-3",
        Rule::I4 => "i8096-jump-bit", Rule::I5 => "i8096-rel11", Rule::I6 => "i8096-indexed",
        Rule::I7 => "i8096-short-long-1", Rule::I8 => "i8096-combine-swapped",
        Rule::T2 => "tms9900-swap-dst", Rule::T3 => "tms9900-swap-src", Rule::T4 => "tms9900-regs",
        Rule::T6 => "nibble-dma", Rule::A3 => "three-plain", Rule::CN => "z8-nibbles",
        Rule::C5 => "z8-nibbles-swapped", Rule::SZ => "zero-page-st7", Rule::SB => "bit-st7",
        Rule::R3 => "rel4", Rule::ZW => "z8-working-pair", Rule::ZD => "z8-djnz",
        Rule::ZL => "z8-load-indexed", Rule::Other(_) => "",
    }
}

/// Every rule with a name in the current format reads back from that name:
/// the writer's name for a rule selects the same rule again.
pub proof fn lemma_rule_names_read_back(r: Rule)
    requires has_v2_name(r),
    ensures rule_named(sb(name_of(r))) == Some(r),
{
    reveal_strlit("plain");
    vstd::utf8::encode_utf8_decode_utf8("plain"@);
    reveal_strlit("jmp-page-2k");
    vstd::utf8::encode_utf8_decode_utf8("jmp-page-2k"@);
    reveal_strlit("jmp-page-256");
    vstd::utf8::encode_utf8_decode_utf8("jmp-page-256"@);
    reveal_strlit("rel8");
    vstd::utf8::encode_utf8_decode_utf8("rel8"@);
    reveal_strlit("zero-page");
    vstd::utf8::encode_utf8_decode_utf8("zero-page"@);
    reveal_strlit("zero-page-moto");
    vstd::utf8::encode_utf8_decode_utf8("zero-page-moto"@);
    reveal_strlit("bit-moto");
    vstd::utf8::encode_utf8_decode_utf8("bit-moto"@);
    reveal_strlit("bit-z80");
    vstd::utf8::encode_utf8_decode_utf8("bit-z80"@);
    reveal_strlit("index-z80");
    vstd::utf8::encode_utf8_decode_utf8("index-z80"@);
    reveal_strlit("combine");
    vstd::utf8::encode_utf8_decode_utf8("combine"@);
    reveal_strlit("combine-rel");
    vstd::utf8::encode_utf8_decode_utf8("combine-rel"@);
    reveal_strlit("combine-swapped");
    vstd::utf8::encode_utf8_decode_utf8("combine-swapped"@);
    reveal_strlit("swap-bytes");
    vstd::utf8::encode_utf8_decode_utf8("swap-bytes"@);
    reveal_strlit("three-rel");
    vstd::utf8::encode_utf8_decode_utf8("three-rel"@);
    reveal_strlit("tms-fold");
    vstd::utf8::encode_utf8_decode_utf8("tms-fold"@);
    reveal_strlit("tms-dma");
    vstd::utf8::encode_utf8_decode_utf8("tms-dma"@);
    reveal_strlit("tms-long");
    vstd::utf8::encode_utf8_decode_utf8("tms-long"@);
    reveal_strlit("tms-long-swapped");
    vstd::utf8::encode_utf8_decode_utf8("tms-long-swapped"@);
    reveal_strlit("tms-aux");
    vstd::utf8::encode_utf8_decode_utf8("tms-aux"@);
    reveal_strlit("tms7000-trap");
    vstd::utf8::encode_utf8_decode_utf8("tms7000-trap"@);
    reveal_strlit("rel16");
    vstd::utf8::encode_utf8_decode_utf8("rel16"@);
    reveal_strlit("i8096-combine");
    vstd::utf8::encode_utf8_decode_utf8("i8096-combine"@);
    reveal_strlit("i8096-short-long-2");
    vstd::utf8::encode_utf8_decode_utf8("i8096-short-long-2"@);
    reveal_strlit("i8096-short-long-3");
    vstd::utf8::encode_utf8_decode_utf8("i8096-short-long-3"@);
    reveal_strlit("i8096-jump-bit");
    vstd::utf8::encode_utf8_decode_utf8("i8096-jump-bit"@);
    reveal_strlit("i8096-rel11");
    vstd::utf8::encode_utf8_decode_utf8("i8096-rel11"@);
    reveal_strlit("i8096-indexed");
    vstd::utf8::encode_utf8_decode_utf8("i8096-indexed"@);
    reveal_strlit("i8096-short-long-1");
    vstd::utf8::encode_utf8_decode_utf8("i8096-short-long-1"@);
    reveal_strlit("i8096-combine-swapped");
    vstd::utf8::encode_utf8_decode_utf8("i8096-combine-swapped"@);
    reveal_strlit("tms9900-swap-dst");
    vstd::utf8::encode_utf8_decode_utf8("tms9900-swap-dst"@);
    reveal_strlit("tms9900-swap-src");
    vstd::utf8::encode_utf8_decode_utf8("tms9900-swap-src"@);
    reveal_strlit("tms9900-regs");
    vstd::utf8::encode_utf8_decode_utf8("tms9900-regs"@);
    reveal_strlit("nibble-dma");
    vstd::utf8::encode_utf8_decode_utf8("nibble-dma"@);
    reveal_strlit("three-plain");
    vstd::utf8::encode_utf8_decode_utf8("three-plain"@);
    reveal_strlit("z8-nibbles");
    vstd::utf8::encode_utf8_decode_utf8("z8-nibbles"@);
    reveal_strlit("z8-nibbles-swapped");
    vstd::utf8::encode_utf8_decode_utf8("z8-nibbles-swapped"@);
    reveal_strlit("zero-page-st7");
    vstd::utf8::encode_utf8_decode_utf8("zero-page-st7"@);
    reveal_strlit("bit-st7");
    vstd::utf8::encode_utf8_decode_utf8("bit-st7"@);
    reveal_strlit("rel4");
    vstd::utf8::encode_utf8_decode_utf8("rel4"@);
    reveal_strlit("z8-working-pair");
    vstd::utf8::encode_utf8_decode_utf8("z8-working-pair"@);
    reveal_strlit("z8-djnz");
    vstd::utf8::encode_utf8_decode_utf8("z8-djnz"@);
    reveal_strlit("z8-load-indexed");
    vstd::utf8::encode_utf8_decode_utf8("z8-load-indexed"@);
    match r {
        Rule::NO => {  assert(rule_named(sb("plain")) == Some(Rule::NO)); }
        Rule::JM => {  assert(rule_named(sb("jmp-page-2k")) == Some(Rule::JM)); }
        Rule::JT => {  assert(rule_named(sb("jmp-page-256")) == Some(Rule::JT)); }
        Rule::R1 => {  assert(rule_named(sb("rel8")) == Some(Rule::R1)); }
        Rule::ZP => {  assert(rule_named(sb("zero-page")) == Some(Rule::ZP)); }
        Rule::MZ => {  assert(rule_named(sb("zero-page-moto")) == Some(Rule::MZ)); }
        Rule::MB => {  assert(rule_named(sb("bit-moto")) == Some(Rule::MB)); }
        Rule::ZB => {  assert(rule_named(sb("bit-z80")) == Some(Rule::ZB)); }
        Rule::ZI => {  assert(rule_named(sb("index-z80")) == Some(Rule::ZI)); }
        Rule::CO => {  assert(rule_named(sb("combine")) == Some(Rule::CO)); }
        Rule::CR => {  assert(rule_named(sb("combine-rel")) == Some(Rule::CR)); }
        Rule::CS => {  assert(rule_named(sb("combine-swapped")) == Some(Rule::CS)); }
        Rule::SW => {  assert(rule_named(sb("swap-bytes")) == Some(Rule::SW)); }
        Rule::R3REL => {  assert(rule_named(sb("three-rel")) == Some(Rule::R3REL)); }
        Rule::T1 => {  assert(rule_named(sb("tms-fold")) == Some(Rule::T1)); }
        Rule::TD => {  assert(rule_named(sb("tms-dma")) == Some(Rule::TD)); }
        Rule::TL => { assert("tms-long"@[4] != "tms-fold"@[4]); assert(rule_named(sb("tms-long")) == Some(Rule::TL)); }
        Rule::T5 => {  assert(rule_named(sb("tms-long-swapped")) == Some(Rule::T5)); }
        Rule::TA => { assert("tms-aux"@[4] != "tms-dma"@[4]); assert(rule_named(sb("tms-aux")) == Some(Rule::TA)); }
        Rule::SU => {  assert(rule_named(sb("tms7000-trap")) == Some(Rule::SU)); }
        Rule::R2 => {  assert(rule_named(sb("rel16")) == Some(Rule::R2)); }
        Rule::I1 => {  assert(rule_named(sb("i8096-combine")) == Some(Rule::I1)); }
        Rule::I2 => {  assert(rule_named(sb("i8096-short-long-2")) == Some(Rule::I2)); }
        Rule::I3 => { assert("i8096-short-long-3"@[17] != "i8096-short-long-2"@[17]); assert(rule_named(sb("i8096-short-long-3")) == Some(Rule::I3)); }
        Rule::I4 => {  assert(rule_named(sb("i8096-jump-bit")) == Some(Rule::I4)); }
        Rule::I5 => {  assert(rule_named(sb("i8096-rel11")) == Some(Rule::I5)); }
        Rule::I6 => { assert("i8096-indexed"@[6] != "i8096-combine"@[6]); assert(rule_named(sb("i8096-indexed")) == Some(Rule::I6)); }
        Rule::I7 => { assert("i8096-short-long-1"@[17] != "i8096-short-long-2"@[17]); assert("i8096-short-long-1"@[17] != "i8096-short-long-3"@[17]); assert(rule_named(sb("i8096-short-long-1")) == Some(Rule::I7)); }
        Rule::I8 => {  assert(rule_named(sb("i8096-combine-swapped")) == Some(Rule::I8)); }
        Rule::T2 => { assert("tms9900-swap-dst"@[3] != "tms-long-swapped"@[3]); assert(rule_named(sb("tms9900-swap-dst")) == Some(Rule::T2)); }
        Rule::T3 => { assert("tms9900-swap-src"@[3] != "tms-long-swapped"@[3]); assert("tms9900-swap-src"@[13] != "tms9900-swap-dst"@[13]); assert(rule_named(sb("tms9900-swap-src")) == Some(Rule::T3)); }
        Rule::T4 => { assert("tms9900-regs"@[3] != "tms7000-trap"@[3]); assert(rule_named(sb("tms9900-regs")) == Some(Rule::T4)); }
        Rule::T6 => {  assert(rule_named(sb("nibble-dma")) == Some(Rule::T6)); }
        Rule::A3 => {  assert(rule_named(sb("three-plain")) == Some(Rule::A3)); }
        Rule::CN => {  assert(rule_named(sb("z8-nibbles")) == Some(Rule::CN)); }
        Rule::C5 => {  assert(rule_named(sb("z8-nibbles-swapped")) == Some(Rule::C5)); }
        Rule::SZ => {  assert(rule_named(sb("zero-page-st7")) == Some(Rule::SZ)); }
        Rule::SB => { assert("bit-st7"@[4] != "bit-z80"@[4]); assert(rule_named(sb("bit-st7")) == Some(Rule::SB)); }
        Rule::R3 => { assert("rel4"@[3] != "rel8"@[3]); assert(rule_named(sb("rel4")) == Some(Rule::R3)); }
        Rule::ZW => {  assert(rule_named(sb("z8-working-pair")) == Some(Rule::ZW)); }
        Rule::ZD => {  assert(rule_named(sb("z8-djnz")) == Some(Rule::ZD)); }
        Rule::ZL => { assert("z8-load-indexed"@[3] != "z8-working-pair"@[3]); assert(rule_named(sb("z8-load-indexed")) == Some(Rule::ZL)); }
        Rule::Other(_) => {}
    }
}

/// The name the writer gives a rule: the name the current format selects
/// it by.
pub fn name_for(rule: Rule) -> (r: &'static str)
    requires has_v2_name(rule),
    ensures r == name_of(rule),
{
    match rule {
        Rule::NO => "plain", Rule::JM => "jmp-page-2k", Rule::JT => "jmp-page-256", Rule::R1 => "rel8",
        Rule::ZP => "zero-page", Rule::MZ => "zero-page-moto", Rule::MB => "bit-moto",
        Rule::ZB => "bit-z80", Rule::ZI => "index-z80", Rule::CO => "combine",
        Rule::CR => "combine-rel", Rule::CS => "combine-swapped", Rule::SW => "swap-bytes",
        Rule::R3REL => "three-rel", Rule::T1 => "tms-fold", Rule::TD => "tms-dma",
        Rule::TL => "tms-long", Rule::T5 => "tms-long-swapped", Rule::TA => "tms-aux",
        Rule::SU => "tms7000-trap", Rule::R2 => "rel16", Rule::I1 => "i8096-combine",
        Rule::I2 => "i8096-short-long-2", Rule::I3 => "i8096-short-long-3",
        Rule::I4 => "i8096-jump-bit", Rule::I5 => "i8096-rel11", Rule::I6 => "i8096-indexed",
        Rule::I7 => "i8096-short-long-1", Rule::I8 => "i8096-combine-swapped",
        Rule::T2 => "tms9900-swap-dst", Rule::T3 => "tms9900-swap-src", Rule::T4 => "tms9900-regs",
        Rule::T6 => "nibble-dma", Rule::A3 => "three-plain", Rule::CN => "z8-nibbles",
        Rule::C5 => "z8-nibbles-swapped", Rule::SZ => "zero-page-st7", Rule::SB => "bit-st7",
        Rule::R3 => "rel4", Rule::ZW => "z8-working-pair", Rule::ZD => "z8-djnz",
        Rule::ZL => "z8-load-indexed", Rule::Other(_) => "",
    }
}

/// Whether rule `r` reads the parameter `k` (beyond the universal ones).
pub open spec fn rule_reads(r: Rule, k: Seq<u8>) -> bool {
    match r {
        Rule::JM => k == sb("page-mask"),
        Rule::T1 | Rule::TD | Rule::TL | Rule::T5 | Rule::TA | Rule::T6 =>
            k == sb("shift") || k == sb("invert") || k == sb("valid-mask"),
        Rule::CS | Rule::CN | Rule::C5 => k == sb("valid-mask"),
        Rule::I1 => k == sb("field-mask") || k == sb("set-bits"),
        Rule::I2 => k == sb("field-mask") || k == sb("opcode-xor"),
        Rule::I3 | Rule::I4 | Rule::I5 | Rule::I6 | Rule::I7 | Rule::I8 => k == sb("field-mask"),
        _ => false,
    }
}

pub open spec fn universal(k: Seq<u8>) -> bool {
    k == sb("class") || k == sb("post-shift") || k == sb("post-or")
}

fn reads_param(r: Rule, k: &[u8]) -> (b: bool)
    ensures b == (universal(k@) || rule_reads(r, k@)),
{
    if eq_str(k, "class") || eq_str(k, "post-shift") || eq_str(k, "post-or") { return true; }
    match r {
        Rule::JM => eq_str(k, "page-mask"),
        Rule::T1 | Rule::TD | Rule::TL | Rule::T5 | Rule::TA | Rule::T6 =>
            eq_str(k, "shift") || eq_str(k, "invert") || eq_str(k, "valid-mask"),
        Rule::CS | Rule::CN | Rule::C5 => eq_str(k, "valid-mask"),
        Rule::I1 => eq_str(k, "field-mask") || eq_str(k, "set-bits"),
        Rule::I2 => eq_str(k, "field-mask") || eq_str(k, "opcode-xor"),
        Rule::I3 | Rule::I4 | Rule::I5 | Rule::I6 | Rule::I7 | Rule::I8 => eq_str(k, "field-mask"),
        _ => false,
    }
}

// --- fields and numbers --------------------------------------------------------

/// A nonempty run of hex digits, read saturating.
pub open spec fn hex_field(s: Seq<u8>) -> Option<u32> {
    if all_hex(s) { Some(sat_number(s, 16) as u32) } else { None }
}

/// A nonempty run of decimal digits that fits 32 bits.
pub open spec fn dec_field(s: Seq<u8>) -> Option<u32> {
    if all_dec(s) && digits_val(s, 0, s.len() as int) <= 0xFFFF_FFFF {
        Some(digits_val(s, 0, s.len() as int) as u32)
    } else { None }
}

fn hex_val(s: &[u8]) -> (r: Option<u32>)
    ensures r == hex_field(s@),
{
    if is_all_hex(s) { Some(read_number(s, 16)) } else { None }
}

fn dec_val(s: &[u8]) -> (r: Option<u32>)
    ensures r == dec_field(s@),
{
    if !is_all_dec(s) {
        return None;
    }
    let mut v: u64 = 0;
    let mut k: usize = 0;
    while k < s.len()
        invariant
            k <= s.len(), all_dec(s@),
            v == digits_val(s@, 0, k as int), v <= 0xFFFF_FFFF,
        decreases s.len() - k,
    {
        assert(is_digit(s@[k as int]));
        let next = v * 10 + (s[k] - 0x30) as u64;
        if next > 0xFFFF_FFFF {
            proof { lemma_digits_val_mono(s@, k + 1, s@.len() as int); }
            return None;
        }
        v = next;
        k += 1;
    }
    Some(v as u32)
}

proof fn lemma_digits_val_nonneg(s: Seq<u8>, b: int)
    requires 0 <= b <= s.len(), forall|k: int| 0 <= k < s.len() ==> is_digit(#[trigger] s[k]),
    ensures 0 <= digits_val(s, 0, b),
    decreases b,
{
    if b > 0 {
        lemma_digits_val_nonneg(s, b - 1);
        assert(is_digit(s[b - 1]));
    }
}

proof fn lemma_digits_val_mono(s: Seq<u8>, a: int, b: int)
    requires 0 <= a <= b <= s.len(), forall|k: int| 0 <= k < s.len() ==> is_digit(#[trigger] s[k]),
    ensures digits_val(s, 0, a) <= digits_val(s, 0, b),
    decreases b - a,
{
    if a < b {
        lemma_digits_val_mono(s, a, b - 1);
        lemma_digits_val_nonneg(s, b - 1);
        assert(is_digit(s[b - 1]));
    }
}

// --- comments, quotes, patterns --------------------------------------------------

/// Where a `;` comment starts, outside double quotes; the length if none.
pub open spec fn comment_at(b: Seq<u8>, i: int, quoted: bool) -> int
    decreases b.len() - i,
{
    if i < 0 || i >= b.len() { b.len() as int }
    else if b[i] == 0x22 { comment_at(b, i + 1, !quoted) }
    else if b[i] == 0x3B && !quoted { i }
    else { comment_at(b, i + 1, quoted) }
}

pub open spec fn strip_comment_spec(b: Seq<u8>) -> Seq<u8> {
    b.subrange(0, comment_at(b, 0, false))
}

proof fn lemma_comment_at(b: Seq<u8>, i: int, q: bool)
    requires 0 <= i <= b.len(),
    ensures i <= comment_at(b, i, q) <= b.len(),
    decreases b.len() - i,
{
    if i < b.len() && !(b[i] == 0x3B && !q) {
        lemma_comment_at(b, i + 1, if b[i] == 0x22 { !q } else { q });
    }
}

fn strip_comment(b: &[u8]) -> (r: Vec<u8>)
    ensures r@ == strip_comment_spec(b@),
{
    proof { lemma_comment_at(b@, 0, false); }
    let mut quoted = false;
    let mut i: usize = 0;
    while i < b.len()
        invariant i <= b.len(), comment_at(b@, i as int, quoted) == comment_at(b@, 0, false),
        decreases b.len() - i,
    {
        if b[i] == 0x22 {
            quoted = !quoted;
        } else if b[i] == 0x3B && !quoted {
            return slice_vec(b, 0, i);
        }
        i += 1;
    }
    slice_vec(b, 0, b.len())
}

/// The text inside a pair of double quotes that open and close `s`.
pub open spec fn unquote(s: Seq<u8>) -> Option<Seq<u8>> {
    if s.len() >= 2 && s[0] == 0x22 && s.last() == 0x22 { Some(s.subrange(1, s.len() - 1)) } else { None }
}

fn quoted(s: &[u8]) -> (r: Option<Vec<u8>>)
    ensures match r { Some(v) => unquote(s@) == Some(v@), None => unquote(s@) is None },
{
    if s.len() >= 2 && s[0] == 0x22 && s[s.len() - 1] == 0x22 {
        Some(slice_vec(s, 1, s.len() - 1))
    } else {
        None
    }
}

pub open spec fn expr_word() -> Seq<u8> { seq![0x3Cu8, 0x65, 0x78, 0x70, 0x72, 0x3E] }
pub open spec fn reg_word() -> Seq<u8> { seq![0x3Cu8, 0x72, 0x65, 0x67, 0x3E] }

pub open spec fn at(b: Seq<u8>, i: int, w: Seq<u8>) -> bool {
    0 <= i && i + w.len() <= b.len() && b.subrange(i, i + w.len()) == w
}

/// An operand pattern with `<expr>` and `<reg>` replaced by their pattern bytes, from byte `i`;
/// `None` at any other `<`.
pub open spec fn translate(b: Seq<u8>, i: int) -> Option<Seq<u8>>
    decreases b.len() - i,
{
    if i < 0 || i >= b.len() { Some(Seq::empty()) }
    else if at(b, i, expr_word()) { match translate(b, i + 6) { Some(t) => Some(seq![EXPR] + t), None => None } }
    else if at(b, i, reg_word()) { match translate(b, i + 5) { Some(t) => Some(seq![REG] + t), None => None } }
    else if b[i] == 0x3C { None }
    else { match translate(b, i + 1) { Some(t) => Some(seq![b[i]] + t), None => None } }
}

/// A capture at `k` is properly ended: by `,`, `[` or `]`, or by `),`.
pub open spec fn delimited(p: Seq<u8>, k: int) -> bool {
    (k + 1 < p.len() && (p[k + 1] == 0x2C || p[k + 1] == 0x5B || p[k + 1] == 0x5D))
    || (k + 2 < p.len() && p[k + 1] == 0x29 && p[k + 2] == 0x2C)
}

/// Every capture but the last is delimited.
pub open spec fn captures_ok(p: Seq<u8>) -> bool {
    forall|k: int, j: int| #![trigger delimited(p, k), p[j]]
        0 <= k < j < p.len() && p[k] == EXPR && p[j] == EXPR ==> delimited(p, k)
}

pub open spec fn dash() -> Seq<u8> { seq![0x2Du8] }

/// The internal pattern for an operands column, or the message refusing it.
pub open spec fn pattern_spec(text: Seq<u8>) -> Result<Seq<u8>, Seq<u8>> {
    if text == dash() { Ok(Seq::empty()) }
    else {
        match translate(text, 0) {
            None => Err(sb("unknown placeholder in operands: ") + text),
            Some(p) => if captures_ok(p) { Ok(p) }
                else { Err(sb("<expr> before the last must be followed by ',', '[' or ']': ") + text) },
        }
    }
}

fn msg2(a: &str, t: &[u8]) -> (r: Vec<u8>)
    ensures r@ == sb(a) + t@,
{
    let mut v: Vec<u8> = Vec::new();
    push_all(&mut v, a.as_bytes());
    push_all(&mut v, t);
    v
}

fn msg0(a: &str) -> (r: Vec<u8>)
    ensures r@ == sb(a),
{
    let mut v: Vec<u8> = Vec::new();
    push_all(&mut v, a.as_bytes());
    v
}

proof fn lemma_translate_cons(b: Seq<u8>, i: int)
    requires 0 <= i <= b.len(),
    ensures translate(b, i) is Some ==> translate(b, i).unwrap().len() <= b.len() - i,
    decreases b.len() - i,
{
    if i < b.len() {
        if at(b, i, expr_word()) { lemma_translate_cons(b, i + 6); }
        else if at(b, i, reg_word()) { lemma_translate_cons(b, i + 5); }
        else if b[i] != 0x3C { lemma_translate_cons(b, i + 1); }
    }
}

/// Translate an operands column: `-` for none, `<expr>` and `<reg>` as
/// placeholders, everything else literal; every capture but the last must be
/// followed by a delimiter.
fn pattern(line: usize, text: &[u8]) -> (r: Result<Vec<u8>, LoadError>)
    ensures match pattern_spec(text@) {
        Ok(p) => r matches Ok(v) && v@ == p,
        Err(m) => r matches Err(LoadError::Syntax(l, w)) && l == line && w@ == m,
    },
{
    if text.len() == 1 && text[0] == 0x2D {
        assert(text@ =~= dash());
        return Ok(Vec::new());
    }
    assert(text@ != dash()) by { if text@ == dash() { assert(text@.len() == 1); } }
    // Translate back to front so each step prepends.
    let mut out: Vec<u8> = Vec::new();
    let mut i: usize = 0;
    let ghost full = translate(text@, 0);
    while i < text.len()
        invariant
            i <= text.len(), full == translate(text@, 0), text@ != dash(),
            match full {
                None => translate(text@, i as int) is None,
                Some(p) => translate(text@, i as int) matches Some(q) && p == out@ + q,
            },
        decreases text.len() - i,
    {
        let e: [u8; 6] = [0x3C, 0x65, 0x78, 0x70, 0x72, 0x3E];
        let g: [u8; 5] = [0x3C, 0x72, 0x65, 0x67, 0x3E];
        assert(e@ =~= expr_word() && g@ =~= reg_word());
        let rest = slice_vec(text, i, text.len());
        let ie = crate::text::starts_with(rest.as_slice(), &e);
        let ig = crate::text::starts_with(rest.as_slice(), &g);
        assert(ie == at(text@, i as int, expr_word())) by {
            if i + 6 <= text.len() { assert(rest@.subrange(0, 6) =~= text@.subrange(i as int, i + 6)); }
        }
        assert(ig == at(text@, i as int, reg_word())) by {
            if i + 5 <= text.len() { assert(rest@.subrange(0, 5) =~= text@.subrange(i as int, i + 5)); }
        }
        if ie {
            out.push(EXPR);
            i += 6;
        } else if ig {
            out.push(REG);
            i += 5;
        } else if text[i] == 0x3C {
            assert(translate(text@, i as int) is None);
            assert(full is None);
            return Err(LoadError::Syntax(line, msg2("unknown placeholder in operands: ", text)));
        } else {
            out.push(text[i]);
            i += 1;
        }
        proof {
            match full {
                Some(p) => {
                    let q = translate(text@, i as int).unwrap();
                    assert(p =~= out@ + q);
                }
                None => {}
            }
        }
    }
    proof {
        match full { Some(p) => { assert(p =~= out@); } None => {} }
    }
    assert(full is Some);
    assert(full == Some(out@));
    // Check the captures: every EXPR that is not the last is delimited.
    let mut last: usize = out.len();
    let mut k: usize = 0;
    while k < out.len()
        invariant k <= out.len(), last <= out.len(),
            last < out.len() ==> out@[last as int] == EXPR && last < k,
            forall|j: int| last < j < k ==> out@[j] != EXPR,
            last == out.len() ==> forall|j: int| 0 <= j < k ==> out@[j] != EXPR,
        decreases out.len() - k,
    {
        if out[k] == EXPR { last = k; }
        k += 1;
    }
    let mut k: usize = 0;
    while k < out.len()
        invariant k <= out.len(), last <= out.len(),
            last < out.len() ==> out@[last as int] == EXPR,
            forall|j: int| last < j < out.len() ==> out@[j] != EXPR,
            last == out.len() ==> forall|j: int| 0 <= j < out.len() ==> out@[j] != EXPR,
            forall|q: int| 0 <= q < k && out@[q] == EXPR && q != last ==> delimited(out@, q),
            full == Some(out@), full == translate(text@, 0), text@ != dash(),
        decreases out.len() - k,
    {
        if out[k] == EXPR && k != last {
            let n1 = if k + 1 < out.len() { out[k + 1] } else { 0 };
            let n2 = if k + 2 < out.len() { out[k + 2] } else { 0 };
            let ok = (k + 1 < out.len() && (n1 == 0x2C || n1 == 0x5B || n1 == 0x5D))
                || (k + 2 < out.len() && n1 == 0x29 && n2 == 0x2C);
            if !ok {
                proof {
                    assert(last < out.len());
                    assert(!delimited(out@, k as int));
                    assert(k < last);
                    assert(!captures_ok(out@)) by {
                        if captures_ok(out@) {
                            assert(out@[k as int] == EXPR && out@[last as int] == EXPR);
                            assert(delimited(out@, k as int));
                        }
                    }
                    assert(pattern_spec(text@) == Err::<Seq<u8>, Seq<u8>>(
                        sb("<expr> before the last must be followed by ',', '[' or ']': ") + text@));
                }
                return Err(LoadError::Syntax(line,
                    msg2("<expr> before the last must be followed by ',', '[' or ']': ", text)));
            }
        }
        k += 1;
    }
    assert(captures_ok(out@)) by {
        assert forall|a: int, j: int| #![trigger delimited(out@, a), out@[j]]
            0 <= a < j < out@.len() && out@[a] == EXPR && out@[j] == EXPR
            implies delimited(out@, a) by {
            assert(a != last);
        }
    }
    Ok(out)
}

/// An internal pattern shown as the current format writes it.
pub open spec fn display_spec(args: Seq<u8>) -> Seq<u8>
    decreases args.len(),
{
    if args.len() == 0 { Seq::empty() } else {
        display_spec(args.drop_last()) + (if args.last() == EXPR { expr_word() }
            else if args.last() == REG { reg_word() } else { seq![args.last()] })
    }
}

proof fn lemma_display_cons(x: u8, t: Seq<u8>)
    ensures display_spec(seq![x] + t) == (if x == EXPR { expr_word() } else if x == REG { reg_word() } else { seq![x] })
        + display_spec(t),
    decreases t.len(),
{
    let item = if x == EXPR { expr_word() } else if x == REG { reg_word() } else { seq![x] };
    if t.len() == 0 {
        assert(seq![x] + t =~= seq![x]);
        assert(seq![x].drop_last() =~= Seq::<u8>::empty());
        assert(item + display_spec(t) =~= item);
        assert(display_spec(Seq::<u8>::empty()) + item =~= item);
    } else {
        lemma_display_cons(x, t.drop_last());
        assert((seq![x] + t).drop_last() =~= seq![x] + t.drop_last());
        assert((seq![x] + t).last() == t.last());
        let last = if t.last() == EXPR { expr_word() } else if t.last() == REG { reg_word() } else { seq![t.last()] };
        assert(item + display_spec(t.drop_last()) + last =~= item + (display_spec(t.drop_last()) + last));
    }
}

proof fn lemma_translate_display(b: Seq<u8>, i: int)
    requires 0 <= i <= b.len(), translate(b, i) is Some,
        forall|j: int| i <= j < b.len() ==> b[j] != EXPR && b[j] != REG,
    ensures display_spec(translate(b, i)->0) == b.subrange(i, b.len() as int),
    decreases b.len() - i,
{
    if i >= b.len() {
        assert(b.subrange(i, b.len() as int) =~= Seq::<u8>::empty());
    } else if at(b, i, expr_word()) {
        lemma_translate_display(b, i + 6);
        lemma_display_cons(EXPR, translate(b, i + 6)->0);
        assert(b.subrange(i, b.len() as int) =~= b.subrange(i, i + 6) + b.subrange(i + 6, b.len() as int));
    } else if at(b, i, reg_word()) {
        lemma_translate_display(b, i + 5);
        lemma_display_cons(REG, translate(b, i + 5)->0);
        assert(b.subrange(i, b.len() as int) =~= b.subrange(i, i + 5) + b.subrange(i + 5, b.len() as int));
    } else {
        lemma_translate_display(b, i + 1);
        lemma_display_cons(b[i], translate(b, i + 1)->0);
        assert(b.subrange(i, b.len() as int) =~= seq![b[i]] + b.subrange(i + 1, b.len() as int));
    }
}

/// Rendering a pattern read from an operands column gives the column back,
/// when the column holds none of the two internal placeholder bytes: `-`
/// for no operands, the text as written otherwise.
pub proof fn lemma_display_round_trip(text: Seq<u8>)
    requires text.len() > 0, pattern_spec(text) is Ok,
        forall|j: int| 0 <= j < text.len() ==> text[j] != EXPR && text[j] != REG,
    ensures (if pattern_spec(text)->Ok_0.len() == 0 { dash() } else { display_spec(pattern_spec(text)->Ok_0) }) == text,
{
    if text == dash() {
    } else {
        lemma_translate_display(text, 0);
        assert(text.subrange(0, text.len() as int) =~= text);
        if translate(text, 0)->0.len() == 0 {
            assert(display_spec(translate(text, 0)->0) =~= Seq::<u8>::empty());
        }
    }
}

/// An internal pattern rendered back to source: `-` for none.
pub fn display(args: &[u8]) -> (r: Vec<u8>)
    ensures r@ == (if args@.len() == 0 { dash() } else { display_spec(args@) }),
{
    if args.len() == 0 {
        let v = vec![0x2Du8];
        assert(v@ =~= dash());
        return v;
    }
    let mut out: Vec<u8> = Vec::new();
    let mut i: usize = 0;
    while i < args.len()
        invariant i <= args.len(), out@ == display_spec(args@.subrange(0, i as int)),
        decreases args.len() - i,
    {
        assert(args@.subrange(0, i + 1).drop_last() =~= args@.subrange(0, i as int));
        let c = args[i];
        if c == EXPR {
            let e: [u8; 6] = [0x3C, 0x65, 0x78, 0x70, 0x72, 0x3E];
            assert(e@ =~= expr_word());
            push_all(&mut out, &e);
        } else if c == REG {
            let g: [u8; 5] = [0x3C, 0x72, 0x65, 0x67, 0x3E];
            assert(g@ =~= reg_word());
            push_all(&mut out, &g);
        } else {
            out.push(c);
            assert(out@ =~= display_spec(args@.subrange(0, i as int)) + seq![c]);
        }
        i += 1;
    }
    assert(args@.subrange(0, i as int) =~= args@);
    out
}

// --- rows ---------------------------------------------------------------------

/// A key and value written `key=value`: where the first `=` is.
pub open spec fn first_eq(s: Seq<u8>, i: int) -> int
    decreases s.len() - i,
{
    if i < 0 || i >= s.len() { s.len() as int } else if s[i] == 0x3D { i } else { first_eq(s, i + 1) }
}

pub proof fn lemma_first_eq(s: Seq<u8>, i: int)
    requires 0 <= i <= s.len(),
    ensures i <= first_eq(s, i) <= s.len(),
    decreases s.len() - i,
{
    if i < s.len() && s[i] != 0x3D { lemma_first_eq(s, i + 1); }
}

pub open spec fn key_of_kv(s: Seq<u8>) -> Seq<u8> { s.subrange(0, first_eq(s, 0)) }
pub open spec fn val_of_kv(s: Seq<u8>) -> Seq<u8> {
    if first_eq(s, 0) < s.len() { s.subrange(first_eq(s, 0) + 1, s.len() as int) } else { Seq::empty() }
}

fn split_kv(s: &[u8]) -> (r: (Vec<u8>, Vec<u8>, bool))
    ensures r.0@ == key_of_kv(s@), r.1@ == val_of_kv(s@), r.2 == (first_eq(s@, 0) < s@.len()),
{
    proof { lemma_first_eq(s@, 0); }
    let mut e: usize = 0;
    while e < s.len() && s[e] != 0x3D
        invariant e <= s.len(), first_eq(s@, e as int) == first_eq(s@, 0),
        decreases s.len() - e,
    {
        e += 1;
    }
    let k = slice_vec(s, 0, e);
    let v = if e < s.len() { slice_vec(s, e + 1, s.len()) } else { Vec::new() };
    (k, v, e < s.len())
}

/// The index of the first column named `name` from `i`, or the column count.
pub open spec fn col_index(cols: Seq<Seq<u8>>, name: Seq<u8>, i: int) -> int
    decreases cols.len() - i,
{
    if i < 0 || i >= cols.len() { cols.len() as int } else if cols[i] == name { i } else { col_index(cols, name, i + 1) }
}

/// The field in the column named `name`, or nothing.
pub open spec fn col(f: Seq<Seq<u8>>, cols: Seq<Seq<u8>>, name: Seq<u8>) -> Seq<u8> {
    let k = col_index(cols, name, 0);
    if 0 <= k < cols.len() && k < f.len() { f[k] } else { Seq::empty() }
}

/// The first field from `i` that is not a `key=value`, or the field count.
pub open spec fn bad_extra(f: Seq<Seq<u8>>, i: int) -> int
    decreases f.len() - i,
{
    if i < 0 || i >= f.len() { f.len() as int } else if first_eq(f[i], 0) >= f[i].len() { i } else { bad_extra(f, i + 1) }
}

/// A class named by `%class`, or a hex bit.
pub open spec fn class_value(v: Seq<u8>, classes: Seq<(Seq<u8>, u32)>, i: int) -> Option<u32>
    decreases classes.len() - i,
{
    if i < 0 || i >= classes.len() { hex_field(v) }
    else if classes[i].0 == v { Some(classes[i].1) }
    else { class_value(v, classes, i + 1) }
}

fn resolve_class(v: &[u8], classes: &Vec<(Vec<u8>, u32)>) -> (r: Option<u32>)
    ensures r == class_value(v@, classes@.map_values(|c: (Vec<u8>, u32)| (c.0@, c.1)), 0),
{
    let ghost cv = classes@.map_values(|c: (Vec<u8>, u32)| (c.0@, c.1));
    let mut i: usize = 0;
    while i < classes.len()
        invariant i <= classes.len(), cv == classes@.map_values(|c: (Vec<u8>, u32)| (c.0@, c.1)),
            class_value(v@, cv, i as int) == class_value(v@, cv, 0),
        decreases classes.len() - i,
    {
        if bytes_eq(classes[i].0.as_slice(), v) {
            return Some(classes[i].1);
        }
        i += 1;
    }
    hex_val(v)
}

/// The row parameters from field `k` on, applied to `r`; the message on error.
pub open spec fn params_spec(r: RowV, f: Seq<Seq<u8>>, k: int, rule_text: Seq<u8>,
    classes: Seq<(Seq<u8>, u32)>) -> Result<RowV, Seq<u8>>
    decreases f.len() - k,
{
    if k < 0 || k >= f.len() { Ok(r) } else {
        let key = key_of_kv(f[k]);
        let v = val_of_kv(f[k]);
        if !universal(key) && !rule_reads(r.rule, key) {
            Err(sb("rule ") + rule_text + sb(" has no parameter ") + key)
        } else {
            let step: Result<RowV, Seq<u8>> =
                if key == sb("class") {
                    match class_value(v, classes, 0) { Some(c) => Ok(RowV { class: c, ..r }), None => Err(sb("unknown class ") + v) }
                } else if key == sb("post-shift") || key == sb("post-or") || key == sb("page-mask")
                    || key == sb("valid-mask") || key == sb("field-mask") || key == sb("set-bits")
                    || key == sb("opcode-xor") || key == sb("shift") {
                    match hex_field(v) {
                        None => Err(key + sb(" is not hexadecimal: ") + v),
                        Some(x) =>
                            if key == sb("post-shift") { Ok(RowV { post_shift: x, ..r }) }
                            else if key == sb("post-or") { Ok(RowV { post_or: x, ..r }) }
                            else if key == sb("page-mask") || key == sb("valid-mask") || key == sb("field-mask") { Ok(RowV { or: x, ..r }) }
                            else if key == sb("set-bits") || key == sb("opcode-xor") { Ok(RowV { shift: x, ..r }) }
                            else if x > 0x0F { Err(sb("shift is a count of 0..15")) }
                            else { Ok(RowV { shift: (r.shift & 0xF0) | x, ..r }) },
                    }
                } else if key == sb("invert") {
                    if v == sb("yes") { Ok(RowV { shift: r.shift | 0x80, ..r }) }
                    else if v == sb("no") { Ok(r) }
                    else { Err(sb("invert takes yes or no")) }
                } else { Ok(r) };
            match step { Err(m) => Err(m), Ok(r2) => params_spec(r2, f, k + 1, rule_text, classes) }
        }
    }
}

pub open spec fn dec_text(n: int) -> Seq<u8> { dec_digits(n as nat) }

/// The row a line of the current format describes, or the message refusing it.
pub open spec fn row_spec(body: Seq<u8>, cols: Seq<Seq<u8>>, classes: Seq<(Seq<u8>, u32)>) -> Result<RowV, Seq<u8>> {
    let f = fields(body);
    let n = cols.len() as int;
    if f.len() < n {
        Err(sb("expected ") + dec_text(n) + sb(" columns, found ") + dec_text(f.len() as int))
    } else if bad_extra(f, n) < f.len() {
        Err(sb("expected ") + dec_text(n) + sb(" columns, found extra field ") + f[bad_extra(f, n)])
    } else {
        let mn = col(f, cols, sb("mnemonic"));
        let ops = col(f, cols, sb("operands"));
        let oc = col(f, cols, sb("opcode"));
        let obt = col(f, cols, sb("op-bytes"));
        let abt = col(f, cols, sb("arg-bytes"));
        let rt = col(f, cols, sb("rule"));
        match hex_field(oc) {
            None => Err(sb("opcode is not hexadecimal: ") + oc),
            Some(opcode) => match dec_field(obt) {
                Some(ob) if 1 <= ob <= 4 =>
                    if oc.len() != ob * 2 {
                        Err(sb("op-bytes ") + dec_text(ob as int) + sb(" disagrees with a ") + dec_text(oc.len() as int)
                            + sb("-digit opcode ") + oc)
                    } else {
                        match dec_field(abt) {
                            Some(ab) if ab <= 8 => match rule_named(rt) {
                                None => Err(sb("unknown rule ") + rt),
                                Some(rule) => match pattern_spec(ops) {
                                    Err(m) => Err(m),
                                    Ok(args) => params_spec(RowV {
                                        mnemonic: upper_seq(mn), args, opcode, opcode_bytes: ob as u8,
                                        arg_bytes: ab as u8, rule, class: 1, shift: 0, or: 0,
                                        post_shift: 0, post_or: 0, short_count: false,
                                    }, f, n, rt, classes),
                                },
                            },
                            _ => Err(sb("arg-bytes must be 0..8, found ") + abt),
                        }
                    },
                _ => Err(sb("op-bytes must be 1..4, found ") + obt),
            },
        }
    }
}

fn push_str(out: &mut Vec<u8>, s: &str)
    ensures final(out)@ == old(out)@ + sb(s),
{
    push_all(out, s.as_bytes());
}

fn syntax(line: usize, m: Vec<u8>) -> (r: LoadError)
    ensures r matches LoadError::Syntax(l, w) && l == line && w@ == m@,
{
    LoadError::Syntax(line, m)
}

fn col_exec(f: &Vec<Vec<u8>>, cols: &Vec<Vec<u8>>, name: &str) -> (r: Vec<u8>)
    ensures r@ == col(f@.map_values(|v: Vec<u8>| v@), cols@.map_values(|v: Vec<u8>| v@), sb(name)),
{
    let ghost cv = cols@.map_values(|v: Vec<u8>| v@);
    let ghost fv = f@.map_values(|v: Vec<u8>| v@);
    let mut i: usize = 0;
    while i < cols.len() && !eq_str(cols[i].as_slice(), name)
        invariant i <= cols.len(), cv == cols@.map_values(|v: Vec<u8>| v@),
            col_index(cv, sb(name), i as int) == col_index(cv, sb(name), 0),
        decreases cols.len() - i,
    {
        i += 1;
    }
    if i < cols.len() && i < f.len() {
        let r = slice_vec(f[i].as_slice(), 0, f[i].len());
        assert(f@[i as int]@.subrange(0, f@[i as int]@.len() as int) =~= f@[i as int]@);
        r
    } else {
        Vec::new()
    }
}

fn set_params(r: &mut Row, f: &Vec<Vec<u8>>, from: usize, rule_text: &[u8], classes: &Vec<(Vec<u8>, u32)>) -> (res: Result<(), Vec<u8>>)
    ensures
        match params_spec(old(r)@, f@.map_values(|v: Vec<u8>| v@), from as int, rule_text@,
            classes@.map_values(|c: (Vec<u8>, u32)| (c.0@, c.1))) {
            Ok(rv) => res is Ok && final(r)@ == rv,
            Err(m) => res matches Err(w) && w@ == m,
        },
{
    let ghost fv = f@.map_values(|v: Vec<u8>| v@);
    let ghost cv = classes@.map_values(|c: (Vec<u8>, u32)| (c.0@, c.1));
    let ghost total = params_spec(r@, fv, from as int, rule_text@, cv);
    let mut k = from;
    if k > f.len() { k = f.len(); }
    assert(params_spec(r@, fv, k as int, rule_text@, cv) == total);
    while k < f.len()
        invariant k <= f.len(), fv == f@.map_values(|v: Vec<u8>| v@),
            cv == classes@.map_values(|c: (Vec<u8>, u32)| (c.0@, c.1)),
            total == params_spec(old(r)@, fv, from as int, rule_text@, cv),
            params_spec(r@, fv, k as int, rule_text@, cv) == total,
        decreases f.len() - k,
    {
        let (key, v, _) = split_kv(f[k].as_slice());
        assert(f@[k as int]@ == fv[k as int]);
        if !reads_param(r.rule, key.as_slice()) {
            let mut m: Vec<u8> = Vec::new();
            push_str(&mut m, "rule ");
            push_all(&mut m, rule_text);
            push_str(&mut m, " has no parameter ");
            push_all(&mut m, key.as_slice());
            return Err(m);
        }
        if eq_str(key.as_slice(), "class") {
            match resolve_class(v.as_slice(), classes) {
                Some(c) => { r.class = c; }
                None => { return Err(msg2("unknown class ", v.as_slice())); }
            }
        } else if eq_str(key.as_slice(), "post-shift") || eq_str(key.as_slice(), "post-or")
            || eq_str(key.as_slice(), "page-mask") || eq_str(key.as_slice(), "valid-mask")
            || eq_str(key.as_slice(), "field-mask") || eq_str(key.as_slice(), "set-bits")
            || eq_str(key.as_slice(), "opcode-xor") || eq_str(key.as_slice(), "shift") {
            match hex_val(v.as_slice()) {
                None => {
                    let mut m: Vec<u8> = Vec::new();
                    push_all(&mut m, key.as_slice());
                    push_str(&mut m, " is not hexadecimal: ");
                    push_all(&mut m, v.as_slice());
                    return Err(m);
                }
                Some(x) => {
                    if eq_str(key.as_slice(), "post-shift") { r.post_shift = x; }
                    else if eq_str(key.as_slice(), "post-or") { r.post_or = x; }
                    else if eq_str(key.as_slice(), "page-mask") || eq_str(key.as_slice(), "valid-mask")
                        || eq_str(key.as_slice(), "field-mask") { r.or = x; }
                    else if eq_str(key.as_slice(), "set-bits") || eq_str(key.as_slice(), "opcode-xor") { r.shift = x; }
                    else if x > 0x0F {
                        let mut m: Vec<u8> = Vec::new();
                        push_str(&mut m, "shift is a count of 0..15");
                        return Err(m);
                    }
                    else { r.shift = (r.shift & 0xF0) | x; }
                }
            }
        } else if eq_str(key.as_slice(), "invert") {
            if eq_str(v.as_slice(), "yes") { r.shift = r.shift | 0x80; }
            else if eq_str(v.as_slice(), "no") { }
            else {
                let mut m: Vec<u8> = Vec::new();
                push_str(&mut m, "invert takes yes or no");
                return Err(m);
            }
        }
        k += 1;
    }
    Ok(())
}

/// Parse one row of the current format against the declared columns.
fn row(line: usize, body: &[u8], cols: &Vec<Vec<u8>>, classes: &Vec<(Vec<u8>, u32)>) -> (r: Result<Row, LoadError>)
    ensures
        match row_spec(body@, cols@.map_values(|v: Vec<u8>| v@), classes@.map_values(|c: (Vec<u8>, u32)| (c.0@, c.1))) {
            Ok(rv) => r matches Ok(x) && x@ == rv,
            Err(m) => r matches Err(LoadError::Syntax(l, w)) && l == line && w@ == m,
        },
{
    let f = split_fields(body);
    let ghost fv = fields(body@);
    let n = cols.len();
    if f.len() < n {
        let mut m: Vec<u8> = Vec::new();
        push_str(&mut m, "expected ");
        push_dec(&mut m, n as u64);
        push_str(&mut m, " columns, found ");
        push_dec(&mut m, f.len() as u64);
        return Err(syntax(line, m));
    }
    let mut b = n;
    while b < f.len() && split_kv(f[b].as_slice()).2
        invariant n <= b <= f.len(), fv == f@.map_values(|v: Vec<u8>| v@),
            bad_extra(fv, b as int) == bad_extra(fv, n as int),
        decreases f.len() - b,
    {
        assert(f@[b as int]@ == fv[b as int]);
        b += 1;
    }
    proof { if b < f.len() { assert(f@[b as int]@ == fv[b as int]); } }
    if b < f.len() {
        let mut m: Vec<u8> = Vec::new();
        push_str(&mut m, "expected ");
        push_dec(&mut m, n as u64);
        push_str(&mut m, " columns, found extra field ");
        push_all(&mut m, f[b].as_slice());
        return Err(syntax(line, m));
    }
    let mn = col_exec(&f, cols, "mnemonic");
    let ops = col_exec(&f, cols, "operands");
    let oc = col_exec(&f, cols, "opcode");
    let obt = col_exec(&f, cols, "op-bytes");
    let abt = col_exec(&f, cols, "arg-bytes");
    let rt = col_exec(&f, cols, "rule");
    let opcode = match hex_val(oc.as_slice()) {
        Some(v) => v,
        None => { return Err(syntax(line, msg2("opcode is not hexadecimal: ", oc.as_slice()))); }
    };
    let ob: u32 = match dec_val(obt.as_slice()) {
        Some(v) => if 1 <= v && v <= 4 { v } else {
            return Err(syntax(line, msg2("op-bytes must be 1..4, found ", obt.as_slice())));
        },
        None => { return Err(syntax(line, msg2("op-bytes must be 1..4, found ", obt.as_slice()))); }
    };
    if oc.len() != ob as usize * 2 {
        let mut m: Vec<u8> = Vec::new();
        push_str(&mut m, "op-bytes ");
        push_dec(&mut m, ob as u64);
        push_str(&mut m, " disagrees with a ");
        push_dec(&mut m, oc.len() as u64);
        push_str(&mut m, "-digit opcode ");
        push_all(&mut m, oc.as_slice());
        return Err(syntax(line, m));
    }
    let ab: u32 = match dec_val(abt.as_slice()) {
        Some(v) => if v <= 8 { v } else {
            return Err(syntax(line, msg2("arg-bytes must be 0..8, found ", abt.as_slice())));
        },
        None => { return Err(syntax(line, msg2("arg-bytes must be 0..8, found ", abt.as_slice()))); }
    };
    let rule = match rule_for(rt.as_slice()) {
        Some(r) => r,
        None => { return Err(syntax(line, msg2("unknown rule ", rt.as_slice()))); }
    };
    let args = match pattern(line, ops.as_slice()) {
        Ok(p) => p,
        Err(e) => { return Err(e); }
    };
    let mut r = Row {
        mnemonic: to_upper(mn.as_slice()),
        args,
        opcode,
        opcode_bytes: ob as u8,
        arg_bytes: ab as u8,
        rule,
        class: 1,
        shift: 0,
        or: 0,
        post_shift: 0,
        post_or: 0,
        short_count: false,
    };
    match set_params(&mut r, &f, n, rt.as_slice(), classes) {
        Ok(()) => Ok(r),
        Err(m) => Err(syntax(line, m)),
    }
}

// --- tables -------------------------------------------------------------------

/// The state of a table being read: the table, the declared columns, the
/// named classes, and whether `%format 2` was seen.
pub struct V2State {
    pub t: TableV,
    pub columns: Option<Seq<Seq<u8>>>,
    pub classes: Seq<(Seq<u8>, u32)>,
    pub seen: bool,
    /// The line each row was read from.
    pub lines: Seq<int>,
}

/// Why a table in the current format was refused.
pub enum V2Fail {
    Syntax(int, Seq<u8>),
    TooManyRows,
    TooManyRegsets,
}

pub open spec fn is_pow2(v: u32) -> bool {
    v >= 1 && v & ((v - 1) as u32) == 0
}

pub open spec fn is_column(c: Seq<u8>) -> bool {
    c == sb("mnemonic") || c == sb("operands") || c == sb("opcode") || c == sb("op-bytes")
        || c == sb("arg-bytes") || c == sb("rule")
}

/// The first of `args` from `i` that is not a column name, or the count.
pub open spec fn bad_column(args: Seq<Seq<u8>>, i: int) -> int
    decreases args.len() - i,
{
    if i < 0 || i >= args.len() { args.len() as int } else if !is_column(args[i]) { i } else { bad_column(args, i + 1) }
}

/// The `key=value` parameters of a `%regset` from `i` on.
pub open spec fn regset_params(args: Seq<Seq<u8>>, i: int, mask: u32, class: u32,
    classes: Seq<(Seq<u8>, u32)>) -> Result<(u32, u32), Seq<u8>>
    decreases args.len() - i,
{
    if i < 0 || i >= args.len() { Ok((mask, class)) } else {
        let a = args[i];
        if first_eq(a, 0) >= a.len() { Err(sb("%regset: expected key=value, got ") + a) }
        else {
            let k = key_of_kv(a);
            let v = val_of_kv(a);
            if k == sb("mask") {
                match hex_field(v) { Some(m) => regset_params(args, i + 1, m, class, classes), None => Err(sb("bad mask")) }
            } else if k == sb("class") {
                match class_value(v, classes, 0) {
                    Some(c) => regset_params(args, i + 1, mask, c, classes),
                    None => Err(sb("unknown class ") + v),
                }
            } else { Err(sb("%regset has no parameter ") + k) }
        }
    }
}

pub open spec fn columns_message() -> Seq<u8> {
    sb("%columns needs exactly 6: [\"mnemonic\", \"operands\", \"opcode\", \"op-bytes\", \"arg-bytes\", \"rule\"]")
}

/// What one `%` directive line does.
pub open spec fn v2_directive(st: V2State, line: int, body: Seq<u8>) -> Result<V2State, V2Fail> {
    let rest = body.subrange(1, body.len() as int);
    let fs = fields(rest);
    let name = crate::table::field_or_empty(fs, 0);
    let args = if fs.len() > 0 { fs.subrange(1, fs.len() as int) } else { Seq::empty() };
    let a0 = crate::table::field_or_empty(args, 0);
    let t = st.t;
    if name == sb("format") {
        if dec_field(a0) == Some(2u32) { Ok(V2State { seen: true, ..st }) }
        else { Err(V2Fail::Syntax(line, sb("only %format 2 is supported"))) }
    } else if name == sb("banner") {
        match unquote(trim(rest.subrange(name.len() as int, rest.len() as int))) {
            Some(b) => Ok(V2State { t: TableV { banner: b, ..t }, ..st }),
            None => Err(V2Fail::Syntax(line, sb("%banner needs a double-quoted string"))),
        }
    } else if name == sb("opcode-order") {
        if a0 == sb("ls-first") { Ok(V2State { t: TableV { msfirst: false, ..t }, ..st }) }
        else if a0 == sb("ms-first") { Ok(V2State { t: TableV { msfirst: true, ..t }, ..st }) }
        else { Err(V2Fail::Syntax(line, sb("%opcode-order takes ls-first or ms-first"))) }
    } else if name == sb("address-unit") {
        if a0 == sb("byte") { Ok(V2State { t: TableV { wordaddrs: false, ..t }, ..st }) }
        else if a0 == sb("word") { Ok(V2State { t: TableV { wordaddrs: true, ..t }, ..st }) }
        else { Err(V2Fail::Syntax(line, sb("%address-unit takes byte or word"))) }
    } else if name == sb("aux-registers") {
        match dec_field(a0) {
            Some(v) if is_pow2(v) => Ok(V2State { t: TableV { aux_registers: v, ..t }, ..st }),
            _ => Err(V2Fail::Syntax(line, sb("%aux-registers takes a power of two"))),
        }
    } else if name == sb("class") {
        match hex_field(a0) {
            Some(bit) if args.len() > 1 => Ok(V2State { classes: st.classes.push((args[1], bit)), ..st }),
            _ => Err(V2Fail::Syntax(line, sb("%class takes a hex bit and a name"))),
        }
    } else if name == sb("regset") {
        if t.regsets.len() >= MAX_REGSETS { Err(V2Fail::TooManyRegsets) }
        else {
            match unquote(a0) {
                None => Err(V2Fail::Syntax(line, sb("%regset needs a double-quoted name"))),
                Some(nm) => match regset_params(args, 1, 0, 1, st.classes) {
                    Err(m) => Err(V2Fail::Syntax(line, m)),
                    Ok(mc) => Ok(V2State { t: TableV { regsets: t.regsets.push(RegSetV { name: nm, mask: mc.0, class: mc.1 }), ..t }, ..st }),
                },
            }
        }
    } else if name == sb("columns") {
        if args.len() != 6 { Err(V2Fail::Syntax(line, columns_message())) }
        else if bad_column(args, 0) < args.len() { Err(V2Fail::Syntax(line, sb("unknown column ") + args[bad_column(args, 0)])) }
        else { Ok(V2State { columns: Some(args), ..st }) }
    } else {
        Err(V2Fail::Syntax(line, sb("unknown directive %") + name))
    }
}

/// What one nonempty line does.
pub open spec fn v2_line(st: V2State, line: int, body: Seq<u8>) -> Result<V2State, V2Fail> {
    if body[0] == 0x25 { v2_directive(st, line, body) }
    else if !st.seen { Err(V2Fail::Syntax(line, sb("table must open with %format 2"))) }
    else {
        match st.columns {
            None => Err(V2Fail::Syntax(line, sb("a row appeared before %columns"))),
            Some(cols) => if st.t.rows.len() >= MAX_TABLE_ROWS { Err(V2Fail::TooManyRows) }
                else {
                    match row_spec(body, cols, st.classes) {
                        Err(m) => Err(V2Fail::Syntax(line, m)),
                        Ok(r) => Ok(V2State { t: TableV { rows: st.t.rows.push(r), ..st.t }, lines: st.lines.push(line), ..st }),
                    }
                },
        }
    }
}

/// A line with its comment and surrounding white space removed.
pub open spec fn v2_body(text: Seq<u8>, i: int) -> Seq<u8> {
    trim(strip_comment_spec(line_body(text, i)))
}

/// The lines from byte `i`, the `n`-th line (counted from zero), on.
pub open spec fn v2_from(st: V2State, text: Seq<u8>, i: int, n: int) -> Result<V2State, V2Fail>
    decreases text.len() - i,
{
    if i < 0 || i >= text.len() || next_line(text, i) <= i { Ok(st) }
    else {
        let body = v2_body(text, i);
        if body.len() == 0 { v2_from(st, text, next_line(text, i), n + 1) }
        else {
            match v2_line(st, n + 1, body) {
                Err(e) => Err(e),
                Ok(st2) => v2_from(st2, text, next_line(text, i), n + 1),
            }
        }
    }
}

/// Row `i` repeats an earlier row's mnemonic and pattern in a shared class.
pub open spec fn repeats(rows: Seq<RowV>, i: int) -> bool {
    exists|j: int| 0 <= j < i && #[trigger] rows[j].mnemonic == rows[i].mnemonic
        && rows[j].args == rows[i].args && rows[i].class & rows[j].class != 0
}

/// The first row from `i` that can never match, if any.
pub open spec fn first_repeat(rows: Seq<RowV>, i: int) -> Option<int>
    decreases rows.len() - i,
{
    if i < 0 || i >= rows.len() { None } else if repeats(rows, i) { Some(i) } else { first_repeat(rows, i + 1) }
}

pub open spec fn v2_start(selector: Seq<u8>) -> V2State {
    V2State {
        t: TableV { regmark: REG, wildcard: EXPR, noargshift: true, ..new_table(selector) },
        columns: None, classes: Seq::empty(), seen: false, lines: Seq::empty(),
    }
}

/// The table a text in the current format describes, or why it is refused.
pub open spec fn parse_spec(text: Seq<u8>, selector: Seq<u8>) -> Result<TableV, V2Fail> {
    match v2_from(v2_start(selector), text, 0, 0) {
        Err(e) => Err(e),
        Ok(st) => v2_finish(st),
    }
}

/// The limits a table in the current format is read within.
pub open spec fn within_limits(t: TableV) -> bool {
    t.rows.len() <= MAX_TABLE_ROWS && t.regsets.len() <= MAX_REGSETS
}

proof fn lemma_v2_line_limits(st: V2State, line: int, body: Seq<u8>)
    requires within_limits(st.t), body.len() > 0,
    ensures v2_line(st, line, body) matches Ok(st2) ==> within_limits(st2.t),
{
}

proof fn lemma_v2_from_limits(st: V2State, text: Seq<u8>, i: int, n: int)
    requires within_limits(st.t),
    ensures v2_from(st, text, i, n) matches Ok(st2) ==> within_limits(st2.t),
    decreases text.len() - i,
{
    if !(i < 0 || i >= text.len() || next_line(text, i) <= i) {
        let body = v2_body(text, i);
        if body.len() == 0 {
            lemma_v2_from_limits(st, text, next_line(text, i), n + 1);
        } else {
            lemma_v2_line_limits(st, n + 1, body);
            match v2_line(st, n + 1, body) {
                Err(e) => {}
                Ok(st2) => { lemma_v2_from_limits(st2, text, next_line(text, i), n + 1); }
            }
        }
    }
}

/// Every table that a text in the current format gives holds at most 1200
/// rows and 32 register sets: the reader refuses the row or register set
/// beyond either limit.
pub proof fn lemma_parse_within_limits(text: Seq<u8>, selector: Seq<u8>)
    ensures parse_spec(text, selector) matches Ok(t) ==> within_limits(t),
{
    lemma_v2_from_limits(v2_start(selector), text, 0, 0);
}

/// The table once every line is read: refused without `%format 2`, or
/// when a row repeats an earlier pattern, naming that row's line.
pub open spec fn v2_finish(st: V2State) -> Result<TableV, V2Fail> {
    if !st.seen { Err(V2Fail::Syntax(1, sb("table must open with %format 2"))) }
    else {
        match first_repeat(st.t.rows, 0) {
            Some(i) => Err(V2Fail::Syntax(st.lines[i], sb("unreachable row: ") + st.t.rows[i].mnemonic + seq![0x20u8]
                + (if st.t.rows[i].args.len() == 0 { dash() } else { display_spec(st.t.rows[i].args) })
                + sb(" repeats an earlier pattern"))),
            None => Ok(st.t),
        }
    }
}

pub open spec fn fail_matches(r: LoadError, e: V2Fail) -> bool {
    match e {
        V2Fail::Syntax(l, m) => r matches LoadError::Syntax(l2, w) && l2 == l && w@ == m,
        V2Fail::TooManyRows => r is TooManyRows,
        V2Fail::TooManyRegsets => r is TooManyRegsets,
    }
}

pub proof fn lemma_fields_len(s: Seq<u8>, i: int)
    requires 0 <= i <= s.len(),
    ensures forall|k: int| 0 <= k < fields_from_len(s, i) ==> #[trigger] crate::text::fields_from(s, i)[k].len() <= s.len(),
        fields_from_len(s, i) == crate::text::fields_from(s, i).len(),
    decreases s.len() - i,
{
    if i < s.len() {
        crate::text::lemma_skip_ws_bounds(s, i);
        let a = crate::text::skip_ws_from(s, i);
        if a < s.len() {
            crate::text::lemma_field_end_bounds(s, a);
            let b = crate::text::field_end(s, a);
            if b > a && b <= s.len() {
                lemma_fields_len(s, b);
                let rest = crate::text::fields_from(s, b);
                assert forall|k: int| 0 <= k < fields_from_len(s, i) implies #[trigger] crate::text::fields_from(s, i)[k].len() <= s.len() by {
                    if k > 0 { assert(crate::text::fields_from(s, i)[k] == rest[k - 1]); }
                }
            }
        }
    }
}

pub open spec fn fields_from_len(s: Seq<u8>, i: int) -> int {
    crate::text::fields_from(s, i).len() as int
}

fn copy_field(f: &Vec<Vec<u8>>, i: usize) -> (r: Vec<u8>)
    ensures r@ == crate::table::field_or_empty(f@.map_values(|v: Vec<u8>| v@), i as int),
{
    if i < f.len() {
        let r = slice_vec(f[i].as_slice(), 0, f[i].len());
        assert(f@[i as int]@.subrange(0, f@[i as int]@.len() as int) =~= f@[i as int]@);
        r
    } else {
        Vec::new()
    }
}

/// The `key=value` parameters of a `%regset` line's fields.
fn regset_loop(fs: &Vec<Vec<u8>>, classes: &Vec<(Vec<u8>, u32)>) -> (r: Result<(u32, u32), Vec<u8>>)
    ensures ({
        let fv = vecs_view(fs@);
        let args = if fv.len() > 0 { fv.subrange(1, fv.len() as int) } else { Seq::<Seq<u8>>::empty() };
        match regset_params(args, 1, 0, 1, classes_view(classes@)) {
            Ok(mc) => r == Ok::<(u32, u32), Vec<u8>>(mc),
            Err(m) => r matches Err(w) && w@ == m,
        }
    }),
{
    let ghost fv = vecs_view(fs@);
    let ghost args = if fv.len() > 0 { fv.subrange(1, fv.len() as int) } else { Seq::<Seq<u8>>::empty() };
    let ghost cv = classes_view(classes@);
    let ghost total = regset_params(args, 1, 0, 1, cv);
    let mut mask: u32 = 0;
    let mut class: u32 = 1;
    let mut k: usize = 2;
    if fs.len() < 2 {
        return Ok((0, 1));
    }
    while k < fs.len()
        invariant 2 <= k <= fs.len(),
            fv == vecs_view(fs@), args == fv.subrange(1, fv.len() as int),
            cv == classes_view(classes@),
            regset_params(args, k - 1, mask, class, cv) == total,
            total == regset_params(args, 1, 0, 1, cv),
        decreases fs.len() - k,
    {
        assert(fs@[k as int]@ == args[k - 1]);
        let (key, v, with_eq) = split_kv(fs[k].as_slice());
        if !with_eq {
            return Err(msg2("%regset: expected key=value, got ", fs[k].as_slice()));
        }
        if eq_str(key.as_slice(), "mask") {
            match hex_val(v.as_slice()) {
                Some(m) => { mask = m; }
                None => { return Err(msg0("bad mask")); }
            }
        } else if eq_str(key.as_slice(), "class") {
            match resolve_class(v.as_slice(), classes) {
                Some(c) => { class = c; }
                None => { return Err(msg2("unknown class ", v.as_slice())); }
            }
        } else {
            return Err(msg2("%regset has no parameter ", key.as_slice()));
        }
        k += 1;
    }
    Ok((mask, class))
}

/// The six declared columns of a `%columns` line's fields.
fn columns_loop(fs: &Vec<Vec<u8>>) -> (r: Result<Vec<Vec<u8>>, Vec<u8>>)
    requires fs.len() == 7,
    ensures ({
        let args = vecs_view(fs@).subrange(1, 7);
        if bad_column(args, 0) < args.len() {
            r matches Err(w) && w@ == sb("unknown column ") + args[bad_column(args, 0)]
        } else {
            r matches Ok(c) && vecs_view(c@) == args
        }
    }),
{
    let ghost fv = vecs_view(fs@);
    let ghost args = fv.subrange(1, 7);
    let mut cols: Vec<Vec<u8>> = Vec::new();
    let mut k: usize = 1;
    while k < fs.len()
        invariant 1 <= k <= fs.len(), fs.len() == 7, fv == vecs_view(fs@),
            args == fv.subrange(1, 7),
            vecs_view(cols@) == args.subrange(0, k - 1),
            bad_column(args, k - 1) == bad_column(args, 0),
        decreases fs.len() - k,
    {
        let c = copy_field(fs, k);
        assert(c@ == args[k - 1]);
        if !(eq_str(c.as_slice(), "mnemonic") || eq_str(c.as_slice(), "operands")
            || eq_str(c.as_slice(), "opcode") || eq_str(c.as_slice(), "op-bytes")
            || eq_str(c.as_slice(), "arg-bytes") || eq_str(c.as_slice(), "rule")) {
            return Err(msg2("unknown column ", c.as_slice()));
        }
        let ghost before = vecs_view(cols@);
        cols.push(c);
        assert(vecs_view(cols@) =~= before.push(args[k - 1]));
        assert(vecs_view(cols@) =~= args.subrange(0, k as int));
        k += 1;
    }
    assert(args.subrange(0, 6) =~= args);
    Ok(cols)
}

struct Reader {
    t: Table,
    columns: Option<Vec<Vec<u8>>>,
    classes: Vec<(Vec<u8>, u32)>,
    seen: bool,
    lines: Vec<usize>,
}

pub open spec fn vecs_view(v: Seq<Vec<u8>>) -> Seq<Seq<u8>> {
    v.map_values(|x: Vec<u8>| x@)
}

pub open spec fn classes_view(v: Seq<(Vec<u8>, u32)>) -> Seq<(Seq<u8>, u32)> {
    v.map_values(|c: (Vec<u8>, u32)| (c.0@, c.1))
}

impl Reader {
    spec fn v(&self) -> V2State {
        V2State {
            t: self.t@,
            columns: match self.columns { Some(c) => Some(vecs_view(c@)), None => None },
            classes: classes_view(self.classes@),
            seen: self.seen,
            lines: self.lines@.map_values(|l: usize| l as int),
        }
    }

    /// Add a row read from `line`.
    fn add_row(&mut self, x: Row, line: usize)
        requires old(self).lines@.len() == old(self).t.rows@.len(),
        ensures
            final(self).v() == (V2State { t: TableV { rows: old(self).v().t.rows.push(x@), ..old(self).v().t },
                lines: old(self).v().lines.push(line as int), ..old(self).v() }),
            final(self).lines@.len() == final(self).t.rows@.len(),
    {
        let ghost before = self.t@.rows;
        let ghost lbefore = self.lines@.map_values(|l: usize| l as int);
        let ghost xv = x@;
        self.t.rows.push(x);
        self.lines.push(line);
        assert(self.t@.rows =~= before.push(xv));
        assert(self.lines@.map_values(|l: usize| l as int) =~= lbefore.push(line as int));
    }

    fn directive(&mut self, line: usize, body: &[u8]) -> (r: Result<(), LoadError>)
        requires body.len() >= 1,
        ensures match v2_directive(old(self).v(), line as int, body@) {
            Ok(st) => r is Ok && final(self).v() == st,
            Err(e) => r matches Err(x) && fail_matches(x, e),
        },
            final(self).lines@ == old(self).lines@, final(self).t.rows@.len() == old(self).t.rows@.len(),
    {
        let rest = slice_vec(body, 1, body.len());
        let fs = split_fields(rest.as_slice());
        let ghost fv = fields(rest@);
        proof { lemma_fields_len(rest@, 0); }
        let ghost args = if fv.len() > 0 { fv.subrange(1, fv.len() as int) } else { Seq::<Seq<u8>>::empty() };
        let name = copy_field(&fs, 0);
        let a0 = copy_field(&fs, 1);
        assert(a0@ == crate::table::field_or_empty(args, 0));
        let nargs: usize = if fs.len() > 0 { fs.len() - 1 } else { 0 };
        if eq_str(name.as_slice(), "format") {
            if dec_val(a0.as_slice()) == Some(2u32) {
                self.seen = true;
                return Ok(());
            }
            return Err(syntax(line, msg0("only %format 2 is supported")));
        } else if eq_str(name.as_slice(), "banner") {
            assert(name@.len() <= rest@.len()) by { if fv.len() > 0 { assert(fv[0].len() <= rest@.len()); } }
            let tail = slice_vec(rest.as_slice(), name.len(), rest.len());
            let joined = trim_bytes(tail.as_slice());
            match quoted(joined.as_slice()) {
                Some(b) => { self.t.banner = b; return Ok(()); }
                None => { return Err(syntax(line, msg0("%banner needs a double-quoted string"))); }
            }
        } else if eq_str(name.as_slice(), "opcode-order") {
            if eq_str(a0.as_slice(), "ls-first") { self.t.msfirst = false; return Ok(()); }
            if eq_str(a0.as_slice(), "ms-first") { self.t.msfirst = true; return Ok(()); }
            return Err(syntax(line, msg0("%opcode-order takes ls-first or ms-first")));
        } else if eq_str(name.as_slice(), "address-unit") {
            if eq_str(a0.as_slice(), "byte") { self.t.wordaddrs = false; return Ok(()); }
            if eq_str(a0.as_slice(), "word") { self.t.wordaddrs = true; return Ok(()); }
            return Err(syntax(line, msg0("%address-unit takes byte or word")));
        } else if eq_str(name.as_slice(), "aux-registers") {
            match dec_val(a0.as_slice()) {
                Some(v) => if v >= 1 && v & (v - 1) == 0 {
                    self.t.aux_registers = v;
                    return Ok(());
                },
                None => {}
            }
            return Err(syntax(line, msg0("%aux-registers takes a power of two")));
        } else if eq_str(name.as_slice(), "class") {
            match hex_val(a0.as_slice()) {
                Some(bit) => if nargs > 1 {
                    let nm = copy_field(&fs, 2);
                    assert(nm@ == args[1]);
                    let ghost before = classes_view(self.classes@);
                    self.classes.push((nm, bit));
                    assert(classes_view(self.classes@) =~= before.push((args[1], bit)));
                    return Ok(());
                },
                None => {}
            }
            return Err(syntax(line, msg0("%class takes a hex bit and a name")));
        } else if eq_str(name.as_slice(), "regset") {
            if self.t.regsets.len() >= MAX_REGSETS {
                return Err(LoadError::TooManyRegsets);
            }
            let nm = match quoted(a0.as_slice()) {
                Some(v) => v,
                None => { return Err(syntax(line, msg0("%regset needs a double-quoted name"))); }
            };
            let (mask, class) = match regset_loop(&fs, &self.classes) {
                Ok(mc) => mc,
                Err(m) => { return Err(syntax(line, m)); }
            };
            let rs = RegSet { name: nm, mask, class };
            let ghost before = self.t@.regsets;
            self.t.regsets.push(rs);
            assert(self.t@.regsets =~= before.push(rs@));
            return Ok(());
        } else if eq_str(name.as_slice(), "columns") {
            if nargs != 6 {
                let ghost cm = columns_message();
                let m = msg0("%columns needs exactly 6: [\"mnemonic\", \"operands\", \"opcode\", \"op-bytes\", \"arg-bytes\", \"rule\"]");
                return Err(syntax(line, m));
            }
            let cols = match columns_loop(&fs) {
                Ok(c) => c,
                Err(m) => { return Err(syntax(line, m)); }
            };
            self.columns = Some(cols);
            return Ok(());
        } else {
            return Err(syntax(line, msg2("unknown directive %", name.as_slice())));
        }
    }
}

/// Whether row `i` repeats an earlier one.
fn repeats_exec(rows: &Vec<Row>, i: usize) -> (r: bool)
    requires i < rows.len(),
    ensures r == repeats(rows@.map_values(|x: Row| x@), i as int),
{
    let ghost rv = rows@.map_values(|x: Row| x@);
    let mut j: usize = 0;
    while j < i
        invariant j <= i < rows.len(), rv == rows@.map_values(|x: Row| x@),
            forall|q: int| 0 <= q < j ==> !(#[trigger] rv[q].mnemonic == rv[i as int].mnemonic
                && rv[q].args == rv[i as int].args && rv[i as int].class & rv[q].class != 0),
        decreases i - j,
    {
        if bytes_eq(rows[i].mnemonic.as_slice(), rows[j].mnemonic.as_slice())
            && bytes_eq(rows[i].args.as_slice(), rows[j].args.as_slice())
            && rows[i].class & rows[j].class != 0 {
            assert(rv[j as int].mnemonic == rv[i as int].mnemonic);
            return true;
        }
        j += 1;
    }
    false
}

/// The message for the first row that repeats an earlier one, if any.
fn check_repeats(rows: &Vec<Row>) -> (r: Option<(usize, Vec<u8>)>)
    ensures ({
        let rv = rows@.map_values(|x: Row| x@);
        match first_repeat(rv, 0) {
            Some(i) => r matches Some((k, m)) && k == i && m@ == sb("unreachable row: ") + rv[i].mnemonic + seq![0x20u8]
                + (if rv[i].args.len() == 0 { dash() } else { display_spec(rv[i].args) })
                + sb(" repeats an earlier pattern"),
            None => r is None,
        }
    }),
        r matches Some((k, _)) ==> k < rows.len(),
{
    let ghost rv = rows@.map_values(|x: Row| x@);
    let mut k: usize = 0;
    while k < rows.len()
        invariant k <= rows.len(), rv == rows@.map_values(|x: Row| x@),
            first_repeat(rv, 0) == first_repeat(rv, k as int),
        decreases rows.len() - k,
    {
        if repeats_exec(rows, k) {
            let mut m: Vec<u8> = Vec::new();
            push_str(&mut m, "unreachable row: ");
            push_all(&mut m, rows[k].mnemonic.as_slice());
            m.push(0x20);
            let d = display(rows[k].args.as_slice());
            push_all(&mut m, d.as_slice());
            push_str(&mut m, " repeats an earlier pattern");
            return Some((k, m));
        }
        k += 1;
    }
    None
}

/// Read a table in the current format. Everything the legacy format accepts
/// silently that is wrong is an error naming its line: a row before
/// `%format 2` or `%columns`, a missing or extra column, a byte count that
/// disagrees with the opcode, an unknown rule or parameter, and a row that
/// repeats an earlier pattern and so can never match.
#[verifier::spinoff_prover]
#[verifier::rlimit(100)]
pub fn parse(text: &[u8], selector: &[u8]) -> (r: Result<Table, LoadError>)
    ensures match parse_spec(text@, selector@) {
        Ok(tv) => r matches Ok(t) && t@ == tv,
        Err(e) => r matches Err(x) && fail_matches(x, e),
    },
{
    let mut t = Table::new(selector);
    t.regmark = REG;
    t.wildcard = EXPR;
    t.noargshift = true;
    let mut rd = Reader { t, columns: None, classes: Vec::new(), seen: false, lines: Vec::new() };
    assert(classes_view(rd.classes@) =~= Seq::<(Seq<u8>, u32)>::empty());
    assert(rd.lines@.map_values(|l: usize| l as int) =~= Seq::<int>::empty());
    assert(rd.v().t == v2_start(selector@).t);
    assert(rd.v() =~= v2_start(selector@));
    let ghost total = v2_from(v2_start(selector@), text@, 0, 0);
    let mut i: usize = 0;
    let mut n: usize = 0;
    while i < text.len()
        invariant i <= text.len(), n <= i,
            total == v2_from(v2_start(selector@), text@, 0, 0),
            total == v2_from(rd.v(), text@, i as int, n as int),
            rd.lines@.len() == rd.t.rows@.len(),
        decreases text.len() - i,
    {
        let (lb, next) = read_line(text, i);
        let sc = strip_comment(lb.as_slice());
        let body = trim_bytes(sc.as_slice());
        assert(body@ == v2_body(text@, i as int));
        if body.len() > 0 {
            if body[0] == 0x25 {
                match rd.directive(n + 1, body.as_slice()) {
                    Ok(()) => {}
                    Err(e) => { return Err(e); }
                }
            } else {
                if !rd.seen {
                    return Err(syntax(n + 1, msg0("table must open with %format 2")));
                }
                match &rd.columns {
                    None => { return Err(syntax(n + 1, msg0("a row appeared before %columns"))); }
                    Some(cols) => {
                        if rd.t.rows.len() >= MAX_TABLE_ROWS {
                            return Err(LoadError::TooManyRows);
                        }
                        match row(n + 1, body.as_slice(), cols, &rd.classes) {
                            Ok(x) => { rd.add_row(x, n + 1); }
                            Err(e) => { return Err(e); }
                        }
                    }
                }
            }
        }
        i = next;
        n += 1;
    }
    assert(total == Ok::<V2State, V2Fail>(rd.v()));
    finish(rd)
}

/// The checks once every line is read.
fn finish(rd: Reader) -> (r: Result<Table, LoadError>)
    requires rd.lines@.len() == rd.t.rows@.len(),
    ensures match v2_finish(rd.v()) {
        Ok(tv) => r matches Ok(t) && t@ == tv,
        Err(e) => r matches Err(x) && fail_matches(x, e),
    },
{
    if !rd.seen {
        return Err(syntax(1, msg0("table must open with %format 2")));
    }
    match check_repeats(&rd.t.rows) {
        Some((k, m)) => {
            assert(rd.v().lines[k as int] == rd.lines@[k as int] as int);
            Err(syntax(rd.lines[k], m))
        }
        None => Ok(rd.t),
    }
}

// --- writing ------------------------------------------------------------------

pub open spec fn hex_up(v: u32) -> Seq<u8> { hex_digits(v as nat, true) }

/// A legacy pattern in the current spelling: wildcard and register mark
/// written as placeholders.
pub open spec fn pat_text(args: Seq<u8>, wild: u8, regmark: u8) -> Seq<u8>
    decreases args.len(),
{
    if args.len() == 0 { Seq::empty() } else {
        pat_text(args.drop_last(), wild, regmark) + (if args.last() == wild { expr_word() }
            else if args.last() == regmark { reg_word() } else { seq![args.last()] })
    }
}

pub open spec fn empty_quotes() -> Seq<u8> { seq![0x22u8, 0x22u8] }

pub open spec fn row_pattern(args: Seq<u8>, wild: u8, regmark: u8) -> Seq<u8> {
    if args.len() == 0 || args == empty_quotes() { dash() } else { pat_text(args, wild, regmark) }
}

pub open spec fn opt(cond: bool, s: Seq<u8>) -> Seq<u8> { if cond { s } else { Seq::empty() } }

pub open spec fn reads_page_mask(r: Rule) -> bool { r is JM }
pub open spec fn reads_shift(r: Rule) -> bool {
    r is T1 || r is TD || r is TL || r is T5 || r is TA || r is T6
}
pub open spec fn reads_valid_mask(r: Rule) -> bool { reads_shift(r) || r is CS || r is CN || r is C5 }
pub open spec fn reads_field_mask(r: Rule) -> bool {
    r is I1 || r is I2 || r is I3 || r is I4 || r is I5 || r is I6 || r is I7 || r is I8
}
pub open spec fn reads_set_bits(r: Rule) -> bool { r is I1 }
pub open spec fn reads_opcode_xor(r: Rule) -> bool { r is I2 }

/// Which of the rule-specific parameters a rule reads: page mask, valid
/// mask, field mask, set bits, opcode xor, shift.
fn rule_params(r: Rule) -> (p: (bool, bool, bool, bool, bool, bool))
    ensures p == (reads_page_mask(r), reads_valid_mask(r), reads_field_mask(r), reads_set_bits(r),
        reads_opcode_xor(r), reads_shift(r)),
{
    match r {
        Rule::JM => (true, false, false, false, false, false),
        Rule::T1 | Rule::TD | Rule::TL | Rule::T5 | Rule::TA | Rule::T6 => (false, true, false, false, false, true),
        Rule::CS | Rule::CN | Rule::C5 => (false, true, false, false, false, false),
        Rule::I1 => (false, false, true, true, false, false),
        Rule::I2 => (false, false, true, false, true, false),
        Rule::I3 | Rule::I4 | Rule::I5 | Rule::I6 | Rule::I7 | Rule::I8 => (false, false, true, false, false, false),
        _ => (false, false, false, false, false, false),
    }
}

pub open spec fn params_mask(r: RowV) -> Seq<u8> {
    if reads_page_mask(r.rule) && r.or != 0 { sb(" page-mask=") + hex_up(r.or) }
    else if reads_valid_mask(r.rule) && r.or != 0 { sb(" valid-mask=") + hex_up(r.or) }
    else if reads_field_mask(r.rule) && r.or != 0 { sb(" field-mask=") + hex_up(r.or) }
    else { Seq::empty() }
}

pub open spec fn params_shift(r: RowV) -> Seq<u8> {
    if reads_set_bits(r.rule) && r.shift != 0 { sb(" set-bits=") + hex_up(r.shift) }
    else if reads_opcode_xor(r.rule) && r.shift != 0 { sb(" opcode-xor=") + hex_up(r.shift) }
    else if reads_shift(r.rule) {
        opt(r.shift & 0x0F != 0, sb(" shift=") + hex_up(r.shift & 0x0F)) + opt(r.shift & 0xF0 != 0, sb(" invert=yes"))
    } else { Seq::empty() }
}

/// The parameters written after a row's rule name.
pub open spec fn row_params(r: RowV) -> Seq<u8> {
    opt(r.class != 1, sb(" class=") + hex_up(r.class)) + params_mask(r) + params_shift(r)
    + opt(r.post_shift != 0, sb(" post-shift=") + hex_up(r.post_shift))
    + opt(r.post_or != 0, sb(" post-or=") + hex_up(r.post_or))
}

pub open spec fn row_head(r: RowV, wild: u8, regmark: u8) -> Seq<u8> {
    r.mnemonic + seq![0x20u8] + row_pattern(r.args, wild, regmark) + seq![0x20u8]
        + hex_pad(r.opcode as nat, r.opcode_bytes * 2, true) + seq![0x20u8]
}

pub open spec fn row_tail(r: RowV) -> Seq<u8> {
    dec_text(r.opcode_bytes as int) + seq![0x20u8] + dec_text(r.arg_bytes as int) + seq![0x20u8]
        + sb(name_of(r.rule)) + row_params(r) + seq![0x0Au8]
}

pub open spec fn row_line(r: RowV, wild: u8, regmark: u8) -> Seq<u8> {
    row_head(r, wild, regmark) + row_tail(r)
}

pub open spec fn rows_text(rows: Seq<RowV>, wild: u8, regmark: u8) -> Seq<u8>
    decreases rows.len(),
{
    if rows.len() == 0 { Seq::empty() } else { rows_text(rows.drop_last(), wild, regmark) + row_line(rows.last(), wild, regmark) }
}

pub open spec fn regset_line(r: RegSetV) -> Seq<u8> {
    sb("%regset         \"") + r.name + sb("\" mask=") + hex_up(r.mask) + sb(" class=") + hex_up(r.class) + sb("\n")
}

pub open spec fn regsets_text(rs: Seq<RegSetV>) -> Seq<u8>
    decreases rs.len(),
{
    if rs.len() == 0 { Seq::empty() } else { regsets_text(rs.drop_last()) + regset_line(rs.last()) }
}

/// A table written in the current format.
pub open spec fn render_spec(t: TableV, banner: Seq<u8>) -> Seq<u8> {
    sb("%format         2\n")
    + sb("%banner         \"") + banner + sb("\"\n")
    + sb("%opcode-order   ") + (if t.msfirst { sb("ms-first") } else { sb("ls-first") }) + sb("\n")
    + sb("%address-unit   ") + (if t.wordaddrs { sb("word") } else { sb("byte") }) + sb("\n")
    + sb("%aux-registers  ") + dec_text(t.aux_registers as int) + sb("\n")
    + regsets_text(t.regsets)
    + sb("%columns        mnemonic operands opcode op-bytes arg-bytes rule\n")
    + rows_text(t.rows, t.wildcard, t.regmark)
}

fn push_hex_up(out: &mut Vec<u8>, v: u32)
    ensures final(out)@ == old(out)@ + hex_up(v),
{
    push_hex(out, v as u64, true);
}

fn push_params_mask(out: &mut Vec<u8>, r: &Row)
    ensures final(out)@ == old(out)@ + params_mask(r@),
{
    let (pm, vm, fm, _sb, _ox, _sh) = rule_params(r.rule);
    if pm && r.or != 0 {
        push_str(out, " page-mask="); push_hex_up(out, r.or);
    } else if vm && r.or != 0 {
        push_str(out, " valid-mask="); push_hex_up(out, r.or);
    } else if fm && r.or != 0 {
        push_str(out, " field-mask="); push_hex_up(out, r.or);
    }
    assert(out@ =~= old(out)@ + params_mask(r@));
}

fn push_params_shift(out: &mut Vec<u8>, r: &Row)
    ensures final(out)@ == old(out)@ + params_shift(r@),
{
    let (_pm, _vm, _fm, sbits, ox, sh) = rule_params(r.rule);
    if sbits && r.shift != 0 {
        push_str(out, " set-bits="); push_hex_up(out, r.shift);
    } else if ox && r.shift != 0 {
        push_str(out, " opcode-xor="); push_hex_up(out, r.shift);
    } else if sh {
        let ghost o0 = out@;
        if r.shift & 0x0F != 0 { push_str(out, " shift="); push_hex_up(out, r.shift & 0x0F); }
        assert(out@ == o0 + opt(r.shift & 0x0F != 0, sb(" shift=") + hex_up(r.shift & 0x0F)));
        if r.shift & 0xF0 != 0 { push_str(out, " invert=yes"); }
    }
    assert(out@ =~= old(out)@ + params_shift(r@));
}

fn push_row_params(out: &mut Vec<u8>, r: &Row)
    ensures final(out)@ == old(out)@ + row_params(r@),
{
    if r.class != 1 { push_str(out, " class="); push_hex_up(out, r.class); }
    let ghost o1 = out@;
    assert(o1 == old(out)@ + opt(r.class != 1, sb(" class=") + hex_up(r.class)));
    push_params_mask(out, r);
    push_params_shift(out, r);
    let ghost o3 = out@;
    if r.post_shift != 0 { push_str(out, " post-shift="); push_hex_up(out, r.post_shift); }
    assert(out@ == o3 + opt(r.post_shift != 0, sb(" post-shift=") + hex_up(r.post_shift)));
    let ghost o4 = out@;
    if r.post_or != 0 { push_str(out, " post-or="); push_hex_up(out, r.post_or); }
    assert(out@ == o4 + opt(r.post_or != 0, sb(" post-or=") + hex_up(r.post_or)));
    assert(out@ =~= old(out)@ + row_params(r@));
}

fn push_row_pattern(out: &mut Vec<u8>, args: &[u8], wild: u8, regmark: u8)
    ensures final(out)@ == old(out)@ + row_pattern(args@, wild, regmark),
{
    if args.len() == 0 || (args.len() == 2 && args[0] == 0x22 && args[1] == 0x22) {
        assert(args@.len() == 2 && args@[0] == 0x22 && args@[1] == 0x22 ==> args@ =~= empty_quotes());
        out.push(0x2D);
        assert(out@ =~= old(out)@ + dash());
        return;
    }
    assert(args@ != empty_quotes());
    let ghost o0 = out@;
    let mut i: usize = 0;
    while i < args.len()
        invariant i <= args.len(), out@ == o0 + pat_text(args@.subrange(0, i as int), wild, regmark),
        decreases args.len() - i,
    {
        assert(args@.subrange(0, i + 1).drop_last() =~= args@.subrange(0, i as int));
        let c = args[i];
        if c == wild {
            let e: [u8; 6] = [0x3C, 0x65, 0x78, 0x70, 0x72, 0x3E];
            assert(e@ =~= expr_word());
            push_all(out, &e);
        } else if c == regmark {
            let g: [u8; 5] = [0x3C, 0x72, 0x65, 0x67, 0x3E];
            assert(g@ =~= reg_word());
            push_all(out, &g);
        } else {
            out.push(c);
        }
        assert(out@ =~= o0 + pat_text(args@.subrange(0, i + 1), wild, regmark));
        i += 1;
    }
    assert(args@.subrange(0, i as int) =~= args@);
}

fn push_row_head(out: &mut Vec<u8>, r: &Row, wild: u8, regmark: u8)
    ensures final(out)@ == old(out)@ + row_head(r@, wild, regmark),
{
    push_all(out, r.mnemonic.as_slice());
    out.push(0x20);
    push_row_pattern(out, r.args.as_slice(), wild, regmark);
    out.push(0x20);
    push_hex_pad(out, r.opcode as u64, r.opcode_bytes as usize * 2, true);
    out.push(0x20);
    assert(out@ =~= old(out)@ + row_head(r@, wild, regmark));
}

fn push_row_tail(out: &mut Vec<u8>, r: &Row)
    requires has_v2_name(r.rule),
    ensures final(out)@ == old(out)@ + row_tail(r@),
{
    push_dec(out, r.opcode_bytes as u64);
    out.push(0x20);
    push_dec(out, r.arg_bytes as u64);
    out.push(0x20);
    push_str(out, name_for(r.rule));
    push_row_params(out, r);
    out.push(0x0A);
    assert(out@ =~= old(out)@ + row_tail(r@));
}

fn push_row_line(out: &mut Vec<u8>, r: &Row, wild: u8, regmark: u8)
    requires has_v2_name(r.rule),
    ensures final(out)@ == old(out)@ + row_line(r@, wild, regmark),
{
    push_row_head(out, r, wild, regmark);
    push_row_tail(out, r);
    assert(out@ =~= old(out)@ + row_line(r@, wild, regmark));
}

/// A table written in the current format, under `banner` when given, else
/// the table's own. Every row's rule must have a name in the current format.
pub fn render(t: &Table, banner: Option<&[u8]>) -> (r: Vec<u8>)
    requires forall|i: int| 0 <= i < t.rows@.len() ==> has_v2_name(#[trigger] t.rows@[i].rule),
    ensures r@ == render_spec(t@, match banner { Some(b) => b@, None => t@.banner }),
{
    let mut out: Vec<u8> = Vec::new();
    push_str(&mut out, "%format         2\n");
    push_str(&mut out, "%banner         \"");
    match banner { Some(b) => push_all(&mut out, b), None => push_all(&mut out, t.banner.as_slice()) }
    push_str(&mut out, "\"\n");
    push_str(&mut out, "%opcode-order   ");
    if t.msfirst { push_str(&mut out, "ms-first"); } else { push_str(&mut out, "ls-first"); }
    push_str(&mut out, "\n");
    push_str(&mut out, "%address-unit   ");
    if t.wordaddrs { push_str(&mut out, "word"); } else { push_str(&mut out, "byte"); }
    push_str(&mut out, "\n");
    push_str(&mut out, "%aux-registers  ");
    push_dec(&mut out, t.aux_registers as u64);
    push_str(&mut out, "\n");
    let ghost head = out@;
    let ghost rsv = t@.regsets;
    let mut i: usize = 0;
    while i < t.regsets.len()
        invariant i <= t.regsets.len(), rsv == t@.regsets,
            out@ == head + regsets_text(rsv.subrange(0, i as int)),
        decreases t.regsets.len() - i,
    {
        assert(rsv.subrange(0, i + 1).drop_last() =~= rsv.subrange(0, i as int));
        let rs = &t.regsets[i];
        push_str(&mut out, "%regset         \"");
        push_all(&mut out, rs.name.as_slice());
        push_str(&mut out, "\" mask=");
        push_hex_up(&mut out, rs.mask);
        push_str(&mut out, " class=");
        push_hex_up(&mut out, rs.class);
        push_str(&mut out, "\n");
        assert(out@ =~= head + regsets_text(rsv.subrange(0, i + 1)));
        i += 1;
    }
    assert(rsv.subrange(0, i as int) =~= rsv);
    push_str(&mut out, "%columns        mnemonic operands opcode op-bytes arg-bytes rule\n");
    let ghost mid = out@;
    let ghost rv = t@.rows;
    let mut k: usize = 0;
    while k < t.rows.len()
        invariant k <= t.rows.len(), rv == t@.rows,
            forall|q: int| 0 <= q < t.rows@.len() ==> has_v2_name(#[trigger] t.rows@[q].rule),
            out@ == mid + rows_text(rv.subrange(0, k as int), t.wildcard, t.regmark),
        decreases t.rows.len() - k,
    {
        assert(rv.subrange(0, k + 1).drop_last() =~= rv.subrange(0, k as int));
        push_row_line(&mut out, &t.rows[k], t.wildcard, t.regmark);
        assert(out@ =~= mid + rows_text(rv.subrange(0, k + 1), t.wildcard, t.regmark));
        k += 1;
    }
    assert(rv.subrange(0, k as int) =~= rv);
    assert(out@ =~= render_spec(t@, match banner { Some(b) => b@, None => t@.banner }));
    out
}

} // verus!
