//! Listing layout.
//!
//! A listing line is a fixed 24-column prefix followed by the source text as
//! written: the line number (four decimal digits), the include-depth marker,
//! the program counter (four hex digits), the skip marker, and up to four
//! bytes as `XX ` fields padded to twelve columns.

use vstd::prelude::*;
use crate::fmt::{dec_pad, hex_pad, pad_right, push_dec_pad, push_hex_pad, push_padded};
use crate::object::hex2;
use crate::text::push_all;

verus! {

/// At most four bytes are shown on one listing line.
pub const BYTES_PER_LINE: usize = 4;

/// The include-depth marker: one `+` per level below the first, at most three.
pub open spec fn marker(depth: int) -> Seq<u8> {
    if depth <= 1 { seq![0x20u8, 0x20u8, 0x20u8] }
    else if depth == 2 { seq![0x2Bu8, 0x20u8, 0x20u8] }
    else if depth == 3 { seq![0x2Bu8, 0x2Bu8, 0x20u8] }
    else { seq![0x2Bu8, 0x2Bu8, 0x2Bu8] }
}

/// Each of the first four bytes as two upper-case hex digits and a space.
pub open spec fn byte_fields(b: Seq<u8>) -> Seq<u8>
    decreases b.len(),
{
    if b.len() == 0 { Seq::empty() } else { byte_fields(b.drop_last()) + hex2(b.last() as int) + seq![0x20u8] }
}

pub open spec fn shown_bytes(b: Seq<u8>) -> Seq<u8> {
    if b.len() <= BYTES_PER_LINE { b } else { b.subrange(0, BYTES_PER_LINE as int) }
}

/// Line number, depth marker and address: the first eleven columns.
pub open spec fn head(lineno: u32, depth: int, pc: u32) -> Seq<u8> {
    dec_pad(lineno as nat, 4) + marker(depth) + hex_pad((pc % 0x10000) as nat, 4, true)
}

/// The first listing line of a source line.
pub open spec fn line_text(lineno: u32, depth: int, pc: u32, skipped: bool, bytes: Seq<u8>, source: Seq<u8>) -> Seq<u8> {
    head(lineno, depth, pc) + seq![if skipped { 0x7Eu8 } else { 0x20u8 }]
        + pad_right(byte_fields(shown_bytes(bytes)), 12) + source
}

/// A continuation line: no source column, and the byte field unpadded.
pub open spec fn continuation_text(lineno: u32, depth: int, pc: u32, bytes: Seq<u8>) -> Seq<u8> {
    head(lineno, depth, pc) + seq![0x20u8] + byte_fields(shown_bytes(bytes))
}

/// The include-depth marker for `depth`.
pub fn depth_marker(depth: usize) -> (r: Vec<u8>)
    ensures r@ == marker(depth as int),
{
    let r = if depth <= 1 { vec![0x20u8, 0x20, 0x20] }
        else if depth == 2 { vec![0x2Bu8, 0x20, 0x20] }
        else if depth == 3 { vec![0x2Bu8, 0x2B, 0x20] }
        else { vec![0x2Bu8, 0x2B, 0x2B] };
    assert(r@ =~= marker(depth as int));
    r
}

fn push_bytes_field(out: &mut Vec<u8>, bytes: &[u8])
    ensures final(out)@ == old(out)@ + byte_fields(shown_bytes(bytes@)),
        byte_fields(shown_bytes(bytes@)).len() == 3 * shown_bytes(bytes@).len() <= 12,
{
    let n = if bytes.len() <= BYTES_PER_LINE { bytes.len() } else { BYTES_PER_LINE };
    let ghost sb = shown_bytes(bytes@);
    assert(sb =~= bytes@.subrange(0, n as int));
    let mut i: usize = 0;
    while i < n
        invariant
            i <= n <= 4, n <= bytes.len(),
            out@ == old(out)@ + byte_fields(bytes@.subrange(0, i as int)),
            byte_fields(bytes@.subrange(0, i as int)).len() == 3 * i,
        decreases n - i,
    {
        assert(bytes@.subrange(0, i + 1).drop_last() =~= bytes@.subrange(0, i as int));
        push_hex_pad(out, bytes[i] as u64 % 256, 2, true);
        out.push(0x20);
        proof {
            let v = (bytes@[i as int] as int % 256) as nat;
            assert(v < 256);
            crate::fmt::lemma_hex_digits_len(v, true);
            assert(hex2(bytes@[i as int] as int).len() == 2);
            assert(out@ =~= old(out)@ + byte_fields(bytes@.subrange(0, i + 1)));
        }
        i += 1;
    }
}

/// The first listing line: the prefix padded to 24 columns, then the source.
/// `skipped` marks a line inside a false conditional branch.
pub fn line(lineno: u32, depth: usize, pc: u32, skipped: bool, bytes: &[u8], source: &[u8]) -> (r: Vec<u8>)
    ensures r@ == line_text(lineno, depth as int, pc, skipped, bytes@, source@),
        lineno < 10000 ==> r@.len() == 24 + source@.len(),
{
    let mut out: Vec<u8> = Vec::new();
    push_dec_pad(&mut out, lineno as u64, 4);
    let m = depth_marker(depth);
    push_all(&mut out, m.as_slice());
    push_hex_pad(&mut out, (pc % 0x10000) as u64, 4, true);
    out.push(if skipped { 0x7E } else { 0x20 });
    let mut f: Vec<u8> = Vec::new();
    push_bytes_field(&mut f, bytes);
    assert(f@ =~= byte_fields(shown_bytes(bytes@)));
    push_padded(&mut out, f.as_slice(), 12);
    push_all(&mut out, source);
    assert(out@ =~= line_text(lineno, depth as int, pc, skipped, bytes@, source@));
    proof {
        crate::fmt::lemma_dec_digits_len(lineno as nat);
        crate::fmt::lemma_hex_digits_len((pc % 0x10000) as nat, true);
    }
    out
}

/// A continuation line for an instruction that generated more than four
/// bytes: the same line number, the advancing address, no source.
pub fn continuation(lineno: u32, depth: usize, pc: u32, bytes: &[u8]) -> (r: Vec<u8>)
    ensures r@ == continuation_text(lineno, depth as int, pc, bytes@),
        lineno < 10000 ==> r@.len() == 12 + 3 * shown_bytes(bytes@).len(),
{
    let mut out: Vec<u8> = Vec::new();
    push_dec_pad(&mut out, lineno as u64, 4);
    let m = depth_marker(depth);
    push_all(&mut out, m.as_slice());
    push_hex_pad(&mut out, (pc % 0x10000) as u64, 4, true);
    out.push(0x20);
    push_bytes_field(&mut out, bytes);
    assert(out@ =~= continuation_text(lineno, depth as int, pc, bytes@));
    proof {
        crate::fmt::lemma_dec_digits_len(lineno as nat);
        crate::fmt::lemma_hex_digits_len((pc % 0x10000) as nat, true);
    }
    out
}

/// A line with `.NOCODES` in force: the source text alone.
pub fn line_nocodes(source: &[u8]) -> (r: Vec<u8>)
    ensures r@ == source@,
{
    let mut out: Vec<u8> = Vec::new();
    push_all(&mut out, source);
    assert(out@ =~= source@);
    out
}

} // verus!
