//! Number and field formatting: hexadecimal and decimal digits, zero padding
//! and left-justified fields, as the listing, object and symbol files use.

use vstd::prelude::*;
use crate::text::push_all;

verus! {

pub open spec fn hex_char(n: int, upper: bool) -> u8 {
    if n < 10 { (0x30 + n) as u8 } else if upper { (0x37 + n) as u8 } else { (0x57 + n) as u8 }
}

/// The shortest hexadecimal spelling of `v`.
pub open spec fn hex_digits(v: nat, upper: bool) -> Seq<u8>
    decreases v,
{
    if v < 16 { seq![hex_char(v as int, upper)] } else { hex_digits(v / 16, upper).push(hex_char((v % 16) as int, upper)) }
}

/// The shortest decimal spelling of `v`.
pub open spec fn dec_digits(v: nat) -> Seq<u8>
    decreases v,
{
    if v < 10 { seq![(0x30 + v) as u8] } else { dec_digits(v / 10).push((0x30 + v % 10) as u8) }
}

pub open spec fn zeros(n: int) -> Seq<u8> {
    Seq::new(if n > 0 { n as nat } else { 0 }, |i: int| 0x30u8)
}

pub open spec fn spaces(n: int) -> Seq<u8> {
    Seq::new(if n > 0 { n as nat } else { 0 }, |i: int| 0x20u8)
}

/// `{:0w$X}` (or lower case): at least `w` digits, zero padded on the left.
pub open spec fn hex_pad(v: nat, w: int, upper: bool) -> Seq<u8> {
    zeros(w - hex_digits(v, upper).len()) + hex_digits(v, upper)
}

/// `{:0w$}`: at least `w` decimal digits, zero padded on the left.
pub open spec fn dec_pad(v: nat, w: int) -> Seq<u8> {
    zeros(w - dec_digits(v).len()) + dec_digits(v)
}

/// `{}` of a signed value.
pub open spec fn dec_signed(v: int) -> Seq<u8> {
    if v < 0 { seq![0x2Du8] + dec_digits((-v) as nat) } else { dec_digits(v as nat) }
}

/// `{:<w$}`: the text, then spaces out to at least `w` bytes.
pub open spec fn pad_right(s: Seq<u8>, w: int) -> Seq<u8> {
    s + spaces(w - s.len())
}

pub proof fn lemma_hex_digits_len(v: nat, upper: bool)
    ensures 1 <= hex_digits(v, upper).len(), v < 0x10000 ==> hex_digits(v, upper).len() <= 4,
        v < 0x1000 ==> hex_digits(v, upper).len() <= 3,
        v < 0x100 ==> hex_digits(v, upper).len() <= 2, hex_digits(v, upper).len() <= v + 1,
    decreases v,
{
    if v >= 16 {
        lemma_hex_digits_len(v / 16, upper);
        assert(hex_digits(v, upper).len() == hex_digits(v / 16, upper).len() + 1);
        assert(v / 16 + 1 <= v);
    }
}

pub proof fn lemma_dec_digits_len(v: nat)
    ensures 1 <= dec_digits(v).len() <= v + 1,
        v < 10 ==> dec_digits(v).len() == 1, v < 100 ==> dec_digits(v).len() <= 2,
        v < 1000 ==> dec_digits(v).len() <= 3, v < 10000 ==> dec_digits(v).len() <= 4,
        v < 100000 ==> dec_digits(v).len() <= 5, v < 1000000 ==> dec_digits(v).len() <= 6,
        v < 10000000 ==> dec_digits(v).len() <= 7, v < 100000000 ==> dec_digits(v).len() <= 8,
        v < 1000000000 ==> dec_digits(v).len() <= 9, v < 10000000000 ==> dec_digits(v).len() <= 10,
    decreases v,
{
    if v >= 10 { lemma_dec_digits_len(v / 10); }
}

/// Append the shortest hex spelling of `v`.
pub fn push_hex(out: &mut Vec<u8>, v: u64, upper: bool)
    ensures final(out)@ == old(out)@ + hex_digits(v as nat, upper),
    decreases v,
{
    if v >= 16 {
        push_hex(out, v / 16, upper);
    }
    let d = v % 16;
    let c: u8 = if d < 10 { (0x30 + d) as u8 } else if upper { (0x37 + d) as u8 } else { (0x57 + d) as u8 };
    out.push(c);
    proof {
        if v >= 16 {
            assert(hex_digits(v as nat, upper) == hex_digits((v / 16) as nat, upper).push(c));
        }
    }
}

/// Append the shortest decimal spelling of `v`.
pub fn push_dec(out: &mut Vec<u8>, v: u64)
    ensures final(out)@ == old(out)@ + dec_digits(v as nat),
    decreases v,
{
    if v >= 10 {
        push_dec(out, v / 10);
    }
    out.push((0x30 + v % 10) as u8);
    proof {
        if v >= 10 {
            assert(dec_digits(v as nat) == dec_digits((v / 10) as nat).push((0x30 + v % 10) as u8));
        }
    }
}

pub fn push_zeros(out: &mut Vec<u8>, n: usize)
    ensures final(out)@ == old(out)@ + zeros(n as int),
{
    let mut i: usize = 0;
    while i < n
        invariant i <= n, out@ == old(out)@ + zeros(i as int),
        decreases n - i,
    {
        out.push(0x30);
        assert(old(out)@ + zeros(i + 1) =~= (old(out)@ + zeros(i as int)).push(0x30u8));
        i += 1;
    }
}

pub fn push_spaces(out: &mut Vec<u8>, n: usize)
    ensures final(out)@ == old(out)@ + spaces(n as int),
{
    let mut i: usize = 0;
    while i < n
        invariant i <= n, out@ == old(out)@ + spaces(i as int),
        decreases n - i,
    {
        out.push(0x20);
        assert(old(out)@ + spaces(i + 1) =~= (old(out)@ + spaces(i as int)).push(0x20u8));
        i += 1;
    }
}

/// Append `{:0w$X}` of `v` (lower case when `upper` is false).
pub fn push_hex_pad(out: &mut Vec<u8>, v: u64, w: usize, upper: bool)
    ensures final(out)@ == old(out)@ + hex_pad(v as nat, w as int, upper),
{
    let mut d: Vec<u8> = Vec::new();
    push_hex(&mut d, v, upper);
    assert(d@ =~= hex_digits(v as nat, upper));
    let ghost z = zeros(w - d@.len());
    if d.len() < w {
        push_zeros(out, w - d.len());
    } else {
        assert(z =~= Seq::<u8>::empty());
        assert(old(out)@ + z =~= old(out)@);
    }
    assert(out@ == old(out)@ + z);
    push_all(out, &d);
    assert(out@ =~= old(out)@ + (z + d@));
}

/// Append `{:0w$}` of `v`.
pub fn push_dec_pad(out: &mut Vec<u8>, v: u64, w: usize)
    ensures final(out)@ == old(out)@ + dec_pad(v as nat, w as int),
{
    let mut d: Vec<u8> = Vec::new();
    push_dec(&mut d, v);
    assert(d@ =~= dec_digits(v as nat));
    let ghost z = zeros(w - d@.len());
    if d.len() < w {
        push_zeros(out, w - d.len());
    } else {
        assert(z =~= Seq::<u8>::empty());
        assert(old(out)@ + z =~= old(out)@);
    }
    assert(out@ == old(out)@ + z);
    push_all(out, &d);
    assert(out@ =~= old(out)@ + (z + d@));
}

/// Append `{}` of a signed value.
pub fn push_dec_signed(out: &mut Vec<u8>, v: i64)
    requires v > i64::MIN,
    ensures final(out)@ == old(out)@ + dec_signed(v as int),
{
    if v < 0 {
        out.push(0x2D);
        let ghost mid = out@;
        push_dec(out, (0 - v) as u64);
        assert(old(out)@ + dec_signed(v as int) =~= old(out)@.push(0x2Du8) + dec_digits((-v) as nat));
    } else {
        push_dec(out, v as u64);
    }
}

/// Append `s` left-justified in a field of `w` bytes.
pub fn push_padded(out: &mut Vec<u8>, s: &[u8], w: usize)
    ensures final(out)@ == old(out)@ + pad_right(s@, w as int),
{
    push_all(out, s);
    if s.len() < w {
        push_spaces(out, w - s.len());
    } else {
        assert(spaces(w - s@.len()) =~= Seq::<u8>::empty());
        assert(out@ + Seq::<u8>::empty() =~= out@);
    }
    assert(old(out)@ + pad_right(s@, w as int) =~= old(out)@ + s@ + spaces(w - s@.len()));
}

} // verus!
