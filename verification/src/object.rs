//! Object file formats: Intel HEX (byte and word addressed), MOS Technology,
//! Motorola S-record and raw binary.

use vstd::prelude::*;
use crate::cli::ObjFormat;
use crate::fmt::{hex_pad, push_hex_pad};
use crate::image::{Region, region_view, regions_view};
use crate::text::{push_all, slice_vec};

verus! {

/// `{:02X}` of the low byte.
pub open spec fn hex2(v: int) -> Seq<u8> {
    hex_pad((v % 256) as nat, 2, true)
}

/// `{:04X}` of the low 16 bits.
pub open spec fn hex4(v: int) -> Seq<u8> {
    hex_pad((v % 65536) as nat, 4, true)
}

pub open spec fn sum_bytes(s: Seq<u8>) -> int
    decreases s.len(),
{
    if s.len() == 0 { 0 } else { sum_bytes(s.drop_last()) + s.last() }
}

pub open spec fn hex_bytes(s: Seq<u8>) -> Seq<u8>
    decreases s.len(),
{
    if s.len() == 0 { Seq::empty() } else { hex_bytes(s.drop_last()) + hex2(s.last() as int) }
}

/// A region's bytes cut into records of at most `per` bytes, from offset `off`.
pub open spec fn chunks(start: u32, b: Seq<u8>, per: int, off: int) -> Seq<(u32, Seq<u8>)>
    decreases b.len() - off,
{
    if off < 0 || off >= b.len() || per <= 0 {
        Seq::empty()
    } else {
        let n = if per < b.len() - off { per } else { b.len() - off };
        seq![((start + off) as u32, b.subrange(off, off + n))] + chunks(start, b, per, off + n)
    }
}

/// The records of one region; a record length of zero is taken as one.
pub open spec fn records_of(r: (u32, Seq<u8>), per: int) -> Seq<(u32, Seq<u8>)> {
    chunks(r.0, r.1, if per < 1 { 1 } else { per }, 0)
}

/// A region fits the 32-bit address space.
pub open spec fn region_fits(r: (u32, Seq<u8>)) -> bool {
    r.0 + r.1.len() <= 0xFFFF_FFFF
}

pub open spec fn record_view(p: (u32, Vec<u8>)) -> (u32, Seq<u8>) {
    (p.0, p.1@)
}

/// One Intel HEX data record. With `word` the address field shows the word
/// address; the checksum covers the address shown, or with `byte_sum` the
/// byte address.
pub open spec fn intel_line(addr: u32, data: Seq<u8>, word: bool, byte_sum: bool) -> Seq<u8> {
    let shown: int = if word { addr as int / 2 } else { addr as int };
    let summed: int = if byte_sum { addr as int } else { shown };
    let sum = data.len() + (summed / 256) % 256 + summed % 256 + sum_bytes(data);
    seq![0x3Au8] + hex2(data.len() as int) + hex4(shown) + seq![0x30u8, 0x30u8] + hex_bytes(data)
        + hex2(0 - sum) + seq![0x0Au8]
}

pub open spec fn mos_line(addr: u32, data: Seq<u8>) -> Seq<u8> {
    let sum = data.len() + (addr as int / 256) % 256 + addr as int % 256 + sum_bytes(data);
    seq![0x3Bu8] + hex2(data.len() as int) + hex4(addr as int) + hex_bytes(data) + hex4(sum) + seq![0x0Au8]
}

pub open spec fn srec_line(addr: u32, data: Seq<u8>) -> Seq<u8> {
    let ll: int = data.len() as int + 3;
    let sum = ll + (addr as int / 256) % 256 + addr as int % 256 + sum_bytes(data);
    seq![0x53u8, 0x31u8] + hex2(ll) + hex4(addr as int) + hex_bytes(data) + hex2(255 - sum % 256) + seq![0x0Au8]
}

#[derive(Clone, Copy, PartialEq, Eq, Debug, Structural)]
pub enum LineKind {
    Intel { word: bool, byte_sum: bool },
    Mos,
    SRec,
}

pub open spec fn line_of(k: LineKind, rec: (u32, Seq<u8>)) -> Seq<u8> {
    match k {
        LineKind::Intel { word, byte_sum } => intel_line(rec.0, rec.1, word, byte_sum),
        LineKind::Mos => mos_line(rec.0, rec.1),
        LineKind::SRec => srec_line(rec.0, rec.1),
    }
}

pub open spec fn lines_of(k: LineKind, recs: Seq<(u32, Seq<u8>)>) -> Seq<u8>
    decreases recs.len(),
{
    if recs.len() == 0 { Seq::empty() } else { line_of(k, recs[0]) + lines_of(k, recs.subrange(1, recs.len() as int)) }
}

/// Every record of every region, in order.
pub open spec fn all_lines(k: LineKind, regions: Seq<(u32, Seq<u8>)>, per: int) -> Seq<u8>
    decreases regions.len(),
{
    if regions.len() == 0 { Seq::empty() } else {
        lines_of(k, records_of(regions[0], per)) + all_lines(k, regions.subrange(1, regions.len() as int), per)
    }
}

pub open spec fn concat_bytes(regions: Seq<(u32, Seq<u8>)>) -> Seq<u8>
    decreases regions.len(),
{
    if regions.len() == 0 { Seq::empty() } else { regions[0].1 + concat_bytes(regions.subrange(1, regions.len() as int)) }
}

/// The terminating S9 record, carrying the end address.
pub open spec fn s9_line(end_addr: u32) -> Seq<u8> {
    let a = end_addr as int % 65536;
    let sum = 3 + a / 256 + a % 256;
    seq![0x53u8, 0x39u8, 0x30u8, 0x33u8] + hex4(a) + hex2(255 - sum % 256) + seq![0x0Au8]
}

pub open spec fn intel_end() -> Seq<u8> {
    seq![0x3Au8, 0x30u8, 0x30u8, 0x30u8, 0x30u8, 0x30u8, 0x30u8, 0x30u8, 0x31u8, 0x46u8, 0x46u8, 0x0Au8]
}

pub open spec fn mos_end() -> Seq<u8> {
    seq![0x3Bu8, 0x30u8, 0x30u8, 0x0Au8]
}

/// The whole object file.
pub open spec fn object_text(format: ObjFormat, regions: Seq<(u32, Seq<u8>)>, per: int, end_addr: u32, bug: bool) -> Seq<u8> {
    match format {
        ObjFormat::Binary => concat_bytes(regions),
        ObjFormat::IntelHex => all_lines(LineKind::Intel { word: false, byte_sum: false }, regions, per) + intel_end(),
        ObjFormat::IntelWord => all_lines(LineKind::Intel { word: true, byte_sum: bug }, regions, per) + intel_end(),
        ObjFormat::MosTech => all_lines(LineKind::Mos, regions, per) + mos_end(),
        ObjFormat::SRecord => all_lines(LineKind::SRec, regions, per) + s9_line(end_addr),
    }
}

// --- laws ------------------------------------------------------------------

/// Every Intel HEX data record carries, after its data, the checksum that
/// brings the sum of its length, address, record type and data bytes to zero
/// modulo 256. (The word-addressed records of bug compatibility are the
/// exception: their checksum covers the byte address, not the one shown.)
pub proof fn lemma_intel_checksum(addr: u32, data: Seq<u8>, word: bool)
    ensures ({
        let shown: int = if word { addr as int / 2 } else { addr as int };
        let total = data.len() + (shown / 256) % 256 + shown % 256 + 0 + sum_bytes(data);
        let c = (0 - total) % 256;
        &&& intel_line(addr, data, word, false) == seq![0x3Au8] + hex2(data.len() as int) + hex4(shown)
            + seq![0x30u8, 0x30u8] + hex_bytes(data) + hex2(c) + seq![0x0Au8]
        &&& 0 <= c < 256
        &&& (total + c) % 256 == 0
    }),
{
    let shown: int = if word { addr as int / 2 } else { addr as int };
    let total = data.len() + (shown / 256) % 256 + shown % 256 + 0 + sum_bytes(data);
    let c = (0 - total) % 256;
    assert(c % 256 == (0 - total) % 256);
    assert((total + c) % 256 == 0) by (nonlinear_arith)
        requires c == (0 - total) % 256;
}

/// Every S-record carries the one's complement of the low byte of the sum
/// of its count, address and data bytes.
pub proof fn lemma_srec_checksum(addr: u32, data: Seq<u8>)
    ensures ({
        let ll: int = data.len() as int + 3;
        let total = ll + (addr as int / 256) % 256 + addr as int % 256 + sum_bytes(data);
        let c = 255 - total % 256;
        &&& srec_line(addr, data) == seq![0x53u8, 0x31u8] + hex2(ll) + hex4(addr as int) + hex_bytes(data)
            + hex2(c) + seq![0x0Au8]
        &&& 0 <= c < 256
        &&& (total + c) % 256 == 255
    }),
{
    let ll: int = data.len() as int + 3;
    let total = ll + (addr as int / 256) % 256 + addr as int % 256 + sum_bytes(data);
    assert((total + (255 - total % 256)) % 256 == 255) by (nonlinear_arith);
}

/// `--bug-compatibility` changes an object file only in the word-addressed
/// Intel format: every other format is the same with the flag or without.
pub proof fn lemma_bug_compatibility_only_word_records(format: ObjFormat, regions: Seq<(u32, Seq<u8>)>, per: int, end_addr: u32)
    requires format != ObjFormat::IntelWord,
    ensures object_text(format, regions, per, end_addr, true) == object_text(format, regions, per, end_addr, false),
{
}

// --- writers ---------------------------------------------------------------

fn push_hex2(out: &mut Vec<u8>, v: u64)
    ensures final(out)@ == old(out)@ + hex2(v as int),
{
    push_hex_pad(out, v % 256, 2, true);
}

fn push_hex4(out: &mut Vec<u8>, v: u64)
    ensures final(out)@ == old(out)@ + hex4(v as int),
{
    push_hex_pad(out, v % 65536, 4, true);
}

fn sum_data(data: &[u8]) -> (r: u64)
    requires data.len() <= 0xFFFF_FFFF,
    ensures r == sum_bytes(data@), r <= 255 * data.len(),
{
    let mut s: u64 = 0;
    let mut i: usize = 0;
    while i < data.len()
        invariant
            i <= data.len() <= 0xFFFF_FFFF,
            s == sum_bytes(data@.subrange(0, i as int)),
            s <= 255 * i,
        decreases data.len() - i,
    {
        assert(data@.subrange(0, i + 1).drop_last() =~= data@.subrange(0, i as int));
        s = s + data[i] as u64;
        i += 1;
    }
    assert(data@.subrange(0, i as int) =~= data@);
    s
}

fn push_data_hex(out: &mut Vec<u8>, data: &[u8])
    ensures final(out)@ == old(out)@ + hex_bytes(data@),
{
    let mut i: usize = 0;
    while i < data.len()
        invariant
            i <= data.len(),
            out@ == old(out)@ + hex_bytes(data@.subrange(0, i as int)),
        decreases data.len() - i,
    {
        assert(data@.subrange(0, i + 1).drop_last() =~= data@.subrange(0, i as int));
        push_hex2(out, data[i] as u64);
        proof {
            let pre = data@.subrange(0, i + 1);
            assert(hex_bytes(pre) == hex_bytes(data@.subrange(0, i as int)) + hex2(data@[i as int] as int));
            assert(out@ =~= old(out)@ + hex_bytes(pre));
        }
        i += 1;
    }
    assert(data@.subrange(0, i as int) =~= data@);
}

/// The address bytes of a record header, summed as the checksums take them.
fn addr_sum(a: u32) -> (r: u64)
    ensures r == (a as int / 256) % 256 + a as int % 256,
{
    let hi = (a >> 8) & 0xFF;
    let lo = a & 0xFF;
    assert(hi == (a / 256) % 256) by (bit_vector) requires hi == (a >> 8) & 0xFF;
    assert(lo == a % 256) by (bit_vector) requires lo == a & 0xFF;
    hi as u64 + lo as u64
}

fn push_intel_line(out: &mut Vec<u8>, addr: u32, data: &[u8], word: bool, byte_sum: bool)
    requires data.len() <= 0xFFFF_FFFF,
    ensures final(out)@ == old(out)@ + intel_line(addr, data@, word, byte_sum),
{
    let len = data.len() as u64;
    let body = sum_data(data);
    let shown = if word { addr >> 1 } else { addr };
    assert(shown == if word { addr as int / 2 } else { addr as int }) by (bit_vector)
        requires shown == if word { addr >> 1 } else { addr };
    let summed = if byte_sum { addr } else { shown };
    let sum = len + addr_sum(summed) + body;
    out.push(0x3A);
    push_hex2(out, len);
    push_hex4(out, shown as u64);
    out.push(0x30);
    out.push(0x30);
    push_data_hex(out, data);
    let ck = 256 - sum % 256;
    assert((0 - sum) % 256 == (ck as int) % 256);
    push_hex2(out, ck);
    out.push(0x0A);
    assert(out@ =~= old(out)@ + intel_line(addr, data@, word, byte_sum));
}

fn push_mos_line(out: &mut Vec<u8>, addr: u32, data: &[u8])
    requires data.len() <= 0xFFFF_FFFF,
    ensures final(out)@ == old(out)@ + mos_line(addr, data@),
{
    let len = data.len() as u64;
    let sum = len + addr_sum(addr) + sum_data(data);
    out.push(0x3B);
    push_hex2(out, len);
    push_hex4(out, addr as u64);
    push_data_hex(out, data);
    push_hex4(out, sum);
    out.push(0x0A);
    assert(out@ =~= old(out)@ + mos_line(addr, data@));
}

fn push_srec_line(out: &mut Vec<u8>, addr: u32, data: &[u8])
    requires data.len() <= 0xFFFF_FFFF,
    ensures final(out)@ == old(out)@ + srec_line(addr, data@),
{
    let ll = data.len() as u64 + 3;
    let sum = ll + addr_sum(addr) + sum_data(data);
    out.push(0x53);
    out.push(0x31);
    push_hex2(out, ll);
    push_hex4(out, addr as u64);
    push_data_hex(out, data);
    push_hex2(out, 255 - sum % 256);
    out.push(0x0A);
    assert(out@ =~= old(out)@ + srec_line(addr, data@));
}

fn push_line(out: &mut Vec<u8>, k: LineKind, addr: u32, data: &[u8])
    requires data.len() <= 0xFFFF_FFFF,
    ensures final(out)@ == old(out)@ + line_of(k, (addr, data@)),
{
    match k {
        LineKind::Intel { word, byte_sum } => push_intel_line(out, addr, data, word, byte_sum),
        LineKind::Mos => push_mos_line(out, addr, data),
        LineKind::SRec => push_srec_line(out, addr, data),
    }
}

/// Cut a region into records of at most `per` data bytes (a `per` of zero is
/// taken as one); the last record carries the remainder.
pub fn records(r: &Region, per: usize) -> (out: Vec<(u32, Vec<u8>)>)
    requires region_fits(region_view(*r)),
    ensures out@.map_values(|p: (u32, Vec<u8>)| record_view(p)) == records_of(region_view(*r), per as int),
        forall|i: int| 0 <= i < out@.len() ==> #[trigger] out@[i].1@.len() <= r.bytes@.len(),
{
    let p: usize = if per < 1 { 1 } else { per };
    let b = &r.bytes;
    let mut out: Vec<(u32, Vec<u8>)> = Vec::new();
    let mut off: usize = 0;
    while off < b.len()
        invariant
            off <= b.len(), p >= 1,
            r.start + b@.len() <= 0xFFFF_FFFF,
            b@ == r.bytes@,
            forall|i: int| 0 <= i < out@.len() ==> #[trigger] out@[i].1@.len() <= r.bytes@.len(),
            out@.map_values(|q: (u32, Vec<u8>)| record_view(q)) + chunks(r.start, b@, p as int, off as int)
                == chunks(r.start, b@, p as int, 0),
        decreases b.len() - off,
    {
        let n = if p < b.len() - off { p } else { b.len() - off };
        let data = slice_vec(b.as_slice(), off, off + n);
        let addr = r.start + off as u32;
        let ghost before = out@.map_values(|q: (u32, Vec<u8>)| record_view(q));
        out.push((addr, data));
        proof {
            let now = out@.map_values(|q: (u32, Vec<u8>)| record_view(q));
            assert(now =~= before.push((addr, b@.subrange(off as int, off + n))));
            let c = chunks(r.start, b@, p as int, off as int);
            assert(c == seq![(addr, b@.subrange(off as int, off + n))] + chunks(r.start, b@, p as int, off + n));
            assert(now + chunks(r.start, b@, p as int, off + n) =~= before + c);
        }
        off += n;
    }
    proof {
        assert(out@.map_values(|q: (u32, Vec<u8>)| record_view(q)) + Seq::<(u32, Seq<u8>)>::empty()
            =~= out@.map_values(|q: (u32, Vec<u8>)| record_view(q)));
    }
    out
}

fn push_region_lines(out: &mut Vec<u8>, k: LineKind, r: &Region, per: usize)
    requires region_fits(region_view(*r)),
    ensures final(out)@ == old(out)@ + lines_of(k, records_of(region_view(*r), per as int)),
{
    let recs = records(r, per);
    let ghost rv = recs@.map_values(|q: (u32, Vec<u8>)| record_view(q));
    assert(rv.subrange(0, rv.len() as int) =~= rv);
    let mut j: usize = 0;
    while j < recs.len()
        invariant
            j <= recs.len(),
            rv == recs@.map_values(|q: (u32, Vec<u8>)| record_view(q)),
            rv == records_of(region_view(*r), per as int),
            forall|i: int| 0 <= i < recs.len() ==> #[trigger] recs@[i].1@.len() <= r.bytes@.len(),
            r.bytes@.len() <= 0xFFFF_FFFF,
            old(out)@ + lines_of(k, rv) == out@ + lines_of(k, rv.subrange(j as int, rv.len() as int)),
        decreases recs.len() - j,
    {
        let ghost rest = rv.subrange(j as int, rv.len() as int);
        assert(rest.subrange(1, rest.len() as int) =~= rv.subrange(j + 1, rv.len() as int));
        assert(rest[0] == record_view(recs@[j as int]));
        push_line(out, k, recs[j].0, recs[j].1.as_slice());
        proof {
            assert(out@ + lines_of(k, rv.subrange(j + 1, rv.len() as int)) =~= old(out)@ + lines_of(k, rv));
        }
        j += 1;
    }
    assert(rv.subrange(j as int, rv.len() as int) =~= Seq::<(u32, Seq<u8>)>::empty());
    assert(out@ + Seq::<u8>::empty() =~= out@);
}

/// The object file for `regions` in `format`: `per` data bytes to a record,
/// `end_addr` in the S-record terminator. With `bug_compatibility` the word
/// addressed Intel records take their checksum from the byte address.
pub fn write(format: ObjFormat, regions: &[Region], per: usize, end_addr: u32, bug_compatibility: bool) -> (out: Vec<u8>)
    requires forall|i: int| 0 <= i < regions@.len() ==> region_fits(#[trigger] region_view(regions@[i])),
    ensures out@ == object_text(format, regions_view(regions@), per as int, end_addr, bug_compatibility),
{
    let ghost rv = regions_view(regions@);
    let mut out: Vec<u8> = Vec::new();
    assert(rv.subrange(0, rv.len() as int) =~= rv);
    assert(out@ + all_lines(LineKind::Mos, rv, per as int) =~= all_lines(LineKind::Mos, rv, per as int));
    if let ObjFormat::Binary = format {
        assert(out@ + concat_bytes(rv) =~= concat_bytes(rv));
        let mut i: usize = 0;
        while i < regions.len()
            invariant
                i <= regions.len(), rv == regions_view(regions@),
                concat_bytes(rv) == out@ + concat_bytes(rv.subrange(i as int, rv.len() as int)),
            decreases regions.len() - i,
        {
            let ghost rest = rv.subrange(i as int, rv.len() as int);
            assert(rest.subrange(1, rest.len() as int) =~= rv.subrange(i + 1, rv.len() as int));
            push_all(&mut out, regions[i].bytes.as_slice());
            assert(out@ + concat_bytes(rv.subrange(i + 1, rv.len() as int)) =~= concat_bytes(rv));
            i += 1;
        }
        assert(rv.subrange(i as int, rv.len() as int) =~= Seq::<(u32, Seq<u8>)>::empty());
        assert(out@ + Seq::<u8>::empty() =~= out@);
        return out;
    }
    let k = match format {
        ObjFormat::IntelHex => LineKind::Intel { word: false, byte_sum: false },
        ObjFormat::IntelWord => LineKind::Intel { word: true, byte_sum: bug_compatibility },
        ObjFormat::MosTech => LineKind::Mos,
        _ => LineKind::SRec,
    };
    assert(out@ + all_lines(k, rv, per as int) =~= all_lines(k, rv, per as int));
    let mut i: usize = 0;
    while i < regions.len()
        invariant
            i <= regions.len(), rv == regions_view(regions@),
            forall|j: int| 0 <= j < regions@.len() ==> region_fits(#[trigger] region_view(regions@[j])),
            all_lines(k, rv, per as int) == out@ + all_lines(k, rv.subrange(i as int, rv.len() as int), per as int),
        decreases regions.len() - i,
    {
        let ghost rest = rv.subrange(i as int, rv.len() as int);
        assert(rest.subrange(1, rest.len() as int) =~= rv.subrange(i + 1, rv.len() as int));
        assert(region_fits(region_view(regions@[i as int])));
        push_region_lines(&mut out, k, &regions[i], per);
        assert(out@ + all_lines(k, rv.subrange(i + 1, rv.len() as int), per as int) =~= all_lines(k, rv, per as int));
        i += 1;
    }
    assert(rv.subrange(i as int, rv.len() as int) =~= Seq::<(u32, Seq<u8>)>::empty());
    assert(out@ + Seq::<u8>::empty() =~= out@);
    match format {
        ObjFormat::IntelHex | ObjFormat::IntelWord => {
            let tail: [u8; 12] = [0x3A, 0x30, 0x30, 0x30, 0x30, 0x30, 0x30, 0x30, 0x31, 0x46, 0x46, 0x0A];
            push_all(&mut out, &tail);
            assert(tail@ =~= intel_end());
        }
        ObjFormat::MosTech => {
            let tail: [u8; 4] = [0x3B, 0x30, 0x30, 0x0A];
            push_all(&mut out, &tail);
            assert(tail@ =~= mos_end());
        }
        _ => {
            let a = end_addr & 0xFFFF;
            assert(a == end_addr % 65536) by (bit_vector) requires a == end_addr & 0xFFFF;
            let sum = 3 + addr_sum(a);
            out.push(0x53);
            out.push(0x39);
            out.push(0x30);
            out.push(0x33);
            push_hex4(&mut out, a as u64);
            push_hex2(&mut out, 255 - sum % 256);
            out.push(0x0A);
            let ghost pre = all_lines(k, rv, per as int);
            assert(out@ =~= pre + s9_line(end_addr));
        }
    }
    out
}

} // verus!
