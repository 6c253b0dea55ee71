//! Matching a source line against the instruction table.
//!
//! Rows are tried in table order; the first row whose mnemonic, class and
//! operand pattern all match wins. Operand text is compared without its white
//! space (except inside quotes) and without regard to case, but captures keep
//! the source's own case.

use vstd::prelude::*;
use crate::limits::MAX_ARGS;
use crate::table::{RegSetV, Row, RowV, Table, TableV};
use crate::table2::empty_quotes;
use crate::text::{bytes_eq, slice_vec, to_upper, upper, upper_byte, upper_seq};

verus! {

/// The row that matched, its opcode with any register mask folded in, and
/// the captured operand texts in source case.
pub struct Matched {
    pub row: usize,
    pub opcode: u32,
    pub args: Vec<Vec<u8>>,
}

/// ASCII white space as the operand squeeze removes it.
pub open spec fn ascii_ws(c: u8) -> bool {
    c == 0x20 || c == 0x09 || c == 0x0A || c == 0x0C || c == 0x0D
}

/// Operand text with white space removed outside quotes, from `i`, in quote
/// state `q`.
pub open spec fn squeeze_from(s: Seq<u8>, i: int, q: Option<u8>) -> Seq<u8>
    decreases s.len() - i,
{
    if i < 0 || i >= s.len() { Seq::empty() } else {
        let b = s[i];
        match q {
            Some(qq) => seq![b] + squeeze_from(s, i + 1, if b == qq { None } else { q }),
            None => if b == 0x27 || b == 0x22 { seq![b] + squeeze_from(s, i + 1, Some(b)) }
                else if ascii_ws(b) { squeeze_from(s, i + 1, None) }
                else { seq![b] + squeeze_from(s, i + 1, None) },
        }
    }
}

pub open spec fn squeeze(s: Seq<u8>) -> Seq<u8> { squeeze_from(s, 0, None) }

/// The first index from `o` holding `d`.
pub open spec fn find_byte(u: Seq<u8>, o: int, d: u8) -> Option<int>
    decreases u.len() - o,
{
    if o < 0 || o >= u.len() { None } else if u[o] == d { Some(o) } else { find_byte(u, o + 1, d) }
}

/// The first index from `o` where `),` starts.
pub open spec fn find_close(u: Seq<u8>, o: int) -> Option<int>
    decreases u.len() - o,
{
    if o < 0 || o + 1 >= u.len() { None } else if u[o] == 0x29 && u[o + 1] == 0x2C { Some(o) } else { find_close(u, o + 1) }
}

/// Register set `i` is enabled by `mask` and its name opens the operand
/// text at `o`.
pub open spec fn reg_opens(rs: Seq<RegSetV>, u: Seq<u8>, o: int, mask: u32, i: int) -> bool {
    rs[i].class & mask != 0 && 0 <= o && o + rs[i].name.len() <= u.len()
        && u.subrange(o, o + rs[i].name.len()) == upper_seq(rs[i].name)
}

/// The register set, from `i` on, enabled by `mask` whose name opens the
/// operand text at `o`: the longest such name, the first declared among
/// equally long ones; `best` is the choice among those before `i`.
pub open spec fn reg_hit(rs: Seq<RegSetV>, u: Seq<u8>, o: int, mask: u32, i: int, best: Option<int>) -> Option<int>
    decreases rs.len() - i,
{
    if i < 0 || i >= rs.len() { best }
    else if reg_opens(rs, u, o, mask, i) && (match best { Some(b) => rs[i].name.len() > rs[b].name.len(), None => true }) {
        reg_hit(rs, u, o, mask, i + 1, Some(i))
    }
    else { reg_hit(rs, u, o, mask, i + 1, best) }
}

/// Where the capture of a wildcard at `p` ends, reading from `o`.
pub open spec fn capture_end(pat: Seq<u8>, p: int, orig: Seq<u8>, u: Seq<u8>, o: int) -> Option<int> {
    let tail = pat.len() - p - 1;
    if p + 1 < pat.len() && (pat[p + 1] == 0x2C || pat[p + 1] == 0x5B || pat[p + 1] == 0x5D) {
        find_byte(u, o, pat[p + 1])
    } else if p + 2 < pat.len() && pat[p + 1] == 0x29 && pat[p + 2] == 0x2C {
        find_close(u, o)
    } else if orig.len() < o + tail { None }
    else { Some(orig.len() - tail) }
}

/// Pattern and operand walked together from `p` and `o`: where the operand
/// cursor ends, the captures, and the last register mask matched.
pub open spec fn walk_from(t: TableV, pat: Seq<u8>, orig: Seq<u8>, u: Seq<u8>, mask: u32,
    p: int, o: int, args: Seq<Seq<u8>>, reg: Option<u32>) -> Option<(int, Seq<Seq<u8>>, Option<u32>)>
    decreases pat.len() - p,
{
    if p < 0 || p >= pat.len() { Some((o, args, reg)) }
    else if pat[p] == t.wildcard {
        match capture_end(pat, p, orig, u, o) {
            None => None,
            Some(e) => if args.len() >= MAX_ARGS || e < o || e > orig.len() { None }
                else { walk_from(t, pat, orig, u, mask, p + 1, e, args.push(orig.subrange(o, e)), reg) },
        }
    } else if pat[p] == t.regmark {
        match reg_hit(t.regsets, u, o, mask, 0, None) {
            None => None,
            Some(i) => walk_from(t, pat, orig, u, mask, p + 1, o + t.regsets[i].name.len(), args, Some(t.regsets[i].mask)),
        }
    } else if o < 0 || o >= u.len() || u[o] != upper(pat[p]) { None }
    else { walk_from(t, pat, orig, u, mask, p + 1, o + 1, args, reg) }
}

/// The opcode and captures of `row` against squeezed operand text, if it matches.
pub open spec fn walk_spec(t: TableV, row: RowV, orig: Seq<u8>, mask: u32) -> Option<(u32, Seq<Seq<u8>>)> {
    if row.args == empty_quotes() {
        if orig.len() == 0 { Some((row.opcode, Seq::empty())) } else { None }
    } else {
        match walk_from(t, row.args, orig, upper_seq(orig), mask, 0, 0, Seq::empty(), None) {
            None => None,
            Some(w) => if w.0 != orig.len() { None }
                else { Some((row.opcode | (match w.2 { Some(m) => m, None => 0u32 }), w.1)) },
        }
    }
}

/// The first row from `i` that matches.
pub open spec fn find_from(t: TableV, mn: Seq<u8>, orig: Seq<u8>, mask: u32, i: int) -> Option<(int, u32, Seq<Seq<u8>>)>
    decreases t.rows.len() - i,
{
    if i < 0 || i >= t.rows.len() { None }
    else if t.rows[i].mnemonic == mn && t.rows[i].class & mask != 0 && walk_spec(t, t.rows[i], orig, mask) is Some {
        let w = walk_spec(t, t.rows[i], orig, mask).unwrap();
        Some((i, w.0, w.1))
    } else { find_from(t, mn, orig, mask, i + 1) }
}

/// What matching `mnemonic` and `operand` against `t` finds.
pub open spec fn find_spec(t: TableV, mnemonic: Seq<u8>, operand: Seq<u8>, mask: u32) -> Option<(int, u32, Seq<Seq<u8>>)> {
    find_from(t, upper_seq(mnemonic), squeeze(operand), mask, 0)
}

/// Row `i` of `t` takes the instruction: its mnemonic is `mn`, its class is
/// enabled by `mask`, and its pattern matches the squeezed operand `orig`.
pub open spec fn row_takes(t: TableV, mn: Seq<u8>, orig: Seq<u8>, mask: u32, i: int) -> bool {
    t.rows[i].mnemonic == mn && t.rows[i].class & mask != 0 && walk_spec(t, t.rows[i], orig, mask) is Some
}

proof fn lemma_find_from_first(t: TableV, mn: Seq<u8>, orig: Seq<u8>, mask: u32, i: int)
    requires 0 <= i <= t.rows.len(),
    ensures
        find_from(t, mn, orig, mask, i) matches Some(f) ==> i <= f.0 < t.rows.len()
            && row_takes(t, mn, orig, mask, f.0) && forall|j: int| i <= j < f.0 ==> !row_takes(t, mn, orig, mask, j),
        find_from(t, mn, orig, mask, i) is None ==> forall|j: int| i <= j < t.rows.len() ==> !row_takes(t, mn, orig, mask, j),
    decreases t.rows.len() - i,
{
    if i < t.rows.len() && !row_takes(t, mn, orig, mask, i) {
        lemma_find_from_first(t, mn, orig, mask, i + 1);
    }
}

/// Matching finds the first row that takes the instruction, the mnemonic
/// upper-cased and the operand squeezed; it finds nothing exactly when no
/// row takes it.
pub proof fn lemma_find_is_first_match(t: TableV, mnemonic: Seq<u8>, operand: Seq<u8>, mask: u32)
    ensures ({
        let mn = upper_seq(mnemonic);
        let orig = squeeze(operand);
        &&& (find_spec(t, mnemonic, operand, mask) matches Some(f) ==> 0 <= f.0 < t.rows.len()
            && row_takes(t, mn, orig, mask, f.0) && forall|j: int| 0 <= j < f.0 ==> !row_takes(t, mn, orig, mask, j))
        &&& (find_spec(t, mnemonic, operand, mask) is None
            <==> forall|j: int| 0 <= j < t.rows.len() ==> !row_takes(t, mn, orig, mask, j))
    }),
{
    lemma_find_from_first(t, upper_seq(mnemonic), squeeze(operand), mask, 0);
}

fn squeeze_exec(s: &[u8]) -> (r: Vec<u8>)
    ensures r@ == squeeze(s@),
{
    let mut out: Vec<u8> = Vec::new();
    let mut q: Option<u8> = None;
    let mut i: usize = 0;
    while i < s.len()
        invariant i <= s.len(), squeeze(s@) == out@ + squeeze_from(s@, i as int, q),
        decreases s.len() - i,
    {
        let b = s[i];
        let ghost before = out@;
        let ghost q0 = q;
        match q {
            Some(qq) => {
                out.push(b);
                if b == qq { q = None; }
            }
            None => {
                if b == 0x27 || b == 0x22 {
                    out.push(b);
                    q = Some(b);
                } else if !(b == 0x20 || b == 0x09 || b == 0x0A || b == 0x0C || b == 0x0D) {
                    out.push(b);
                }
            }
        }
        assert(before + squeeze_from(s@, i as int, q0) =~= out@ + squeeze_from(s@, i + 1, q));
        i += 1;
    }
    assert(out@ + Seq::<u8>::empty() =~= out@);
    out
}

fn find_byte_exec(u: &[u8], o: usize, d: u8) -> (r: Option<usize>)
    requires o <= u.len(),
    ensures match r { Some(k) => find_byte(u@, o as int, d) == Some(k as int), None => find_byte(u@, o as int, d) is None },
        r matches Some(k) ==> o <= k < u.len(),
{
    let mut k = o;
    while k < u.len()
        invariant o <= k <= u.len(), find_byte(u@, k as int, d) == find_byte(u@, o as int, d),
        decreases u.len() - k,
    {
        if u[k] == d { return Some(k); }
        k += 1;
    }
    None
}

fn find_close_exec(u: &[u8], o: usize) -> (r: Option<usize>)
    requires o <= u.len(),
    ensures match r { Some(k) => find_close(u@, o as int) == Some(k as int), None => find_close(u@, o as int) is None },
        r matches Some(k) ==> o <= k < u.len(),
{
    let mut k = o;
    while u.len() > 0 && k < u.len() - 1
        invariant o <= k <= u.len(), find_close(u@, k as int) == find_close(u@, o as int),
        decreases u.len() - k,
    {
        if u[k] == 0x29 && u[k + 1] == 0x2C { return Some(k); }
        k += 1;
    }
    None
}

fn reg_hit_exec(t: &Table, u: &[u8], o: usize, mask: u32) -> (r: Option<usize>)
    requires o <= u.len(),
    ensures match r { Some(k) => reg_hit(t@.regsets, u@, o as int, mask, 0, None) == Some(k as int),
            None => reg_hit(t@.regsets, u@, o as int, mask, 0, None) is None },
        r matches Some(k) ==> k < t.regsets.len() && o + t.regsets@[k as int].name@.len() <= u.len(),
{
    let ghost rs = t@.regsets;
    let mut best: Option<usize> = None;
    let mut i: usize = 0;
    while i < t.regsets.len()
        invariant i <= t.regsets.len(), rs == t@.regsets, o <= u.len(),
            reg_hit(rs, u@, o as int, mask, i as int, match best { Some(b) => Some(b as int), None => None })
                == reg_hit(rs, u@, o as int, mask, 0, None),
            best matches Some(b) ==> b < i && o + t.regsets@[b as int].name@.len() <= u.len(),
        decreases t.regsets.len() - i,
    {
        let n = &t.regsets[i].name;
        assert(rs[i as int].name == n@);
        if t.regsets[i].class & mask != 0 && n.len() <= u.len() - o {
            let seg = slice_vec(u, o, o + n.len());
            let un = to_upper(n.as_slice());
            if bytes_eq(seg.as_slice(), un.as_slice()) {
                let longer = match best { Some(b) => n.len() > t.regsets[b].name.len(), None => true };
                proof { if let Some(b) = best { assert(rs[b as int].name == t.regsets@[b as int].name@); } }
                if longer {
                    best = Some(i);
                }
            }
        }
        i += 1;
    }
    best
}

/// Walk one row's pattern against the squeezed operand text.
fn walk(t: &Table, row: &Row, orig: &[u8], up: &[u8], mask: u32) -> (r: Option<(u32, Vec<Vec<u8>>)>)
    requires up@ == upper_seq(orig@),
    ensures match walk_spec(t@, row@, orig@, mask) {
        Some(w) => r matches Some(x) && x.0 == w.0 && x.1@.map_values(|v: Vec<u8>| v@) == w.1,
        None => r is None,
    },
{
    if row.args.len() == 2 && row.args[0] == 0x22 && row.args[1] == 0x22 {
        assert(row.args@ =~= empty_quotes());
        if orig.len() == 0 {
            let v: Vec<Vec<u8>> = Vec::new();
            assert(v@.map_values(|x: Vec<u8>| x@) =~= Seq::<Seq<u8>>::empty());
            return Some((row.opcode, v));
        }
        return None;
    }
    assert(row.args@ != empty_quotes()) by {
        if row.args@ == empty_quotes() { assert(row.args@.len() == 2); }
    }
    let pat = row.args.as_slice();
    let ghost tv = t@;
    let ghost total = walk_from(tv, pat@, orig@, up@, mask, 0, 0, Seq::empty(), None);
    let mut p: usize = 0;
    let mut o: usize = 0;
    let mut args: Vec<Vec<u8>> = Vec::new();
    let mut reg: Option<u32> = None;
    assert(args@.map_values(|v: Vec<u8>| v@) =~= Seq::<Seq<u8>>::empty());
    while p < pat.len()
        invariant
            p <= pat.len(), o <= orig.len(), up.len() == orig.len(), up@ == upper_seq(orig@),
            tv == t@, pat@ == row.args@, row.args@ != empty_quotes(),
            total == walk_from(tv, pat@, orig@, up@, mask, 0, 0, Seq::empty(), None),
            total == walk_from(tv, pat@, orig@, up@, mask, p as int, o as int, args@.map_values(|v: Vec<u8>| v@), reg),
            args.len() <= MAX_ARGS,
        decreases pat.len() - p,
    {
        let c = pat[p];
        let ghost av = args@.map_values(|v: Vec<u8>| v@);
        if c == t.wildcard {
            let tail = pat.len() - p - 1;
            let end: Option<usize> = if pat.len() - p > 1 && (pat[p + 1] == 0x2C || pat[p + 1] == 0x5B || pat[p + 1] == 0x5D) {
                find_byte_exec(up, o, pat[p + 1])
            } else if pat.len() - p > 2 && pat[p + 1] == 0x29 && pat[p + 2] == 0x2C {
                find_close_exec(up, o)
            } else if orig.len() - o < tail {
                None
            } else {
                Some(orig.len() - tail)
            };
            assert(match end { Some(e) => capture_end(pat@, p as int, orig@, up@, o as int) == Some(e as int), None => capture_end(pat@, p as int, orig@, up@, o as int) is None });
            match end {
                None => {
                    assert(capture_end(pat@, p as int, orig@, up@, o as int) is None);
                    assert(walk_from(tv, pat@, orig@, up@, mask, p as int, o as int, av, reg) is None);
                    assert(total is None);
                    return None;
                }
                Some(e) => {
                    if args.len() >= MAX_ARGS || e < o || e > orig.len() {
                        return None;
                    }
                    let cap = slice_vec(orig, o, e);
                    args.push(cap);
                    assert(args@.map_values(|v: Vec<u8>| v@) =~= av.push(orig@.subrange(o as int, e as int)));
                    assert(walk_from(tv, pat@, orig@, up@, mask, p as int, o as int, av, reg)
                        == walk_from(tv, pat@, orig@, up@, mask, p + 1, e as int, av.push(orig@.subrange(o as int, e as int)), reg));
                    o = e;
                }
            }
        } else if c == t.regmark {
            match reg_hit_exec(t, up, o, mask) {
                None => { return None; }
                Some(i) => {
                    assert(tv.regsets[i as int].name.len() == t.regsets@[i as int].name@.len());
                    assert(walk_from(tv, pat@, orig@, up@, mask, p as int, o as int, av, reg)
                        == walk_from(tv, pat@, orig@, up@, mask, p + 1, o + t.regsets@[i as int].name@.len(), av, Some(t.regsets@[i as int].mask)));
                    reg = Some(t.regsets[i].mask);
                    o = o + t.regsets[i].name.len();
                }
            }
        } else {
            if o >= up.len() || up[o] != upper_byte(c) {
                return None;
            }
            assert(walk_from(tv, pat@, orig@, up@, mask, p as int, o as int, av, reg)
                == walk_from(tv, pat@, orig@, up@, mask, p + 1, o + 1, av, reg));
            o += 1;
        }
        p += 1;
    }
    if o != orig.len() {
        return None;
    }
    let m = match reg { Some(x) => x, None => 0 };
    Some((row.opcode | m, args))
}

/// Match `mnemonic` and `operand` against the table: the first row, in table
/// order, whose mnemonic equals the mnemonic raised, whose class shares a bit
/// with `class_mask`, and whose pattern matches the operand text.
pub fn find(table: &Table, mnemonic: &[u8], operand: &[u8], class_mask: u32) -> (r: Option<Matched>)
    ensures match find_spec(table@, mnemonic@, operand@, class_mask) {
        Some(f) => r matches Some(m) && m.row == f.0 && m.opcode == f.1 && m.args@.map_values(|v: Vec<u8>| v@) == f.2,
        None => r is None,
    },
{
    let mn = to_upper(mnemonic);
    let orig = squeeze_exec(operand);
    let up = to_upper(orig.as_slice());
    let ghost tv = table@;
    let mut i: usize = 0;
    while i < table.rows.len()
        invariant i <= table.rows.len(), tv == table@, mn@ == upper_seq(mnemonic@), orig@ == squeeze(operand@),
            up@ == upper_seq(orig@),
            find_from(tv, mn@, orig@, class_mask, i as int) == find_spec(table@, mnemonic@, operand@, class_mask),
        decreases table.rows.len() - i,
    {
        let row = &table.rows[i];
        assert(tv.rows[i as int] == row@);
        if bytes_eq(row.mnemonic.as_slice(), mn.as_slice()) && row.class & class_mask != 0 {
            match walk(table, row, orig.as_slice(), up.as_slice(), class_mask) {
                Some((opcode, args)) => {
                    return Some(Matched { row: i, opcode, args });
                }
                None => {}
            }
        }
        i += 1;
    }
    None
}

} // verus!
