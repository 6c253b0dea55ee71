//! The two-pass assembler.
//!
//! Pass 1 decides where everything lands; pass 2 emits the bytes, the listing
//! and the diagnostics. Both passes process every line the same way: expand
//! macros, strip the comment, split the statements, define the label, and
//! dispatch the directive or instruction.

use vstd::prelude::*;
use vstd::string::*;
use crate::fmt::{dec_digits, dec_signed, hex_pad, pad_right, push_dec, push_dec_signed, push_hex, push_hex_pad, push_padded, spaces};
use crate::symbols::{Segment, Symbol, Symbols, find_symbol, lemma_find_symbol, lemma_find_symbol_update, qualified, segment_letter};
use crate::table2::{eq_str, sb};
use crate::cli::{LabelTable, Options, seqs};
use crate::errlog::{Format, Msg, msg_str};
use crate::expr::{Env, evaluate, to_u32, u32_of};
use crate::matcher::{find_from, find_spec, squeeze};
use crate::rules::{Enc, EncV, post, rule_effect};
use crate::image::{Image, Region, region_view, regions_view};
use crate::limits::{EXIT_FATAL, EXIT_FILE, MAX_CONDITIONALS, MAX_INCLUDE_DEPTH, MAX_LABEL, MAX_SYMBOLS, MAX_TABLE_ROWS};
use crate::macros::{Macros, expand_spec, macro_index};
use crate::listing::{continuation_text, line_text};
use crate::table::{RowV, Table, TableV, parse_row, row_of};
use crate::object::hex2;
use crate::text::{bytes_eq, is_alpha, is_alpha_byte, is_blank, push_all, slice_vec, to_upper, trim, trim_bytes, upper_seq};

verus! {

// --- statement text -----------------------------------------------------------

/// Where a `;` comment starts in `b` from `i` (quote state `q`), or the length.
pub open spec fn comment_from(b: Seq<u8>, i: int, q: Option<u8>) -> int
    decreases b.len() - i,
{
    if i < 0 || i >= b.len() { b.len() as int }
    else {
        match q {
            Some(qq) => comment_from(b, i + 1, if b[i] == qq { None } else { q }),
            None => if b[i] == 0x22 || b[i] == 0x27 { comment_from(b, i + 1, Some(b[i])) }
                else if b[i] == 0x3B { i }
                else { comment_from(b, i + 1, None) },
        }
    }
}

pub proof fn lemma_comment_from(b: Seq<u8>, i: int, q: Option<u8>)
    requires 0 <= i <= b.len(),
    ensures i <= comment_from(b, i, q) <= b.len(),
    decreases b.len() - i,
{
    if i < b.len() {
        match q {
            Some(qq) => lemma_comment_from(b, i + 1, if b[i] == qq { None } else { q }),
            None => if b[i] == 0x22 || b[i] == 0x27 { lemma_comment_from(b, i + 1, Some(b[i])) }
                else if b[i] != 0x3B { lemma_comment_from(b, i + 1, None) },
        }
    }
}

/// A line without its comment: nothing when it opens with the comment
/// character or `;`, else everything before the first `;` outside quotes.
pub open spec fn code_of(line: Seq<u8>, comment_char: u8) -> Seq<u8> {
    if line.len() > 0 && (line[0] == comment_char || line[0] == 0x3B) { Seq::empty() }
    else { line.subrange(0, comment_from(line, 0, None)) }
}

pub fn strip_comment(line: &[u8], comment_char: u8) -> (r: Vec<u8>)
    ensures r@ == code_of(line@, comment_char),
{
    if line.len() > 0 && (line[0] == comment_char || line[0] == 0x3B) {
        return Vec::new();
    }
    proof { lemma_comment_from(line@, 0, None); }
    let mut q: Option<u8> = None;
    let mut i: usize = 0;
    while i < line.len()
        invariant i <= line.len(), comment_from(line@, i as int, q) == comment_from(line@, 0, None),
            !(line@.len() > 0 && (line@[0] == comment_char || line@[0] == 0x3B)),
        decreases line.len() - i,
    {
        let c = line[i];
        match q {
            Some(qq) => { if c == qq { q = None; } }
            None => {
                if c == 0x22 || c == 0x27 { q = Some(c); }
                else if c == 0x3B { return slice_vec(line, 0, i); }
            }
        }
        i += 1;
    }
    slice_vec(line, 0, line.len())
}

/// `s` split at `sep` outside quotes, from `i`, the current piece being `cur`.
pub open spec fn split_quoted(s: Seq<u8>, sep: u8, i: int, q: Option<u8>, cur: Seq<u8>) -> Seq<Seq<u8>>
    decreases s.len() - i,
{
    if i < 0 || i >= s.len() { seq![cur] }
    else {
        let c = s[i];
        match q {
            Some(qq) => split_quoted(s, sep, i + 1, if c == qq { None } else { q }, cur.push(c)),
            None => if c == 0x22 || c == 0x27 { split_quoted(s, sep, i + 1, Some(c), cur.push(c)) }
                else if c == sep { seq![cur] + split_quoted(s, sep, i + 1, None, Seq::empty()) }
                else { split_quoted(s, sep, i + 1, None, cur.push(c)) },
        }
    }
}

fn split_outside_quotes(s: &[u8], sep: u8) -> (r: Vec<Vec<u8>>)
    ensures r@.map_values(|v: Vec<u8>| v@) == split_quoted(s@, sep, 0, None, Seq::empty()),
{
    let mut out: Vec<Vec<u8>> = Vec::new();
    let mut cur: Vec<u8> = Vec::new();
    let mut q: Option<u8> = None;
    let mut i: usize = 0;
    while i < s.len()
        invariant i <= s.len(),
            split_quoted(s@, sep, 0, None, Seq::empty())
                == out@.map_values(|v: Vec<u8>| v@) + split_quoted(s@, sep, i as int, q, cur@),
        decreases s.len() - i,
    {
        let c = s[i];
        match q {
            Some(qq) => {
                cur.push(c);
                if c == qq { q = None; }
            }
            None => {
                if c == 0x22 || c == 0x27 {
                    q = Some(c);
                    cur.push(c);
                } else if c == sep {
                    let ghost before = out@.map_values(|v: Vec<u8>| v@);
                    let done = cur;
                    let ghost dv = done@;
                    out.push(done);
                    cur = Vec::new();
                    assert(out@.map_values(|v: Vec<u8>| v@) =~= before.push(dv));
                    assert(before + (seq![dv] + split_quoted(s@, sep, i + 1, None, cur@))
                        =~= before.push(dv) + split_quoted(s@, sep, i + 1, None, cur@));
                } else {
                    cur.push(c);
                }
            }
        }
        i += 1;
    }
    let ghost before = out@.map_values(|v: Vec<u8>| v@);
    let ghost cv = cur@;
    out.push(cur);
    assert(out@.map_values(|v: Vec<u8>| v@) =~= before + seq![cv]);
    out
}

/// The statements of a line, separated by `\` outside quotes.
pub fn split_statements(line: &[u8]) -> (r: Vec<Vec<u8>>)
    ensures r@.map_values(|v: Vec<u8>| v@) == split_quoted(line@, 0x5C, 0, None, Seq::empty()),
{
    split_outside_quotes(line, 0x5C)
}

/// The operands of a list, separated by `,` outside quotes; always at least one.
pub fn split_args(s: &[u8]) -> (r: Vec<Vec<u8>>)
    ensures r@.map_values(|v: Vec<u8>| v@) == split_quoted(s@, 0x2C, 0, None, Seq::empty()),
{
    split_outside_quotes(s, 0x2C)
}

/// Where a column-1 label ends: at a blank, `\` or `:`, or just after `=`.
pub open spec fn label_end(b: Seq<u8>, i: int) -> int
    decreases b.len() - i,
{
    if i < 0 || i >= b.len() { b.len() as int }
    else if b[i] == 0x20 || b[i] == 0x09 || b[i] == 0x5C || b[i] == 0x3A { i }
    else if b[i] == 0x3D { i + 1 }
    else { label_end(b, i + 1) }
}

pub proof fn lemma_label_end(b: Seq<u8>, i: int)
    requires 0 <= i <= b.len(),
    ensures i <= label_end(b, i) <= b.len(),
    decreases b.len() - i,
{
    if i < b.len() && !(b[i] == 0x20 || b[i] == 0x09 || b[i] == 0x5C || b[i] == 0x3A) && b[i] != 0x3D {
        lemma_label_end(b, i + 1);
    }
}

/// The first index from `i` where `blank` (space or tab) is `want`.
pub open spec fn blank_scan(b: Seq<u8>, i: int, want: bool) -> int
    decreases b.len() - i,
{
    if i < 0 || i >= b.len() { b.len() as int }
    else if is_blank(b[i]) == want { i }
    else { blank_scan(b, i + 1, want) }
}

pub proof fn lemma_blank_scan(b: Seq<u8>, i: int, want: bool)
    requires 0 <= i <= b.len(),
    ensures i <= blank_scan(b, i, want) <= b.len(),
    decreases b.len() - i,
{
    if i < b.len() && is_blank(b[i]) != want { lemma_blank_scan(b, i + 1, want); }
}

fn blank_scan_exec(b: &[u8], i: usize, want: bool) -> (r: usize)
    requires i <= b.len(),
    ensures r == blank_scan(b@, i as int, want), i <= r <= b.len(),
{
    proof { lemma_blank_scan(b@, i as int, want); }
    let mut k = i;
    while k < b.len() && (b[k] == 0x20 || b[k] == 0x09) != want
        invariant i <= k <= b.len(), blank_scan(b@, k as int, want) == blank_scan(b@, i as int, want),
        decreases b.len() - k,
    {
        k += 1;
    }
    k
}

/// A statement's label (column 1 only), mnemonic and trimmed operand.
pub open spec fn statement_parts(b: Seq<u8>, comment_char: u8, local_char: u8) -> (Option<Seq<u8>>, Seq<u8>, Seq<u8>) {
    if b.len() == 0 || b[0] == comment_char || b[0] == 0x3B { (None, Seq::empty(), Seq::empty()) }
    else {
        let has_label = is_alpha(b[0]) || b[0] == 0x5F || b[0] == local_char;
        let le = label_end(b, 0);
        let after = if has_label { if le < b.len() && b[le] == 0x3A { le + 1 } else { le } } else { 0 };
        let ms = blank_scan(b, after, false);
        let me = blank_scan(b, ms, true);
        (if has_label { Some(b.subrange(0, le)) } else { None }, b.subrange(ms, me), trim(b.subrange(me, b.len() as int)))
    }
}

/// Split a statement into its label, mnemonic and operand. A label is seen
/// only in column 1; it ends at a blank, `\`, `:` or just after `=`.
pub fn split_statement(stmt: &[u8], comment_char: u8, local_char: u8) -> (r: (Option<Vec<u8>>, Vec<u8>, Vec<u8>))
    ensures ({
        let p = statement_parts(stmt@, comment_char, local_char);
        &&& match r.0 { Some(l) => p.0 == Some(l@), None => p.0 is None }
        &&& r.1@ == p.1
        &&& r.2@ == p.2
    }),
{
    if stmt.len() == 0 || stmt[0] == comment_char || stmt[0] == 0x3B {
        return (None, Vec::new(), Vec::new());
    }
    let c0 = stmt[0];
    let has_label = (0x41 <= c0 && c0 <= 0x5A) || (0x61 <= c0 && c0 <= 0x7A) || c0 == 0x5F || c0 == local_char;
    proof { lemma_label_end(stmt@, 0); }
    let mut label: Option<Vec<u8>> = None;
    let mut after: usize = 0;
    if has_label {
        let mut i: usize = 0;
        while i < stmt.len() && !(stmt[i] == 0x20 || stmt[i] == 0x09 || stmt[i] == 0x5C || stmt[i] == 0x3A) && stmt[i] != 0x3D
            invariant i <= stmt.len(), label_end(stmt@, i as int) == label_end(stmt@, 0),
            decreases stmt.len() - i,
        {
            i += 1;
        }
        let le = if i < stmt.len() && stmt[i] == 0x3D { i + 1 } else { i };
        label = Some(slice_vec(stmt, 0, le));
        after = if le < stmt.len() && stmt[le] == 0x3A { le + 1 } else { le };
    }
    let ms = blank_scan_exec(stmt, after, false);
    let me = blank_scan_exec(stmt, ms, true);
    let mnem = slice_vec(stmt, ms, me);
    let rest = slice_vec(stmt, me, stmt.len());
    let operand = trim_bytes(rest.as_slice());
    (label, mnem, operand)
}

/// The bytes of a `.TEXT` string from `i`, and whether the string closed.
pub open spec fn text_from(body: Seq<u8>, quoted: bool, i: int) -> (Seq<u8>, bool)
    decreases body.len() - i,
{
    if i < 0 || i >= body.len() { (Seq::empty(), !quoted) }
    else {
        let c = body[i];
        if quoted && c == 0x22 { (Seq::empty(), true) }
        else if c == 0x5C {
            if i + 1 >= body.len() { (Seq::empty(), !quoted) }
            else {
                let e = body[i + 1];
                let d1: u8 = if i + 2 < body.len() { body[i + 2] } else { 0 };
                let d2: u8 = if i + 3 < body.len() { body[i + 3] } else { 0 };
                let octal = 0x30 <= e <= 0x33 && 0x30 <= d1 <= 0x37 && 0x30 <= d2 <= 0x37;
                let v: u8 = if e == 0x6E { 0x0A } else if e == 0x72 { 0x0D } else if e == 0x74 { 0x09 }
                    else if e == 0x62 { 0x08 } else if e == 0x66 { 0x0C }
                    else if octal { ((e - 0x30) * 64 + (d1 - 0x30) * 8 + (d2 - 0x30)) as u8 }
                    else { e };
                let r = text_from(body, quoted, if octal { i + 4 } else { i + 2 });
                (seq![v] + r.0, r.1)
            }
        }
        else { let r = text_from(body, quoted, i + 1); (seq![c] + r.0, r.1) }
    }
}

/// A `.TEXT` operand's bytes, and whether a quoted string closed. Text that
/// does not open with a quote is taken to the end.
pub open spec fn text_spec(s: Seq<u8>) -> (Seq<u8>, bool) {
    if s.len() > 0 && s[0] == 0x22 { text_from(s.subrange(1, s.len() as int), true, 0) }
    else { text_from(s, false, 0) }
}

/// The bytes a `.TEXT` string denotes: escapes `\n \r \t \b \f`, `\ooo` for
/// three octal digits led by 0 to 3, and any other escaped byte as itself.
pub fn text_bytes(s: &[u8]) -> (r: (Vec<u8>, bool))
    ensures r.0@ == text_spec(s@).0, r.1 == text_spec(s@).1,
{
    let quoted = s.len() > 0 && s[0] == 0x22;
    let body = if quoted { slice_vec(s, 1, s.len()) } else { slice_vec(s, 0, s.len()) };
    assert(!quoted ==> body@ =~= s@);
    assert(quoted ==> body@ =~= s@.subrange(1, s@.len() as int));
    let ghost total = text_from(body@, quoted, 0);
    assert(total == text_spec(s@));
    let mut out: Vec<u8> = Vec::new();
    let mut i: usize = 0;
    while i < body.len()
        invariant i <= body.len(), total == text_from(body@, quoted, 0), total == text_spec(s@),
            total.0 == out@ + text_from(body@, quoted, i as int).0,
            total.1 == text_from(body@, quoted, i as int).1,
        decreases body.len() - i,
    {
        let c = body[i];
        let ghost o0 = out@;
        if quoted && c == 0x22 {
            return (out, true);
        }
        if c == 0x5C {
            if body.len() - i <= 1 {
                return (out, !quoted);
            }
            let e = body[i + 1];
            let d1: u8 = if body.len() - i > 2 { body[i + 2] } else { 0 };
            let d2: u8 = if body.len() - i > 3 { body[i + 3] } else { 0 };
            let octal = 0x30 <= e && e <= 0x33 && 0x30 <= d1 && d1 <= 0x37 && 0x30 <= d2 && d2 <= 0x37;
            let v: u8 = if e == 0x6E { 0x0A } else if e == 0x72 { 0x0D } else if e == 0x74 { 0x09 }
                else if e == 0x62 { 0x08 } else if e == 0x66 { 0x0C }
                else if octal { (e - 0x30) * 64 + (d1 - 0x30) * 8 + (d2 - 0x30) }
                else { e };
            out.push(v);
            let next = if octal { i + 4 } else { i + 2 };
            assert(out@ + text_from(body@, quoted, next as int).0 =~= o0 + text_from(body@, quoted, i as int).0);
            i = if next <= body.len() { next } else { body.len() };
            continue;
        }
        out.push(c);
        assert(out@ + text_from(body@, quoted, i + 1).0 =~= o0 + text_from(body@, quoted, i as int).0);
        i += 1;
    }
    assert(out@ + Seq::<u8>::empty() =~= out@);
    (out, !quoted)
}

/// Whether the `(` opening `t` closes only at its last byte, scanning from
/// `i` at nesting depth `depth`.
pub open spec fn outer_from(t: Seq<u8>, i: int, depth: int) -> bool
    decreases t.len() - i,
{
    if i < 0 || i >= t.len() { false }
    else if t[i] == 0x28 { outer_from(t, i + 1, depth + 1) }
    else if t[i] == 0x29 { if depth - 1 == 0 { i == t.len() - 1 } else { outer_from(t, i + 1, depth - 1) } }
    else { outer_from(t, i + 1, depth) }
}

/// True when the whole operand is one parenthesised group.
pub fn matching_outer_parens(t: &[u8]) -> (r: bool)
    ensures r == outer_from(t@, 0, 0),
{
    let mut depth: i128 = 0;
    let mut i: usize = 0;
    while i < t.len()
        invariant i <= t.len(), -(i as int) <= depth <= i, outer_from(t@, i as int, depth as int) == outer_from(t@, 0, 0),
        decreases t.len() - i,
    {
        if t[i] == 0x28 {
            depth += 1;
        } else if t[i] == 0x29 {
            if depth - 1 == 0 { return i == t.len() - 1; }
            depth -= 1;
        }
        i += 1;
    }
    false
}

// --- symbol order ---------------------------------------------------------------

/// `a` orders strictly before `b`, byte by byte, a proper prefix first.
pub open spec fn lex_lt(a: Seq<u8>, b: Seq<u8>) -> bool
    decreases a.len(),
{
    if b.len() == 0 { false }
    else if a.len() == 0 { true }
    else if a[0] != b[0] { a[0] < b[0] }
    else { lex_lt(a.drop_first(), b.drop_first()) }
}

/// `a` differs from `b` first at `k`, where its byte is the smaller.
pub open spec fn smaller_at(a: Seq<u8>, b: Seq<u8>, k: int) -> bool {
    0 <= k < a.len() && k < b.len() && a.subrange(0, k) == b.subrange(0, k) && a[k] < b[k]
}

/// The order names are sorted in: `a` comes before `b` exactly when it is a
/// proper prefix of `b`, or where they first differ its byte is smaller.
pub proof fn lemma_lex_order(a: Seq<u8>, b: Seq<u8>)
    ensures lex_lt(a, b) <==> ((a.len() < b.len() && a == b.subrange(0, a.len() as int))
        || exists|k: int| #[trigger] smaller_at(a, b, k)),
    decreases a.len(),
{
    if b.len() == 0 {
        assert forall|k: int| !#[trigger] smaller_at(a, b, k) by {}
    } else if a.len() == 0 {
        assert(a == b.subrange(0, 0));
    } else if a[0] != b[0] {
        if a[0] < b[0] {
            assert(a.subrange(0, 0) =~= b.subrange(0, 0));
            assert(smaller_at(a, b, 0));
        } else {
            assert forall|k: int| !#[trigger] smaller_at(a, b, k) by {
                if smaller_at(a, b, k) && k > 0 { assert(a.subrange(0, k)[0] == b.subrange(0, k)[0]); }
            }
            if a.len() < b.len() && a == b.subrange(0, a.len() as int) { assert(a[0] == b.subrange(0, a.len() as int)[0]); }
        }
    } else {
        let a1 = a.drop_first();
        let b1 = b.drop_first();
        lemma_lex_order(a1, b1);
        if a1.len() < b1.len() && a1 == b1.subrange(0, a1.len() as int) {
            assert forall|i: int| 0 <= i < a.len() implies a[i] == #[trigger] b.subrange(0, a.len() as int)[i] by {
                if i > 0 { assert(a1[i - 1] == b1.subrange(0, a1.len() as int)[i - 1]); }
            }
            assert(a =~= b.subrange(0, a.len() as int));
        }
        if a.len() < b.len() && a == b.subrange(0, a.len() as int) {
            assert(a1 =~= b1.subrange(0, a1.len() as int));
        }
        if exists|k: int| #[trigger] smaller_at(a1, b1, k) {
            let k = choose|k: int| #[trigger] smaller_at(a1, b1, k);
            assert(a.subrange(0, k + 1) =~= seq![a[0]] + a1.subrange(0, k));
            assert(b.subrange(0, k + 1) =~= seq![b[0]] + b1.subrange(0, k));
            assert(smaller_at(a, b, k + 1));
        }
        if exists|k: int| #[trigger] smaller_at(a, b, k) {
            let k = choose|k: int| #[trigger] smaller_at(a, b, k);
            if k == 0 {
            } else {
                assert(a1.subrange(0, k - 1) =~= a.subrange(0, k).drop_first());
                assert(b1.subrange(0, k - 1) =~= b.subrange(0, k).drop_first());
                assert(smaller_at(a1, b1, k - 1));
            }
        }
    }
}

pub proof fn lemma_lex_asym(a: Seq<u8>, b: Seq<u8>)
    ensures !(lex_lt(a, b) && lex_lt(b, a)),
    decreases a.len(),
{
    if a.len() > 0 && b.len() > 0 && a[0] == b[0] { lemma_lex_asym(a.drop_first(), b.drop_first()); }
}

pub proof fn lemma_lex_trans(a: Seq<u8>, b: Seq<u8>, c: Seq<u8>)
    requires lex_lt(a, b), lex_lt(b, c),
    ensures lex_lt(a, c),
    decreases a.len(),
{
    if a.len() > 0 && b.len() > 0 && c.len() > 0 && a[0] == b[0] && b[0] == c[0] {
        lemma_lex_trans(a.drop_first(), b.drop_first(), c.drop_first());
    }
}

fn lex_lt_exec(a: &[u8], b: &[u8]) -> (r: bool)
    ensures r == lex_lt(a@, b@),
{
    let mut i: usize = 0;
    assert(a@.subrange(0, a@.len() as int) =~= a@ && b@.subrange(0, b@.len() as int) =~= b@);
    while i < a.len() && i < b.len() && a[i] == b[i]
        invariant i <= a.len(), i <= b.len(),
            lex_lt(a@, b@) == lex_lt(a@.subrange(i as int, a@.len() as int), b@.subrange(i as int, b@.len() as int)),
        decreases a.len() - i,
    {
        assert(a@.subrange(i as int, a@.len() as int).drop_first() =~= a@.subrange(i + 1, a@.len() as int));
        assert(b@.subrange(i as int, b@.len() as int).drop_first() =~= b@.subrange(i + 1, b@.len() as int));
        i += 1;
    }
    if i >= b.len() { false } else if i >= a.len() { true } else { a[i] < b[i] }
}

/// `p` lists each index below `n` exactly once.
pub open spec fn is_permutation(p: Seq<usize>, n: int) -> bool {
    &&& p.len() == n
    &&& forall|k: int| 0 <= k < p.len() ==> #[trigger] p[k] < n
    &&& forall|j: int, k: int| 0 <= j < k < p.len() ==> p[j] != p[k]
}

/// The names in `p`'s order never step down.
pub open spec fn sorted_by_name(names: Seq<Seq<u8>>, p: Seq<usize>) -> bool {
    forall|j: int, k: int| 0 <= j < k < p.len() ==> !lex_lt(#[trigger] names[p[k] as int], #[trigger] names[p[j] as int])
}

/// The indices of `names` in lexical order.
pub fn lexical_order(names: &Vec<Vec<u8>>) -> (r: Vec<usize>)
    ensures
        is_permutation(r@, names@.len() as int),
        sorted_by_name(names@.map_values(|v: Vec<u8>| v@), r@),
{
    let ghost nv = names@.map_values(|v: Vec<u8>| v@);
    let mut res: Vec<usize> = Vec::new();
    let mut i: usize = 0;
    while i < names.len()
        invariant i <= names.len(), nv == names@.map_values(|v: Vec<u8>| v@),
            is_permutation(res@, i as int), sorted_by_name(nv, res@),
        decreases names.len() - i,
    {
        // The first position whose name orders after names[i].
        let mut p: usize = 0;
        while p < res.len() && !lex_lt_exec(names[i].as_slice(), names[res[p]].as_slice())
            invariant p <= res.len(), res.len() == i, i < names.len(), nv == names@.map_values(|v: Vec<u8>| v@),
                is_permutation(res@, i as int),
                forall|j: int| 0 <= j < p ==> !lex_lt(nv[i as int], #[trigger] nv[res@[j] as int]),
            decreases res.len() - p,
        {
            assert(names@[res@[p as int] as int]@ == nv[res@[p as int] as int]);
            p += 1;
        }
        proof {
            if p < res.len() { assert(names@[res@[p as int] as int]@ == nv[res@[p as int] as int]); }
        }
        let ghost old_res = res@;
        res.insert(p, i);
        proof {
            assert(res@ =~= old_res.insert(p as int, i));
            assert forall|j: int, k: int| 0 <= j < k < res@.len()
                implies !lex_lt(#[trigger] nv[res@[k] as int], #[trigger] nv[res@[j] as int]) by {
                let x = nv[i as int];
                if j < p && k == p {
                    // names[i] is not before any name ahead of it.
                    assert(res@[j] == old_res[j]);
                    let yj = nv[old_res[j] as int];
                    assert(!lex_lt(x, yj));
                } else if j == p && k > p {
                    let yk = nv[old_res[k - 1] as int];
                    assert(res@[k] == old_res[k - 1]);
                    let yp = nv[old_res[p as int] as int];
                    assert(lex_lt(x, yp));
                    if k - 1 > p { assert(!lex_lt(yk, yp)); }
                    if lex_lt(yk, x) { lemma_lex_trans(yk, x, yp); }
                    lemma_lex_asym(x, yp);
                } else if j < p && k > p {
                    assert(res@[j] == old_res[j] && res@[k] == old_res[k - 1]);
                } else if k < p {
                    assert(res@[j] == old_res[j] && res@[k] == old_res[k]);
                } else {
                    assert(res@[j] == old_res[j - 1] && res@[k] == old_res[k - 1]);
                }
            }
            assert forall|a: int, b: int| 0 <= a < b < res@.len() implies res@[a] != res@[b] by {
                if a == p { assert(res@[b] == old_res[b - 1]); }
                else if b == p { assert(res@[a] == old_res[a]); }
                else if a < p && b < p { assert(res@[a] == old_res[a] && res@[b] == old_res[b]); }
                else if a < p { assert(res@[a] == old_res[a] && res@[b] == old_res[b - 1]); }
                else { assert(res@[a] == old_res[a - 1] && res@[b] == old_res[b - 1]); }
            }
            assert forall|a: int| 0 <= a < res@.len() implies #[trigger] res@[a] < i + 1 by {
                if a < p { assert(res@[a] == old_res[a]); } else if a > p { assert(res@[a] == old_res[a - 1]); }
            }
        }
        i += 1;
    }
    res
}

// The legacy ordering: a bidirectional bubble sort keyed on the first byte,
// whose bookkeeping stops early, so that some inputs come out unsorted.

/// The downward sweep, from `i` to `top`: the order and the last swap.
pub open spec fn sweep_down(l: Seq<usize>, keys: Seq<u8>, i: int, top: int, k: int) -> (Seq<usize>, int)
    decreases i - top + 1,
{
    if i < top || i < 0 || i + 1 >= l.len() { (l, k) }
    else if keys[l[i] as int] > keys[l[i + 1] as int] {
        sweep_down(l.update(i, l[i + 1]).update(i + 1, l[i]), keys, i - 1, top, i)
    } else { sweep_down(l, keys, i - 1, top, k) }
}

/// The upward sweep, from `i` to `bot`.
pub open spec fn sweep_up(l: Seq<usize>, keys: Seq<u8>, i: int, bot: int, k: int) -> (Seq<usize>, int)
    decreases bot - i + 1,
{
    if i > bot || i < 0 || i + 1 >= l.len() { (l, k) }
    else if keys[l[i] as int] > keys[l[i + 1] as int] {
        sweep_up(l.update(i, l[i + 1]).update(i + 1, l[i]), keys, i + 1, bot, i)
    } else { sweep_up(l, keys, i + 1, bot, k) }
}

/// Rounds of the sort from `top`, `bot` and last swap `k`, at most `fuel` of them.
pub open spec fn shaker_rounds(l: Seq<usize>, keys: Seq<u8>, top: int, bot: int, k: int, fuel: nat) -> Seq<usize>
    decreases fuel,
{
    if fuel == 0 { l } else {
        let d = sweep_down(l, keys, bot, top, k);
        let top2 = d.1 + 1;
        let u = sweep_up(d.0, keys, top2, bot, d.1);
        let bot2 = u.1 - 1;
        if top2 >= bot2 { u.0 } else { shaker_rounds(u.0, keys, top2, bot2, u.1, (fuel - 1) as nat) }
    }
}

pub open spec fn identity_order(n: int) -> Seq<usize> {
    Seq::new(n as nat, |i: int| i as usize)
}

/// The legacy order of `n` symbols keyed on their first bytes, with the
/// number of rounds bounded by the count.
pub open spec fn shaker_spec(keys: Seq<u8>) -> Seq<usize> {
    let n = keys.len() as int;
    if n < 2 { identity_order(n) }
    else { shaker_rounds(identity_order(n), keys, 0, n - 2, n - 2, (n + 2) as nat) }
}

fn sweep_down_exec(l: &mut Vec<usize>, keys: &Vec<u8>, bot: i64, top: i64, k0: i64) -> (k: i64)
    requires
        forall|q: int| 0 <= q < old(l)@.len() ==> #[trigger] old(l)@[q] < keys@.len(),
        old(l)@.len() < 0x4000_0000, -1 <= k0 <= old(l)@.len(), -1 <= top,
        -2 <= bot < old(l)@.len(),
    ensures
        (final(l)@, k as int) == sweep_down(old(l)@, keys@, bot as int, top as int, k0 as int),
        final(l)@.len() == old(l)@.len(),
        forall|q: int| 0 <= q < final(l)@.len() ==> #[trigger] final(l)@[q] < keys@.len(),
        -1 <= k <= final(l)@.len(),
{
    let mut i = bot;
    let mut k = k0;
    while i >= top && i >= 0 && ((i + 1) as usize) < l.len()
        invariant
            -2 <= i < l@.len(), l@.len() == old(l)@.len(), old(l)@.len() < 0x4000_0000, -1 <= top,
            -1 <= k <= l@.len(),
            forall|q: int| 0 <= q < l@.len() ==> #[trigger] l@[q] < keys@.len(),
            sweep_down(old(l)@, keys@, bot as int, top as int, k0 as int) == sweep_down(l@, keys@, i as int, top as int, k as int),
        decreases i - top + 1,
    {
        let a = l[i as usize];
        let b = l[(i + 1) as usize];
        if keys[a] > keys[b] {
            l.set(i as usize, b);
            l.set((i + 1) as usize, a);
            k = i;
        }
        i -= 1;
    }
    k
}

fn sweep_up_exec(l: &mut Vec<usize>, keys: &Vec<u8>, top: i64, bot: i64, k0: i64) -> (k: i64)
    requires
        forall|q: int| 0 <= q < old(l)@.len() ==> #[trigger] old(l)@[q] < keys@.len(),
        old(l)@.len() < 0x4000_0000, -1 <= k0 <= old(l)@.len(), 0 <= top <= old(l)@.len() + 1,
        bot < old(l)@.len(),
    ensures
        (final(l)@, k as int) == sweep_up(old(l)@, keys@, top as int, bot as int, k0 as int),
        final(l)@.len() == old(l)@.len(),
        forall|q: int| 0 <= q < final(l)@.len() ==> #[trigger] final(l)@[q] < keys@.len(),
        -1 <= k <= final(l)@.len(),
{
    let mut i = top;
    let mut k = k0;
    while i <= bot && ((i + 1) as usize) < l.len()
        invariant
            0 <= i <= l@.len() + 1, l@.len() == old(l)@.len(), old(l)@.len() < 0x4000_0000, bot < l@.len(),
            -1 <= k <= l@.len(),
            forall|q: int| 0 <= q < l@.len() ==> #[trigger] l@[q] < keys@.len(),
            sweep_up(old(l)@, keys@, top as int, bot as int, k0 as int) == sweep_up(l@, keys@, i as int, bot as int, k as int),
        decreases bot - i + 1,
    {
        let a = l[i as usize];
        let b = l[(i + 1) as usize];
        if keys[a] > keys[b] {
            l.set(i as usize, b);
            l.set((i + 1) as usize, a);
            k = i;
        }
        i += 1;
    }
    k
}

/// The legacy symbol order of `keys` (each symbol's first byte): indices in
/// the order a bidirectional bubble sort that stops early leaves them.
pub fn shaker_order(keys: &Vec<u8>) -> (r: Vec<usize>)
    requires keys@.len() < 0x4000_0000,
    ensures r@ == shaker_spec(keys@), r@.len() == keys@.len(),
        forall|q: int| 0 <= q < r@.len() ==> #[trigger] r@[q] < keys@.len(),
{
    let n = keys.len();
    let mut l: Vec<usize> = Vec::new();
    let mut i: usize = 0;
    while i < n
        invariant i <= n, n == keys@.len(), l@ == identity_order(i as int),
        decreases n - i,
    {
        l.push(i);
        assert(l@ =~= identity_order(i + 1));
        i += 1;
    }
    if n < 2 {
        assert(forall|q: int| 0 <= q < l@.len() ==> #[trigger] l@[q] == q);
        return l;
    }
    assert(forall|q: int| 0 <= q < l@.len() ==> #[trigger] l@[q] == q);
    let mut top: i64 = 0;
    let mut bot: i64 = n as i64 - 2;
    let mut k: i64 = bot;
    let mut fuel: usize = n + 2;
    let ghost total = shaker_spec(keys@);
    while fuel > 0
        invariant
            l@.len() == n, n == keys@.len(), n < 0x4000_0000, n >= 2,
            forall|q: int| 0 <= q < l@.len() ==> #[trigger] l@[q] < keys@.len(),
            0 <= top <= n + 1, -2 <= bot < n, -1 <= k <= n,
            total == shaker_spec(keys@),
            total == shaker_rounds(l@, keys@, top as int, bot as int, k as int, fuel as nat),
        decreases fuel,
    {
        let kd = sweep_down_exec(&mut l, keys, bot, top, k);
        let top2 = kd + 1;
        let ku = sweep_up_exec(&mut l, keys, top2, bot, kd);
        let bot2 = ku - 1;
        if top2 >= bot2 {
            return l;
        }
        top = top2;
        bot = bot2;
        k = ku;
        fuel -= 1;
    }
    l
}

// --- symbol and export files ------------------------------------------------------

pub open spec fn low16(v: i32) -> nat {
    ((v as u32) % 0x10000) as nat
}

/// One line of the symbol file.
pub open spec fn sym_line(s: Symbol, avsym: bool) -> Seq<u8> {
    if avsym {
        sb("AS ") + pad_right(s.name@, 16) + sb("  ") + seq![segment_letter(s.segment), 0x3Au8]
            + hex_pad(low16(s.value), 4, false) + seq![0x0Au8]
    } else {
        pad_right(s.name@, 16) + sb("  ") + hex_pad(low16(s.value), 4, false) + seq![0x0Au8]
    }
}

/// One line of the export file: a re-includable `.EQU`.
pub open spec fn export_line(s: Symbol) -> Seq<u8> {
    pad_right(s.name@, 16) + sb(" .EQU  $") + hex_pad(low16(s.value), 4, false) + seq![0x0Au8]
}

pub open spec fn sym_text(list: Seq<Symbol>, order: Seq<usize>, avsym: bool) -> Seq<u8>
    decreases order.len(),
{
    if order.len() == 0 { Seq::empty() }
    else { sym_text(list, order.drop_last(), avsym) + sym_line(list[order.last() as int], avsym) }
}

pub open spec fn export_text(list: Seq<Symbol>, order: Seq<usize>) -> Seq<u8>
    decreases order.len(),
{
    if order.len() == 0 { Seq::empty() }
    else {
        export_text(list, order.drop_last())
            + (if list[order.last() as int].exported { export_line(list[order.last() as int]) } else { Seq::empty() })
    }
}

fn push_str(out: &mut Vec<u8>, s: &str)
    ensures final(out)@ == old(out)@ + sb(s),
{
    push_all(out, s.as_bytes());
}

fn low16_exec(v: i32) -> (r: u64)
    ensures r == low16(v),
{
    let u = v as u32;
    let m = u & 0xFFFF;
    assert(m == u % 0x10000) by (bit_vector) requires m == u & 0xFFFF;
    m as u64
}

/// The symbol file: each symbol in `order`, its name in sixteen columns and
/// its value's low sixteen bits in hex (with `avsym`, the segment letter too).
pub fn symbol_file(syms: &Symbols, order: &Vec<usize>, avsym: bool) -> (r: Vec<u8>)
    requires forall|k: int| 0 <= k < order@.len() ==> #[trigger] order@[k] < syms.list@.len(),
    ensures r@ == sym_text(syms.list@, order@, avsym),
{
    let mut out: Vec<u8> = Vec::new();
    let mut k: usize = 0;
    while k < order.len()
        invariant k <= order.len(), out@ == sym_text(syms.list@, order@.subrange(0, k as int), avsym),
            forall|q: int| 0 <= q < order@.len() ==> #[trigger] order@[q] < syms.list@.len(),
        decreases order.len() - k,
    {
        assert(order@.subrange(0, k + 1).drop_last() =~= order@.subrange(0, k as int));
        let s = &syms.list[order[k]];
        let ghost o0 = out@;
        let v = low16_exec(s.value);
        if avsym {
            push_str(&mut out, "AS ");
            push_padded(&mut out, s.name.as_slice(), 16);
            push_str(&mut out, "  ");
            out.push(s.segment.letter());
            out.push(0x3A);
            push_hex_pad(&mut out, v, 4, false);
            out.push(0x0A);
        } else {
            push_padded(&mut out, s.name.as_slice(), 16);
            push_str(&mut out, "  ");
            push_hex_pad(&mut out, v, 4, false);
            out.push(0x0A);
        }
        assert(out@ =~= o0 + sym_line(syms.list@[order@[k as int] as int], avsym));
        k += 1;
    }
    assert(order@.subrange(0, k as int) =~= order@);
    out
}

/// The export file: a `.EQU` line for each exported symbol, in `order`.
pub fn export_file(syms: &Symbols, order: &Vec<usize>) -> (r: Vec<u8>)
    requires forall|k: int| 0 <= k < order@.len() ==> #[trigger] order@[k] < syms.list@.len(),
    ensures r@ == export_text(syms.list@, order@),
{
    let mut out: Vec<u8> = Vec::new();
    let mut k: usize = 0;
    while k < order.len()
        invariant k <= order.len(), out@ == export_text(syms.list@, order@.subrange(0, k as int)),
            forall|q: int| 0 <= q < order@.len() ==> #[trigger] order@[q] < syms.list@.len(),
        decreases order.len() - k,
    {
        assert(order@.subrange(0, k + 1).drop_last() =~= order@.subrange(0, k as int));
        let s = &syms.list[order[k]];
        let ghost o0 = out@;
        if s.exported {
            let v = low16_exec(s.value);
            push_padded(&mut out, s.name.as_slice(), 16);
            push_str(&mut out, " .EQU  $");
            push_hex_pad(&mut out, v, 4, false);
            out.push(0x0A);
        }
        assert(out@ =~= o0 + (if syms.list@[order@[k as int] as int].exported { export_line(syms.list@[order@[k as int] as int]) } else { Seq::empty() }));
        k += 1;
    }
    assert(order@.subrange(0, k as int) =~= order@);
    out
}

// --- listing tables --------------------------------------------------------------

pub open spec fn lines_view(v: Seq<Vec<u8>>) -> Seq<Seq<u8>> {
    v.map_values(|x: Vec<u8>| x@)
}

fn push_line(lines: &mut Vec<Vec<u8>>, l: Vec<u8>)
    ensures lines_view(final(lines)@) == lines_view(old(lines)@).push(l@),
{
    let ghost lv = l@;
    lines.push(l);
    assert(lines_view(lines@) =~= lines_view(old(lines)@).push(lv));
}

fn lit(s: &str) -> (r: Vec<u8>)
    ensures r@ == sb(s),
{
    let mut v: Vec<u8> = Vec::new();
    push_all(&mut v, s.as_bytes());
    v
}

/// The full-width value of a label, at least four upper-case hex digits.
pub open spec fn value_hex(v: i32) -> Seq<u8> {
    hex_pad((v as u32) as nat, 4, true)
}

/// One entry of the short label table.
pub open spec fn short_entry(s: Symbol) -> Seq<u8> {
    pad_right(s.name@, 14) + value_hex(s.value) + spaces(6)
}

/// The entries in rows of three.
pub open spec fn rows_of_three(e: Seq<Seq<u8>>) -> Seq<Seq<u8>>
    decreases e.len(),
{
    if e.len() == 0 { Seq::empty() }
    else if e.len() <= 3 { seq![e.fold_left(Seq::<u8>::empty(), |acc: Seq<u8>, x: Seq<u8>| acc + x)] }
    else { seq![e[0] + e[1] + e[2]] + rows_of_three(e.subrange(3, e.len() as int)) }
}

/// The symbols shown in the short table: all with `all`, else the non-local ones.
pub open spec fn shown_entries(list: Seq<Symbol>, order: Seq<usize>, all: bool) -> Seq<Seq<u8>>
    decreases order.len(),
{
    if order.len() == 0 { Seq::empty() }
    else {
        let s = list[order.last() as int];
        shown_entries(list, order.drop_last(), all) + (if all || !s.local { seq![short_entry(s)] } else { Seq::empty() })
    }
}

pub open spec fn short_head() -> Seq<u8> {
    sb("Label        Value      Label        Value      Label        Value")
}

pub open spec fn short_rule() -> Seq<u8> {
    sb("------------------      ------------------      ------------------")
}

/// The short label table, three entries to a row, after three blank lines.
pub open spec fn short_table(list: Seq<Symbol>, order: Seq<usize>, all: bool) -> Seq<Seq<u8>> {
    seq![Seq::empty(), Seq::empty(), Seq::empty(), short_head(), short_rule()]
        + rows_of_three(shown_entries(list, order, all)) + seq![Seq::<u8>::empty()]
}

fn short_entry_exec(s: &Symbol) -> (r: Vec<u8>)
    ensures r@ == short_entry(*s),
{
    let mut v: Vec<u8> = Vec::new();
    push_padded(&mut v, s.name.as_slice(), 14);
    push_hex_pad(&mut v, (s.value as u32) as u64, 4, true);
    crate::fmt::push_spaces(&mut v, 6);
    v
}

proof fn lemma_fold_concat(e: Seq<Seq<u8>>)
    requires e.len() <= 3,
    ensures e.len() == 1 ==> e.fold_left(Seq::<u8>::empty(), |acc: Seq<u8>, x: Seq<u8>| acc + x) == e[0],
        e.len() == 2 ==> e.fold_left(Seq::<u8>::empty(), |acc: Seq<u8>, x: Seq<u8>| acc + x) == e[0] + e[1],
        e.len() == 3 ==> e.fold_left(Seq::<u8>::empty(), |acc: Seq<u8>, x: Seq<u8>| acc + x) == e[0] + e[1] + e[2],
{
    let f = |acc: Seq<u8>, x: Seq<u8>| acc + x;
    if e.len() >= 1 {
        reveal_with_fuel(Seq::fold_left, 4);
        assert(e.drop_last().drop_last().drop_last().len() == e.len() - 3 || e.len() < 3);
        if e.len() == 1 { assert(e.drop_last() =~= Seq::<Seq<u8>>::empty()); assert(Seq::<u8>::empty() + e[0] =~= e[0]); }
        if e.len() == 2 {
            assert(e.drop_last().drop_last() =~= Seq::<Seq<u8>>::empty());
            assert(Seq::<u8>::empty() + e[0] =~= e[0]);
        }
        if e.len() == 3 {
            assert(e.drop_last().drop_last().drop_last() =~= Seq::<Seq<u8>>::empty());
            assert(Seq::<u8>::empty() + e[0] =~= e[0]);
        }
    }
}

/// The short label table.
pub fn short_labels(syms: &Symbols, order: &Vec<usize>, all: bool) -> (r: Vec<Vec<u8>>)
    requires forall|k: int| 0 <= k < order@.len() ==> #[trigger] order@[k] < syms.list@.len(),
    ensures lines_view(r@) == short_table(syms.list@, order@, all),
{
    let mut entries: Vec<Vec<u8>> = Vec::new();
    let mut k: usize = 0;
    while k < order.len()
        invariant k <= order.len(), lines_view(entries@) == shown_entries(syms.list@, order@.subrange(0, k as int), all),
            forall|q: int| 0 <= q < order@.len() ==> #[trigger] order@[q] < syms.list@.len(),
        decreases order.len() - k,
    {
        assert(order@.subrange(0, k + 1).drop_last() =~= order@.subrange(0, k as int));
        let s = &syms.list[order[k]];
        if all || !s.local {
            push_line(&mut entries, short_entry_exec(s));
        }
        assert(lines_view(entries@) =~= shown_entries(syms.list@, order@.subrange(0, k + 1), all));
        k += 1;
    }
    assert(order@.subrange(0, k as int) =~= order@);
    let ghost ev = lines_view(entries@);
    let mut out: Vec<Vec<u8>> = Vec::new();
    push_line(&mut out, Vec::new());
    push_line(&mut out, Vec::new());
    push_line(&mut out, Vec::new());
    push_line(&mut out, lit("Label        Value      Label        Value      Label        Value"));
    push_line(&mut out, lit("------------------      ------------------      ------------------"));
    let ghost head = lines_view(out@);
    assert(head.subrange(head.len() as int, head.len() as int) =~= Seq::<Seq<u8>>::empty());
    assert(ev.subrange(0, ev.len() as int) =~= ev);
    assert(Seq::<Seq<u8>>::empty() + rows_of_three(ev) =~= rows_of_three(ev));
    assert(head.subrange(0, head.len() as int) =~= head);
    let mut j: usize = 0;
    while j < entries.len()
        invariant j <= entries.len(), ev == lines_view(entries@),
            rows_of_three(ev) == lines_view(out@).subrange(head.len() as int, lines_view(out@).len() as int)
                + rows_of_three(ev.subrange(j as int, ev.len() as int)),
            lines_view(out@).subrange(0, head.len() as int) == head, head.len() == 5, lines_view(out@).len() >= 5,
        decreases entries.len() - j,
    {
        let n = if entries.len() - j < 3 { entries.len() - j } else { 3 };
        let mut row: Vec<u8> = Vec::new();
        let mut q: usize = 0;
        while q < n
            invariant q <= n <= 3, j + n <= entries.len(), ev == lines_view(entries@),
                row@ == ev.subrange(j as int, j + q).fold_left(Seq::<u8>::empty(), |acc: Seq<u8>, x: Seq<u8>| acc + x),
            decreases n - q,
        {
            push_all(&mut row, entries[j + q].as_slice());
            proof {
                let s1 = ev.subrange(j as int, j + q + 1);
                assert(s1.drop_last() =~= ev.subrange(j as int, j + q));
                reveal_with_fuel(Seq::fold_left, 2);
            }
            q += 1;
        }
        proof {
            let rest = ev.subrange(j as int, ev.len() as int);
            lemma_fold_concat(ev.subrange(j as int, j + n));
            if rest.len() > 3 {
                assert(rest.subrange(3, rest.len() as int) =~= ev.subrange(j + 3, ev.len() as int));
                assert(ev.subrange(j as int, j + 3) =~= seq![rest[0], rest[1], rest[2]]);
            } else {
                assert(ev.subrange(j as int, j + n) =~= rest);
            }
        }
        let ghost before = lines_view(out@);
        push_line(&mut out, row);
        proof {
            let after = lines_view(out@);
            assert(after.subrange(head.len() as int, after.len() as int)
                =~= before.subrange(head.len() as int, before.len() as int).push(row@));
            assert(after.subrange(0, head.len() as int) =~= before.subrange(0, head.len() as int));
            if j + n >= entries.len() {
                assert(ev.subrange(j + n, ev.len() as int) =~= Seq::<Seq<u8>>::empty());
            }
        }
        j += n;
    }
    proof {
        assert(ev.subrange(j as int, ev.len() as int) =~= Seq::<Seq<u8>>::empty());
    }
    let ghost mid = lines_view(out@);
    push_line(&mut out, Vec::new());
    proof {
        let fin = lines_view(out@);
        assert(mid =~= head + mid.subrange(5, mid.len() as int));
        assert(head =~= seq![Seq::empty(), Seq::empty(), Seq::empty(), short_head(), short_rule()]);
        assert(fin =~= short_table(syms.list@, order@, all));
    }
    out
}

/// One row of the long label table: value, segment and flags, name.
pub open spec fn long_entry(s: Symbol) -> Seq<u8> {
    value_hex(s.value) + spaces(5)
        + seq![segment_letter(s.segment), if s.local { 0x4Cu8 } else { 0x20u8 }, if s.exported { 0x45u8 } else { 0x20u8 }]
        + spaces(4) + pad_right(s.name@, 32)
}

pub open spec fn long_rows(list: Seq<Symbol>, order: Seq<usize>) -> Seq<Seq<u8>>
    decreases order.len(),
{
    if order.len() == 0 { Seq::empty() } else { long_rows(list, order.drop_last()).push(long_entry(list[order.last() as int])) }
}

pub open spec fn long_head() -> Seq<Seq<u8>> {
    seq![Seq::empty(), Seq::empty(), Seq::empty(),
        sb("Type Key: N=NULL_SEG C=CODE_SEG B=BIT_SEG X=EXTD_SEG D=DATA_SEG"),
        sb("          L=Local"), sb("          E=Export"), Seq::empty(),
        sb("Value    Type   Label"), sb("-----    ----   ------------------------------")]
}

/// The long label table: a legend, then one symbol to a line.
pub open spec fn long_table(list: Seq<Symbol>, order: Seq<usize>) -> Seq<Seq<u8>> {
    long_head() + long_rows(list, order) + seq![Seq::<u8>::empty()]
}

pub fn long_labels(syms: &Symbols, order: &Vec<usize>) -> (r: Vec<Vec<u8>>)
    requires forall|k: int| 0 <= k < order@.len() ==> #[trigger] order@[k] < syms.list@.len(),
    ensures lines_view(r@) == long_table(syms.list@, order@),
{
    let mut out: Vec<Vec<u8>> = Vec::new();
    push_line(&mut out, Vec::new());
    push_line(&mut out, Vec::new());
    push_line(&mut out, Vec::new());
    push_line(&mut out, lit("Type Key: N=NULL_SEG C=CODE_SEG B=BIT_SEG X=EXTD_SEG D=DATA_SEG"));
    push_line(&mut out, lit("          L=Local"));
    push_line(&mut out, lit("          E=Export"));
    push_line(&mut out, Vec::new());
    push_line(&mut out, lit("Value    Type   Label"));
    push_line(&mut out, lit("-----    ----   ------------------------------"));
    let ghost head = lines_view(out@);
    assert(head =~= long_head());
    let mut k: usize = 0;
    while k < order.len()
        invariant k <= order.len(), head == long_head(),
            lines_view(out@) == head + long_rows(syms.list@, order@.subrange(0, k as int)),
            forall|q: int| 0 <= q < order@.len() ==> #[trigger] order@[q] < syms.list@.len(),
        decreases order.len() - k,
    {
        assert(order@.subrange(0, k + 1).drop_last() =~= order@.subrange(0, k as int));
        let s = &syms.list[order[k]];
        let mut l: Vec<u8> = Vec::new();
        push_hex_pad(&mut l, (s.value as u32) as u64, 4, true);
        crate::fmt::push_spaces(&mut l, 5);
        l.push(s.segment.letter());
        l.push(if s.local { 0x4C } else { 0x20 });
        l.push(if s.exported { 0x45 } else { 0x20 });
        crate::fmt::push_spaces(&mut l, 4);
        push_padded(&mut l, s.name.as_slice(), 32);
        assert(l@ =~= long_entry(*s));
        push_line(&mut out, l);
        assert(lines_view(out@) =~= head + long_rows(syms.list@, order@.subrange(0, k + 1)));
        k += 1;
    }
    assert(order@.subrange(0, k as int) =~= order@);
    push_line(&mut out, Vec::new());
    assert(lines_view(out@) =~= long_table(syms.list@, order@));
    out
}

/// Sixteen bytes of the image from `a`, as upper-case hex separated by spaces.
pub open spec fn dump_bytes(img: Image, a: u32, i: int) -> Seq<u8>
    decreases 16 - i,
{
    if i >= 16 || i < 0 { Seq::empty() }
    else {
        hex2(img.byte_at((a + i) as u32) as int) + (if i < 15 { seq![0x20u8] } else { Seq::empty() }) + dump_bytes(img, a, i + 1)
    }
}

pub open spec fn dump_row(img: Image, a: u32) -> Seq<u8> {
    hex_pad(a as nat, 4, true) + sb("  ") + dump_bytes(img, a, 0)
}

/// The rows of the dump from `a` to `hi`, sixteen bytes apart.
pub open spec fn dump_rows(img: Image, a: int, hi: int) -> Seq<Seq<u8>>
    decreases hi - a + 16,
{
    if a > hi || a < 0 || a > 0x1_0000 { Seq::empty() } else { seq![dump_row(img, a as u32)] + dump_rows(img, a + 16, hi) }
}

/// The hex dump appended by `-h`: the written span, from its low watermark.
pub open spec fn hex_table_spec(img: Image) -> Seq<Seq<u8>> {
    seq![Seq::empty(), sb("ADDR  00 01 02 03 04 05 06 07 08 09 0A 0B 0C 0D 0E 0F"),
        Seq::new(53, |i: int| 0x2Du8)]
    + (match (img.lo, img.hi) { (Some(lo), Some(hi)) => dump_rows(img, lo as int, hi as int), _ => Seq::empty() })
    + seq![Seq::<u8>::empty(), Seq::<u8>::empty()]
}

fn dump_row_exec(img: &Image, a: u32) -> (r: Vec<u8>)
    requires img.wf(), a <= 0x1_0000,
    ensures r@ == dump_row(*img, a),
{
    let mut l: Vec<u8> = Vec::new();
    push_hex_pad(&mut l, a as u64, 4, true);
    push_str(&mut l, "  ");
    let ghost head = l@;
    let mut i: u32 = 0;
    while i < 16
        invariant i <= 16, a <= 0x1_0000, img.wf(),
            head + dump_bytes(*img, a, 0) == l@ + dump_bytes(*img, a, i as int),
        decreases 16 - i,
    {
        let ghost l0 = l@;
        let b = img.read(a + i);
        push_hex_pad(&mut l, b as u64 % 256, 2, true);
        if i < 15 { l.push(0x20); }
        assert(l@ + dump_bytes(*img, a, i + 1) =~= l0 + dump_bytes(*img, a, i as int));
        i += 1;
    }
    assert(l@ + Seq::<u8>::empty() =~= l@);
    l
}

pub fn hex_table(img: &Image) -> (r: Vec<Vec<u8>>)
    requires img.wf(),
    ensures lines_view(r@) == hex_table_spec(*img),
{
    let mut out: Vec<Vec<u8>> = Vec::new();
    push_line(&mut out, Vec::new());
    push_line(&mut out, lit("ADDR  00 01 02 03 04 05 06 07 08 09 0A 0B 0C 0D 0E 0F"));
    let mut dashes: Vec<u8> = Vec::new();
    let mut d: usize = 0;
    while d < 53
        invariant d <= 53, dashes@ == Seq::new(d as nat, |i: int| 0x2Du8),
        decreases 53 - d,
    {
        dashes.push(0x2D);
        assert(dashes@ =~= Seq::new((d + 1) as nat, |i: int| 0x2Du8));
        d += 1;
    }
    push_line(&mut out, dashes);
    let ghost head = lines_view(out@);
    match (img.lo, img.hi) {
        (Some(lo), Some(hi)) => {
            let mut a: u32 = lo;
            let ghost total = dump_rows(*img, lo as int, hi as int);
            while a <= hi
                invariant img.wf(), img.lo == Some(lo), img.hi == Some(hi), hi < 0x10000, lo <= a <= hi + 16,
                    head + total == lines_view(out@) + dump_rows(*img, a as int, hi as int),
                    total == dump_rows(*img, lo as int, hi as int),
                decreases hi + 16 - a,
            {
                let ghost o0 = lines_view(out@);
                push_line(&mut out, dump_row_exec(img, a));
                assert(lines_view(out@) + dump_rows(*img, a + 16, hi as int) =~= o0 + dump_rows(*img, a as int, hi as int));
                a += 16;
            }
            assert(lines_view(out@) + Seq::<Seq<u8>>::empty() =~= lines_view(out@));
        }
        _ => {}
    }
    let ghost mid = lines_view(out@);
    push_line(&mut out, Vec::new());
    push_line(&mut out, Vec::new());
    assert(lines_view(out@) =~= hex_table_spec(*img));
    out
}

/// The heading of page `n` of a paged listing.
pub open spec fn page_head(banner: Seq<u8>, source: Seq<u8>, title: Seq<u8>, n: nat) -> Seq<Seq<u8>> {
    seq![seq![0x0Cu8] + pad_right(banner, 34) + pad_right(source, 33) + sb("page ") + dec_digits(n),
        pad_right(title, 34), Seq::empty()]
}

/// `lines` broken into pages of `per` lines, the first page numbered `n + 1`.
pub open spec fn pages(lines: Seq<Seq<u8>>, per: int, banner: Seq<u8>, source: Seq<u8>, title: Seq<u8>, n: nat) -> Seq<Seq<u8>>
    decreases lines.len(),
{
    if lines.len() == 0 || per < 1 { Seq::empty() }
    else {
        let k = if per < lines.len() { per } else { lines.len() as int };
        page_head(banner, source, title, n + 1) + lines.subrange(0, k)
            + pages(lines.subrange(k, lines.len() as int), per, banner, source, title, n + 1)
    }
}

/// Break a listing into pages of `page` lines: a three-line heading, then
/// `page - 4` listing lines.
pub fn paginate(lines: &Vec<Vec<u8>>, page: usize, banner: &[u8], source: &[u8], title: &[u8]) -> (r: Vec<Vec<u8>>)
    requires page > 4,
    ensures lines_view(r@) == pages(lines_view(lines@), page - 4, banner@, source@, title@, 0),
{
    let per = page - 4;
    let ghost lv = lines_view(lines@);
    let ghost total = pages(lv, per as int, banner@, source@, title@, 0);
    let mut out: Vec<Vec<u8>> = Vec::new();
    assert(lv.subrange(0, lv.len() as int) =~= lv);
    assert(lines_view(out@) =~= Seq::<Seq<u8>>::empty());
    assert(Seq::<Seq<u8>>::empty() + total =~= total);
    let mut i: usize = 0;
    let mut n: usize = 0;
    while i < lines.len()
        invariant i <= lines.len(), lv == lines_view(lines@), per >= 1, n <= i,
            total == pages(lv, per as int, banner@, source@, title@, 0),
            total == lines_view(out@) + pages(lv.subrange(i as int, lv.len() as int), per as int, banner@, source@, title@, n as nat),
        decreases lines.len() - i,
    {
        let ghost o0 = lines_view(out@);
        let k = if per < lines.len() - i { per } else { lines.len() - i };
        let mut h: Vec<u8> = Vec::new();
        h.push(0x0C);
        push_padded(&mut h, banner, 34);
        push_padded(&mut h, source, 33);
        push_str(&mut h, "page ");
        push_dec(&mut h, (n + 1) as u64);
        push_line(&mut out, h);
        let mut t: Vec<u8> = Vec::new();
        push_padded(&mut t, title, 34);
        push_line(&mut out, t);
        push_line(&mut out, Vec::new());
        let mut q: usize = 0;
        while q < k
            invariant q <= k, i + k <= lines.len(), lv == lines_view(lines@),
                lines_view(out@) == o0 + page_head(banner@, source@, title@, (n + 1) as nat) + lv.subrange(i as int, i + q),
            decreases k - q,
        {
            let c = slice_vec(lines[i + q].as_slice(), 0, lines[i + q].len());
            assert(lines@[i + q]@.subrange(0, lines@[i + q]@.len() as int) =~= lines@[i + q]@);
            push_line(&mut out, c);
            assert(lv.subrange(i as int, i + q + 1) =~= lv.subrange(i as int, i + q).push(lv[i + q]));
            q += 1;
        }
        proof {
            let rest = lv.subrange(i as int, lv.len() as int);
            assert(rest.subrange(0, k as int) =~= lv.subrange(i as int, i + k));
            assert(rest.subrange(k as int, rest.len() as int) =~= lv.subrange(i + k, lv.len() as int));
            assert(lines_view(out@) + pages(lv.subrange(i + k, lv.len() as int), per as int, banner@, source@, title@, (n + 1) as nat)
                =~= o0 + pages(rest, per as int, banner@, source@, title@, n as nat));
        }
        i += k;
        n += 1;
    }
    assert(lines_view(out@) + Seq::<Seq<u8>>::empty() =~= lines_view(out@));
    out
}

// --- the assembler --------------------------------------------------------------------

/// One level of conditional assembly.
pub struct Cond {
    /// This level's branch is being assembled.
    pub active: bool,
    /// Some branch at this level has been taken.
    pub taken: bool,
}

/// The source files an assembly reads, by path; `None` for one that could
/// not be read.
pub struct Sources {
    pub files: Vec<(Vec<u8>, Option<Vec<u8>>)>,
}

/// Why a run stopped: a fatal exit status, or a file that is not among the
/// sources yet.
#[derive(Debug)]
pub enum RunError {
    Exit(i32),
    Missing(Vec<u8>),
}

pub struct Asm {
    pub o: Options,
    pub table: Table,
    pub syms: Symbols,
    pub macs: Macros,
    pub img: Image,
    pub fmt: Format,
    /// The prefix of the assembler's own messages.
    pub prog: Vec<u8>,
    pub pass: u8,
    pub pc: u32,
    pub errors: u32,
    /// What goes to standard output.
    pub stdout: Vec<u8>,
    /// The listing lines.
    pub lst: Vec<Vec<u8>>,
    /// What `.ECHO` sends to standard error.
    pub echo: Vec<u8>,
    pub local_char: u8,
    pub comment_char: u8,
    pub module: Vec<u8>,
    /// The source's own byte order for `.WORD` data.
    pub ls_first: bool,
    pub segment: Segment,
    pub end_addr: u32,
    pub saw_end: bool,
    pub cond: Vec<Cond>,
    pub listing_on: bool,
    pub codes: bool,
    pub title: Vec<u8>,
    pub sym_out: Option<Vec<u8>>,
    pub avsym: bool,
    pub file: Vec<u8>,
    /// The top-level source name, for the page heading.
    pub source_name: Vec<u8>,
    pub line_no: u32,
    pub depth: usize,
    /// Source lines read in the last pass.
    pub lines_read: u32,
    /// Bytes emitted by the current statement, for the listing.
    pub emitted: Vec<u8>,
    pub line_pc: u32,
    /// Diagnostics that belong after their listing line.
    pub pending: Vec<Vec<u8>>,
    /// Names defined so far in this pass.
    pub seen_this_pass: Vec<Vec<u8>>,
}

pub open spec fn msg_bytes(m: Msg) -> Seq<u8> {
    msg_str(m).spec_bytes()
}

pub open spec fn detail_view(d: Option<Vec<u8>>) -> Option<Seq<u8>> {
    match d { Some(x) => Some(x@), None => None }
}

pub open spec fn inc(n: u32) -> u32 {
    if n < u32::MAX { (n + 1) as u32 } else { n }
}

impl Asm {
    pub open spec fn wf(&self) -> bool {
        &&& self.syms.wf()
        &&& self.img.wf()
        &&& self.macs.wf()
        &&& self.fmt.wf()
    }

    /// The settings and position of an assembly are as in `other`: all but
    /// the symbols, the image, the counter, the line's bytes and the
    /// diagnostic output.
    pub open spec fn frame(&self, other: Asm) -> bool {
        &&& self.settled(other)
        &&& self.seen_this_pass@ == other.seen_this_pass@
    }

    /// The settings and position, but for the names seen in this pass.
    pub open spec fn settled(&self, other: Asm) -> bool {
        &&& self.o == other.o
        &&& self.table == other.table
        &&& self.macs == other.macs
        &&& self.fmt == other.fmt
        &&& self.prog@ == other.prog@
        &&& self.pass == other.pass
        &&& self.echo@ == other.echo@
        &&& self.local_char == other.local_char
        &&& self.comment_char == other.comment_char
        &&& self.module@ == other.module@
        &&& self.ls_first == other.ls_first
        &&& self.segment == other.segment
        &&& self.end_addr == other.end_addr
        &&& self.saw_end == other.saw_end
        &&& self.cond@ == other.cond@
        &&& self.listing_on == other.listing_on
        &&& self.codes == other.codes
        &&& self.title@ == other.title@
        &&& self.sym_out == other.sym_out
        &&& self.avsym == other.avsym
        &&& self.file@ == other.file@
        &&& self.source_name@ == other.source_name@
        &&& self.line_no == other.line_no
        &&& self.depth == other.depth
        &&& self.lines_read == other.lines_read
        &&& self.line_pc == other.line_pc
    }

    /// Everything but the diagnostic output (standard output, the listing,
    /// the pending lines and the error count) is as in `other`.
    pub open spec fn keeps_state(&self, other: Asm) -> bool {
        &&& self.frame(other)
        &&& self.syms == other.syms
        &&& self.img == other.img
        &&& self.pc == other.pc
        &&& self.emitted@ == other.emitted@
    }

    /// The diagnostic output: standard output, the listing, the lines that
    /// follow the current listing line, and the error count.
    pub open spec fn out_state(&self) -> (Seq<u8>, Seq<Seq<u8>>, Seq<Seq<u8>>, u32) {
        (self.stdout@, lines_view(self.lst@), lines_view(self.pending@), self.errors)
    }

    /// The diagnostic output after one diagnostic `(m, d)` is raised here:
    /// nothing in pass 1 or in a skipped branch; otherwise its rendered line on
    /// standard output, in the listing (after the current line when the
    /// message ends in a space) unless the listing is off, and one more error.
    pub open spec fn diag_step(&self, st: (Seq<u8>, Seq<Seq<u8>>, Seq<Seq<u8>>, u32), m: Msg, d: Option<Seq<u8>>)
        -> (Seq<u8>, Seq<Seq<u8>>, Seq<Seq<u8>>, u32)
    {
        if self.pass != 2 || self.skipping_spec() { st } else {
            let text = self.fmt.rendered(self.file@, self.line_no, msg_bytes(m), d);
            let listed = self.listing_on && !self.o.quiet;
            let late = msg_bytes(m).len() > 0 && msg_bytes(m).last() == 0x20;
            (st.0 + text + seq![0x0Au8],
             if listed && !late { st.1.push(text) } else { st.1 },
             if listed && late { st.2.push(text) } else { st.2 },
             inc(st.3))
        }
    }

    /// The diagnostic output after `(m, d)` is reported whatever the pass.
    pub open spec fn report_step(&self, st: (Seq<u8>, Seq<Seq<u8>>, Seq<Seq<u8>>, u32), m: Msg, d: Option<Seq<u8>>)
        -> (Seq<u8>, Seq<Seq<u8>>, Seq<Seq<u8>>, u32)
    {
        let text = self.fmt.rendered(self.file@, self.line_no, msg_bytes(m), d);
        let listed = self.listing_on && !self.o.quiet;
        let late = msg_bytes(m).len() > 0 && msg_bytes(m).last() == 0x20;
        (st.0 + text + seq![0x0Au8],
         if listed && !late { st.1.push(text) } else { st.1 },
         if listed && late { st.2.push(text) } else { st.2 },
         inc(st.3))
    }

    /// The diagnostic output after each name in `names` is reported as a
    /// forward reference in an equate, outside a skipped branch.
    pub open spec fn forwards(&self, st: (Seq<u8>, Seq<Seq<u8>>, Seq<Seq<u8>>, u32), names: Seq<Seq<u8>>)
        -> (Seq<u8>, Seq<Seq<u8>>, Seq<Seq<u8>>, u32)
        decreases names.len(),
    {
        if names.len() == 0 { st } else {
            let st1 = self.forwards(st, names.drop_last());
            if self.skipping_spec() { st1 } else { self.report_step(st1, Msg::ForwardInEquate, Some(names.last())) }
        }
    }

    /// The diagnostic output once `text` is evaluated as an operand: its
    /// diagnostics, then `Label not found:` for each unresolved name.
    pub open spec fn eval_out(&self, text: Seq<u8>) -> (Seq<u8>, Seq<Seq<u8>>, Seq<Seq<u8>>, u32) {
        let st = evaluate(self.env(text)).1;
        self.diags_out(st.diags + st.undef.map_values(|n: Seq<u8>| (Msg::LabelNotFound, Some(n))))
    }

    /// The diagnostic output once `text` is evaluated for an equate: its
    /// diagnostics, then a forward reference for each unresolved name.
    pub open spec fn equate_out(&self, text: Seq<u8>) -> (Seq<u8>, Seq<Seq<u8>>, Seq<Seq<u8>>, u32) {
        let st = evaluate(self.env(text)).1;
        self.forwards(self.diags_out(st.diags), st.undef)
    }

    /// The diagnostic output after each of `ds` is raised in turn.
    pub open spec fn diags_out(&self, ds: Seq<(Msg, Option<Seq<u8>>)>) -> (Seq<u8>, Seq<Seq<u8>>, Seq<Seq<u8>>, u32)
        decreases ds.len(),
    {
        if ds.len() == 0 { self.out_state() } else {
            self.diag_step(self.diags_out(ds.drop_last()), ds.last().0, ds.last().1)
        }
    }

    /// What a data directive does (see `data_directive`).
    pub open spec fn data_directive_done(&self, after: Asm, which: Dir, operand: Seq<u8>) -> bool {
        &&& (after.errors >= self.errors)
        &&& (after.frame(*self))
        &&& (after.syms == self.syms)
        &&& (which == Dir::Block ==> after.emitted@ == self.emitted@ 
            && after.pc == advanced(self.table.wordaddrs, self.pc, to_u32(self.value_of(operand))))
        &&& (which != Dir::Block ==> after.pc == advanced(self.table.wordaddrs, self.pc, (after.emitted@.len() as u32)))
        &&& (which == Dir::Byte ==> after.emitted@ == self.emitted@ + self.byte_data(operands(operand)))
        &&& (which == Dir::Word ==> after.emitted@ == self.emitted@ + self.word_data(operands(operand)))
        &&& (which == Dir::Text ==> after.emitted@ == self.emitted@ + text_spec(trim(operand)).0)
        &&& (which == Dir::Fill ==> after.emitted@ == self.emitted@ + self.fill_data(operands(operand)))
        &&& (which == Dir::Chk ==> after.emitted@ == self.emitted@.push(self.chk_byte(operand)))
        &&& (self.pass != 2 ==> after.img.mem_view() == self.img.mem_view())
        &&& (self.pass == 2 && which == Dir::Byte ==> after.img.mem_view() == self.written(self.byte_data(operands(operand))))
        &&& (self.pass == 2 && which == Dir::Word ==> after.img.mem_view() == self.written(self.word_data(operands(operand))))
        &&& (self.pass == 2 && which == Dir::Text ==> after.img.mem_view() == self.written(text_spec(trim(operand)).0))
        &&& (self.pass == 2 && which == Dir::Fill ==> after.img.mem_view() == self.written(self.fill_data(operands(operand))))
        &&& (self.pass == 2 && which == Dir::Chk ==> after.img.mem_view() == self.written(seq![self.chk_byte(operand)]))
    }

    /// What a setting directive does (see `setting_directive`).
    pub open spec fn setting_directive_done(&self, after: Asm, which: Dir, operand: Seq<u8>) -> bool {
        &&& (after.errors >= self.errors)
        &&& (after.fixed(*self))
        &&& (after.segment == match which { Dir::Seg(g) => g, _ => self.segment })
        &&& (after.listing_on == if which == Dir::List { true } else if which == Dir::NoList { false } 
            else { self.listing_on })
        &&& (after.codes == if which == Dir::Codes { true } else if which == Dir::NoCodes { false } 
            else { self.codes })
        &&& (after.title@ == if which == Dir::Title { unquoted(trim(operand)) } else { self.title@ })
        &&& (after.ls_first == if which == Dir::LsFirst { true } else if which == Dir::MsFirst { false } 
            else { self.ls_first })
        &&& (after.module@ == if which == Dir::Module { trim(operand) } else { self.module@ })
        &&& (after.local_char == if which == Dir::LocalLabelChar && self.pass == 1 && operand.len() > 1 { 
            operand[1] } else { self.local_char })
        &&& (after.comment_char == if which == Dir::CommentChar && self.pass == 1 && operand.len() > 1 { 
            operand[1] } else { self.comment_char })
        &&& (after.avsym == if (which == Dir::Sym || which == Dir::AvSym) && self.pass == 1 { 
            which == Dir::AvSym } else { self.avsym })
        &&& ((which == Dir::Sym || which == Dir::AvSym) && self.pass == 1 ==> 
            detail_view(after.sym_out) == if trim(operand).len() > 0 { Some(trim(operand)) } 
            else if self.sym_out is None { Some(Seq::<u8>::empty()) } else { detail_view(self.sym_out) })
        &&& (!((which == Dir::Sym || which == Dir::AvSym) && self.pass == 1) ==> after.sym_out == self.sym_out)
        &&& (which != Dir::Define && which != Dir::DefCont && (which != Dir::Undef || self.o.compatibility) 
            ==> after.macs@ == self.macs@)
        &&& (which == Dir::Undef && !self.o.compatibility ==> ({ 
            let k = macro_index(self.macs@, trim(operand), 0); 
            after.macs@ == if k < self.macs@.len() { self.macs@.remove(k) } else { self.macs@ } 
            }))
    }

    /// What a conditional directive does (see `conditional`).
    pub open spec fn conditional_done(&self, after: Asm, which: Dir, operand: Seq<u8>) -> bool {
        &&& (after.errors >= self.errors)
        &&& (after.keeps_state(Asm { cond: after.cond, ..*self }))
        &&& ((which == Dir::If || which == Dir::IfDef || which == Dir::IfNDef) ==> conds(after.cond@) 
            == conds(self.cond@).push(if self.cond@.len() >= MAX_CONDITIONALS - 1 { (false, true) } 
            else { (self.if_taken(which, operand), self.if_taken(which, operand) || self.skipping_spec()) }))
        &&& (which == Dir::Else ==> conds(after.cond@) == if self.cond@.len() == 0 { conds(self.cond@) } 
            else { conds(self.cond@).update(self.cond@.len() - 1, (!self.cond@.last().taken, true)) })
        &&& (which == Dir::EndIf ==> conds(after.cond@) == if self.cond@.len() == 0 { conds(self.cond@) } 
            else { conds(self.cond@).drop_last() })
    }

    /// What `.EQU`, `.SET` or `.EXPORT` does (see `symbol_directive`).
    pub open spec fn symbol_directive_done(&self, after: Asm, which: Dir, operand: Seq<u8>, label: Option<Seq<u8>>) -> bool {
        &&& (after.errors >= self.errors)
        &&& (after.settled(*self))
        &&& (after.img == self.img)
        &&& (after.pc == self.pc)
        &&& (after.emitted@ == self.emitted@)
        &&& (after.syms.ignore_case == self.syms.ignore_case)
        &&& (!(which == Dir::Equ && label is Some && !self.seen_name(strip_eq(label->0))) 
            ==> after.seen_this_pass@ == self.seen_this_pass@)
        &&& ((label is None && which != Dir::Export) ==> after.syms == self.syms)
        &&& (which == Dir::Export && self.pass != 2 ==> after.syms == self.syms)
        &&& (which == Dir::Equ && label is Some ==> ({ 
            let raw = strip_eq(label->0); 
            let q = self.label_key(raw); 
            let v = self.value_of(operand); 
            &&& (self.seen_name(raw) ==> after.syms == self.syms) 
            &&& (!self.seen_name(raw) ==> seqs(after.seen_this_pass@) == seqs(self.seen_this_pass@).push(q)) 
            &&& (!self.seen_name(raw) && self.pass == 1 && self.syms.value_of(q) is None 
            && self.syms.list@.len() < MAX_SYMBOLS ==> after.syms.value_of(q) == Some(v)) 
            &&& (!self.seen_name(raw) && self.pass == 1 && self.syms.value_of(q) is Some 
            ==> after.syms == self.syms) 
            &&& (!self.seen_name(raw) && self.pass != 1 && self.syms.value_of(q) is Some 
            ==> after.syms.value_of(q) == Some(v)) 
            }))
        &&& (which == Dir::SetValue && label is Some ==> ({ 
            let q = self.label_key(label->0); 
            &&& (self.syms.value_of(q) is Some ==> after.syms.value_of(q) == Some(self.value_of(operand))) 
            &&& (self.syms.value_of(q) is None ==> after.syms.list@ == self.syms.list@) 
            }))
        &&& (which == Dir::Equ ==> after.out_state() == if label is Some && self.seen_name(strip_eq(label->0))
                && self.o.strict & 0x04 != 0 && self.pass == 1 {
                self.report_step(self.equate_out(trim(operand)), Msg::DuplicateLabel, Some(truncated(strip_eq(label->0))))
            } else { self.equate_out(trim(operand)) })
        &&& (which == Dir::SetValue ==> after.out_state() == if label is Some
                && self.syms.value_of(self.label_key(label->0)) is None {
                self.diag_step(self.eval_out(trim(operand)), Msg::SetPreexist, Some(truncated(label->0)))
            } else { self.eval_out(trim(operand)) })
        &&& (which == Dir::Export ==> after.out_state() == self.out_state())
    }

    /// What `.ORG`, `.END`, `.ECHO`, `.ADDINSTR` or an unknown directive does (see `control_directive`).
    pub open spec fn control_directive_done(&self, after: Asm, which: Dir, operand: Seq<u8>, r: Result<(), RunError>) -> bool {
        &&& (after.errors >= self.errors)
        &&& (after.syms == self.syms)
        &&& (after.emitted@ == self.emitted@)
        &&& (after.img.mem_view() == self.img.mem_view())
        &&& (after.img.lo == self.img.lo)
        &&& (after.img.hi == self.img.hi)
        &&& (after.macs == self.macs)
        &&& (after.cond@ == self.cond@)
        &&& (after.seen_this_pass@ == self.seen_this_pass@)
        &&& (after.pass == self.pass)
        &&& (after.o == self.o)
        &&& (after.local_char == self.local_char)
        &&& (after.prog@ == self.prog@)
        &&& (after.comment_char == self.comment_char)
        &&& (after.module@ == self.module@)
        &&& (after.segment == self.segment)
        &&& (after.depth == self.depth)
        &&& (after.listing_on == self.listing_on)
        &&& (after.codes == self.codes)
        &&& (after.file@ == self.file@)
        &&& (after.line_no == self.line_no)
        &&& (after.lines_read == self.lines_read)
        &&& (after.source_name@ == self.source_name@)
        &&& (after.table.msfirst == self.table.msfirst)
        &&& (after.table.wordaddrs == self.table.wordaddrs)
        &&& (after.table.banner == self.table.banner)
        &&& (r is Err <==> (which == Dir::AddInstr && self.pass == 1 && self.table.rows.len() >= MAX_TABLE_ROWS))
        &&& (r is Err ==> r == Err::<(), RunError>(RunError::Exit(EXIT_FATAL)))
        &&& (which == Dir::Org ==> after.pc == to_u32(self.value_of(operand)) 
            && after.line_pc == after.pc)
        &&& (which != Dir::Org ==> after.pc == self.pc && after.line_pc == self.line_pc)
        &&& (after.saw_end == (self.saw_end || which == Dir::End))
        &&& (after.end_addr == if which == Dir::End && trim(operand).len() > 0 { 
            to_u32(self.value_of(operand)) & 0xFFFF } else { self.end_addr })
        &&& (which == Dir::AddInstr && self.pass == 1 && self.table.rows.len() < MAX_TABLE_ROWS ==> 
            after.table@.rows == match row_of(operand) { 
            Some(row) => self.table@.rows.push(row), 
            None => self.table@.rows, 
            })
        &&& (!(which == Dir::AddInstr && self.pass == 1) ==> after.table == self.table)
        &&& (which == Dir::Echo && self.pass == 2 ==> after.echo@ == self.echo@ + if trim(operand).len() > 0 
            && trim(operand)[0] == 0x22 { text_spec(trim(operand)).0 } else { dec_signed(self.value_of(operand) as int) })
        &&& (!(which == Dir::Echo && self.pass == 2) ==> after.echo@ == self.echo@)
    }

    /// What a directive does, by its selector: each kind as its own function
    /// states it; `.INCLUDE` assembles the named source one level deeper,
    /// or at the nesting limit reports `Include nesting too deep.`
    pub open spec fn directive_done(&self, after: Asm, files: Seq<(Seq<u8>, Option<Seq<u8>>)>, which: Dir,
        name: Seq<u8>, operand: Seq<u8>, label: Option<Seq<u8>>, depth: int, e: Option<RunError>) -> bool
        decreases MAX_INCLUDE_DEPTH - depth, 0int, 0int,
    {
        match which {
            Dir::Byte | Dir::Word | Dir::Text | Dir::Fill | Dir::Block | Dir::Chk =>
                e is None && self.data_directive_done(after, which, operand),
            Dir::Org | Dir::End | Dir::Echo | Dir::AddInstr | Dir::Unknown =>
                self.control_directive_done(after, which, operand, match e { Some(x) => Err(x), None => Ok(()) }),
            Dir::Equ | Dir::SetValue | Dir::Export =>
                e is None && self.symbol_directive_done(after, which, operand, label),
            Dir::If | Dir::IfDef | Dir::IfNDef | Dir::Else | Dir::EndIf =>
                e is None && self.conditional_done(after, which, operand),
            Dir::Include => if depth + 1 >= MAX_INCLUDE_DEPTH {
                    e is None && after.keeps_state(*self) && after.out_state()
                        == self.diag_step(self.out_state(), Msg::IncludeTooDeep, Some(unquoted(trim(operand))))
                } else {
                    self.assembled(after, files, unquoted(trim(operand)), depth + 1, e)
                },
            _ => e is None && self.setting_directive_done(after, which, operand),
        }
    }

    /// What defining the label `raw` at `value` does (see `define_label`).
    pub open spec fn label_done(&self, after: Asm, raw: Seq<u8>, value: i32) -> bool {
        &&& after.wf()
        &&& after.errors >= self.errors
        &&& after.settled(*self) && after.img == self.img && after.pc == self.pc
        &&& after.emitted@ == self.emitted@
        &&& seqs(after.seen_this_pass@) == if self.seen_name(raw) { seqs(self.seen_this_pass@) }
            else { seqs(self.seen_this_pass@).push(self.label_key(raw)) }
        &&& (self.seen_name(raw) || self.pass != 1 ==> after.syms == self.syms)
        &&& (self.syms.value_of(self.label_key(raw)) is Some
            ==> after.syms.value_of(self.label_key(raw)) == self.syms.value_of(self.label_key(raw)))
        &&& (!self.seen_name(raw) && self.pass == 1 && self.syms.value_of(self.label_key(raw)) is None
            && self.syms.list@.len() < MAX_SYMBOLS ==> after.syms.value_of(self.label_key(raw)) == Some(value))
    }

    /// What assembling the instruction `mnem operand` does (see `instruction`).
    pub open spec fn instruction_done(&self, after: Asm, mnem: Seq<u8>, operand: Seq<u8>) -> bool {
        let f = find_spec(self.table@, mnem, operand, self.o.class_mask);
        &&& after.wf() && after.errors >= self.errors
        &&& after.frame(*self) && after.syms == self.syms
        &&& match f {
            None => after.emitted@ == self.emitted@ && after.pc == self.pc && after.img == self.img,
            Some(g) => after.emitted@ == self.emitted@ + self.instr_bytes(g)
                && after.pc == advanced(self.table.wordaddrs, self.pc, (after.emitted@.len() as u32)),
        }
        &&& (self.pass != 2 ==> after.img.mem_view() == self.img.mem_view())
        &&& (self.pass == 2 && f is Some ==> after.img.mem_view() == self.written(self.instr_bytes(f->0)))
    }

    /// The diagnostic for an instruction no row matches: `unrecognized
    /// argument.` with the operand when some row has the mnemonic, else
    /// `unrecognized instruction.` with the mnemonic upper-cased.
    pub open spec fn unmatched_out(&self, mnem: Seq<u8>, operand: Seq<u8>) -> (Seq<u8>, Seq<Seq<u8>>, Seq<Seq<u8>>, u32) {
        let up = upper_seq(mnem);
        if exists|i: int| 0 <= i < self.table@.rows.len() && self.table@.rows[i].mnemonic == up {
            self.diag_step(self.out_state(), Msg::BadArgument, Some(trim(operand)))
        } else {
            self.diag_step(self.out_state(), Msg::BadInstruction, Some(up))
        }
    }

    /// The label of a statement defined at the counter, unless the statement
    /// is an `.EQU` or `.SET` that defines it itself.
    pub open spec fn labelled(&self, after: Asm, label: Option<Seq<u8>>, own: bool) -> bool {
        match label {
            Some(n) => if own { after == *self } else { self.label_done(after, n, self.pc as i32) },
            None => after == *self,
        }
    }

    /// What listing the current line as `shown` does (see `list_line`).
    pub open spec fn list_line_done(&self, after: Asm, shown: Seq<u8>) -> bool {
        &&& after == (Asm { lst: after.lst, emitted: after.emitted, ..*self })
        &&& lines_view(after.lst@) == lines_view(self.lst@) + self.listing_lines(shown)
        &&& after.emitted@ == if self.pass != 2 || self.o.quiet || !self.listing_on { self.emitted@ }
            else { Seq::empty() }
    }

    /// The end of a line: listed as `shown`, then the lines that wait for it.
    pub open spec fn listed(&self, after: Asm, shown: Seq<u8>) -> bool {
        exists|d: Asm| #[trigger] self.list_line_done(d, shown)
            && after == (Asm { lst: after.lst, pending: after.pending, ..d })
            && after.pending@.len() == 0
            && lines_view(after.lst@) == lines_view(d.lst@) + lines_view(d.pending@)
    }

    /// What one statement does: nothing when empty; while a branch is
    /// skipped, only a conditional directive; otherwise its label, then its
    /// directive or instruction.
    pub open spec fn statement_done(&self, after: Asm, files: Seq<(Seq<u8>, Option<Seq<u8>>)>, stmt: Seq<u8>,
        depth: int, e: Option<RunError>) -> bool
        decreases MAX_INCLUDE_DEPTH - depth, 1int, 0int,
    {
        let p = statement_parts(stmt, self.comment_char, self.local_char);
        let is_dir = p.1.len() > 0 && !is_alpha(p.1[0]);
        let which = if is_dir { dir_spec(dir_name(p.1)) } else { Dir::Unknown };
        if p.1.len() == 0 && p.0 is None {
            after == *self && e is None
        } else if self.skipping_spec() {
            e is None && if is_dir && (which == Dir::If || which == Dir::IfDef || which == Dir::IfNDef
                || which == Dir::Else || which == Dir::EndIf) {
                self.conditional_done(after, which, p.2)
            } else { after == *self }
        } else {
            let own = is_dir && (which == Dir::Equ || which == Dir::SetValue);
            exists|m: Asm| #[trigger] m.wf() && self.labelled(m, p.0, own) && if p.1.len() == 0 {
                after == m && e is None
            } else if is_dir {
                m.directive_done(after, files, which, dir_name(p.1), p.2, p.0, depth, e)
            } else {
                e is None && m.instruction_done(after, p.1, p.2)
            }
        }
    }

    /// The statements `stmts` in turn, stopping at the first that fails.
    pub open spec fn stmts_done(&self, after: Asm, files: Seq<(Seq<u8>, Option<Seq<u8>>)>, stmts: Seq<Seq<u8>>,
        depth: int, e: Option<RunError>) -> bool
        decreases MAX_INCLUDE_DEPTH - depth, 2int, stmts.len(),
    {
        if stmts.len() == 0 {
            after == *self && e is None
        } else {
            ||| e is Some && self.stmts_done(after, files, stmts.drop_last(), depth, e)
            ||| exists|m: Asm| #[trigger] m.wf() && self.stmts_done(m, files, stmts.drop_last(), depth, None)
                && m.statement_done(after, files, stmts.last(), depth, e)
        }
    }

    /// What one source line does: its carriage return dropped, its bytes and
    /// counter reset, its macros expanded (not in a skipped branch) with
    /// their diagnostics, its comment stripped, its statements assembled, and
    /// the line listed (expanded with `-x`) with the lines that wait for it.
    pub open spec fn line_done(&self, after: Asm, files: Seq<(Seq<u8>, Option<Seq<u8>>)>, raw: Seq<u8>,
        depth: int, e: Option<RunError>) -> bool
        decreases MAX_INCLUDE_DEPTH - depth, 3int, 0int,
    {
        let text = strip_cr(raw);
        exists|a: Asm| #[trigger] a.wf() && a.line_pc == self.pc && a.emitted@.len() == 0
            && *self == (Asm { line_pc: self.line_pc, emitted: self.emitted, ..a })
            && exists|b: Asm| #[trigger] a.line_expanded(b, text) && {
                let code = a.line_code(text);
                let shown = if a.o.expand { a.line_expansion(text).0 } else { text };
                ||| e is Some && b.stmts_done(after, files, code, depth, e)
                ||| e is None && exists|c: Asm| #[trigger] c.wf() && b.stmts_done(c, files, code, depth, None)
                    && c.listed(after, shown)
            }
    }

    /// A line's macro expansion and its diagnostics (none in a skipped branch).
    pub open spec fn line_expansion(&self, text: Seq<u8>) -> (Seq<u8>, Seq<Msg>) {
        if self.skipping_spec() { (text, Seq::empty()) } else { expand_spec(self.macs@, text, self.comment_char) }
    }

    /// The statements of a line once expanded and stripped of its comment.
    pub open spec fn line_code(&self, text: Seq<u8>) -> Seq<Seq<u8>> {
        split_quoted(code_of(self.line_expansion(text).0, self.comment_char), 0x5C, 0, None, Seq::empty())
    }

    /// The expansion's diagnostics raised, nothing else changed.
    pub open spec fn line_expanded(&self, after: Asm, text: Seq<u8>) -> bool {
        &&& after.wf()
        &&& after.keeps_state(*self)
        &&& after.out_state() == self.diags_out(self.line_expansion(text).1.map_values(|e: Msg| (e, None::<Seq<u8>>)))
    }

    /// The lines `lines` in turn, numbered from 1, stopping at the first that fails.
    pub open spec fn lines_done(&self, after: Asm, files: Seq<(Seq<u8>, Option<Seq<u8>>)>, lines: Seq<Seq<u8>>,
        depth: int, e: Option<RunError>) -> bool
        decreases MAX_INCLUDE_DEPTH - depth, 4int, lines.len(),
    {
        if lines.len() == 0 {
            after == *self && e is None
        } else {
            ||| e is Some && self.lines_done(after, files, lines.drop_last(), depth, e)
            ||| exists|m: Asm| #[trigger] m.wf() && self.lines_done(m, files, lines.drop_last(), depth, None)
                && (Asm { line_no: (#[verifier::truncate] ((lines.len() - 1) as u32)).wrapping_add(1),
                    lines_read: m.lines_read.wrapping_add(1), ..m }).line_done(after, files, lines.last(), depth, e)
        }
    }

    /// What assembling the source `path` at include depth `depth` does: a
    /// path not among `files` stops with `Missing`, one that could not be
    /// read with the file exit code; otherwise its lines in turn, then the
    /// includer's file, line and depth restored.
    pub open spec fn assembled(&self, after: Asm, files: Seq<(Seq<u8>, Option<Seq<u8>>)>, path: Seq<u8>, depth: int,
        e: Option<RunError>) -> bool
        decreases MAX_INCLUDE_DEPTH - depth, 5int, 0int,
    {
        let k = src_index(files, path, 0);
        if k >= files.len() {
            after == *self && (e matches Some(RunError::Missing(p)) && p@ == path)
        } else {
            match files[k].1 {
                None => after == *self && e == Some(RunError::Exit(EXIT_FILE)),
                Some(t) => exists|a: Asm| #[trigger] a.wf() && a.file@ == path && a.depth == depth
                    && *self == (Asm { file: self.file, depth: self.depth, ..a }) && {
                    let lines = lines_from(t, 0, Seq::empty());
                    ||| e is Some && a.lines_done(after, files, lines, depth, e)
                    ||| e is None && after.file@ == self.file@ && after.line_no == self.line_no && after.depth == self.depth
                        && exists|b: Asm| #[trigger] b.wf() && a.lines_done(b, files, lines, depth, None)
                            && b == (Asm { file: b.file, line_no: b.line_no, depth: b.depth, ..after })
                },
            }
        }
    }

    /// What evaluating `text` here yields.
    pub open spec fn env(&self, text: Seq<u8>) -> Env {
        Env { s: text, pc: self.pc as i32, compat: self.o.compatibility, lc: self.local_char, strict: false,
            syms: self.syms, module: self.module@ }
    }

    /// The current branch is being skipped.
    pub open spec fn skipping_spec(&self) -> bool {
        self.cond@.len() > 0 && !self.cond@.last().active
    }

    /// The image address of the counter: doubled with word addressing.
    pub open spec fn byte_addr_spec(&self) -> u32 {
        if self.table.wordaddrs { (self.pc as int * 2 % 0x1_0000_0000) as u32 } else { self.pc }
    }

    /// An assembler for `o` over `table`, in pass 1 with nothing assembled;
    /// its own messages carry `--message-prefix`.
    pub fn new(o: Options, table: Table, fmt: Format) -> (r: Asm)
        requires fmt.wf(),
        ensures r.wf(), r.pass == 1, r.pc == 0, r.errors == 0, r.stdout@.len() == 0, r.lst@.len() == 0,
            r.o == o, r.table == table, r.fmt == fmt, r.prog@ == o.message_prefix@,
            r.local_char == 0x5F, r.comment_char == 0x3B, r.module@ == sb("noname"), r.ls_first,
            r.segment == Segment::Null, r.cond@.len() == 0, r.listing_on, r.codes, r.syms.list@.len() == 0,
            r.syms.ignore_case == o.ignore_case, r.macs@.len() == 0,
            r.img.mem_view() == Seq::new(0x10000, |i: int| match o.fill { Some(f) => f, None => 0u8 }),
            r.img.lo is None, r.img.regions@.len() == 0, r.img.current() is None, !r.syms.overflowed,
            r.echo@.len() == 0, r.end_addr == 0, !r.saw_end, r.title@.len() == 0, r.sym_out is None, !r.avsym,
            r.file@.len() == 0, r.source_name@.len() == 0, r.line_no == 0, r.depth == 0, r.lines_read == 0,
            r.emitted@.len() == 0, r.line_pc == 0, r.pending@.len() == 0, r.seen_this_pass@.len() == 0,
    {
        let prog = vec_copy(&o.message_prefix);
        let ignore_case = o.ignore_case;
        let fill = match o.fill { Some(f) => f, None => 0 };
        Asm {
            table,
            syms: Symbols::new(ignore_case),
            macs: Macros::new(),
            img: Image::new(fill),
            fmt,
            prog,
            pass: 1,
            pc: 0,
            errors: 0,
            stdout: Vec::new(),
            lst: Vec::new(),
            echo: Vec::new(),
            local_char: 0x5F,
            comment_char: 0x3B,
            module: lit("noname"),
            ls_first: true,
            segment: Segment::Null,
            end_addr: 0,
            saw_end: false,
            cond: Vec::new(),
            listing_on: true,
            codes: true,
            title: Vec::new(),
            sym_out: None,
            avsym: false,
            file: Vec::new(),
            source_name: Vec::new(),
            line_no: 0,
            depth: 0,
            lines_read: 0,
            emitted: Vec::new(),
            line_pc: 0,
            pending: Vec::new(),
            seen_this_pass: Vec::new(),
            o,
        }
    }

    fn byte_addr(&self) -> (r: u32)
        ensures r == self.byte_addr_spec(),
    {
        if self.table.wordaddrs { self.pc.wrapping_mul(2) } else { self.pc }
    }

    /// Advance the counter over `bytes` bytes; with word addressing an odd
    /// count still takes a whole word.
    fn advance(&mut self, bytes: u32)
        ensures
            final(self).pc == if old(self).table.wordaddrs {
                ((old(self).pc as int + (bytes as int + 1) / 2) % 0x1_0000_0000) as u32
            } else { ((old(self).pc as int + bytes as int) % 0x1_0000_0000) as u32 },
            final(self).frame(*old(self)), final(self).syms == old(self).syms, final(self).img == old(self).img,
            final(self).emitted@ == old(self).emitted@, final(self).errors == old(self).errors,
            final(self).stdout@ == old(self).stdout@, final(self).lst@ == old(self).lst@,
            final(self).pending@ == old(self).pending@,
    {
        self.pc = if self.table.wordaddrs {
            self.pc.wrapping_add(((bytes as u64 + 1) / 2) as u32)
        } else {
            self.pc.wrapping_add(bytes)
        };
    }

    fn skipping(&self) -> (r: bool)
        ensures r == self.skipping_spec(),
    {
        self.cond.len() > 0 && !self.cond[self.cond.len() - 1].active
    }

    /// Report a diagnostic: on standard output, and in the listing unless it
    /// is off; a message padded with trailing spaces follows its line.
    fn report(&mut self, m: Msg, detail: Option<Vec<u8>>)
        requires old(self).wf(),
        ensures
            final(self).wf(),
            final(self).stdout@ == old(self).stdout@
                + old(self).fmt.rendered(old(self).file@, old(self).line_no, msg_bytes(m), detail_view(detail)) + seq![0x0Au8],
            final(self).errors == inc(old(self).errors),
            final(self).keeps_state(*old(self)),
            final(self).out_state() == old(self).report_step(old(self).out_state(), m, detail_view(detail)),
    {
        let ghost lst0 = lines_view(self.lst@);
        let ghost pend0 = lines_view(self.pending@);
        let text = self.fmt.render(self.file.as_slice(), self.line_no, m.text().as_bytes(),
            match &detail { Some(d) => Some(d.as_slice()), None => None });
        push_all(&mut self.stdout, text.as_slice());
        self.stdout.push(0x0A);
        if self.listing_on && !self.o.quiet {
            let mb = m.text().as_bytes();
            let ghost tv = text@;
            if mb.len() > 0 && mb[mb.len() - 1] == 0x20 {
                self.pending.push(text);
                assert(lines_view(self.pending@) =~= pend0.push(tv));
            } else {
                self.lst.push(text);
                assert(lines_view(self.lst@) =~= lst0.push(tv));
            }
        }
        if self.errors < u32::MAX { self.errors = self.errors + 1; }
    }

    /// A diagnostic, raised only in pass 2 and outside a skipped branch.
    fn diag(&mut self, m: Msg, detail: Option<Vec<u8>>)
        requires old(self).wf(),
        ensures
            final(self).wf(),
            old(self).pass != 2 || old(self).skipping_spec() ==> final(self).errors == old(self).errors
                && final(self).stdout@ == old(self).stdout@,
            !(old(self).pass != 2 || old(self).skipping_spec()) ==> final(self).errors == inc(old(self).errors),
            final(self).errors >= old(self).errors,
            final(self).keeps_state(*old(self)),
            final(self).out_state() == old(self).diag_step(old(self).out_state(), m, detail_view(detail)),
    {
        if self.pass != 2 || self.skipping() {
            return;
        }
        self.report(m, detail);
    }

    /// Evaluate an operand, reporting its diagnostics; an unresolved name is
    /// `Label not found:` (so, in effect, in pass 2 only).
    fn eval(&mut self, text: &[u8]) -> (r: i32)
        requires old(self).wf(),
        ensures
            r == evaluate(old(self).env(text@)).0,
            final(self).wf(), final(self).errors >= old(self).errors,
            final(self).keeps_state(*old(self)),
            final(self).out_state() == old(self).eval_out(text@),
    {
        let out = crate::expr::eval_strict(text, self.pc as i32, self.o.compatibility, self.local_char, 0,
            &self.syms, self.module.as_slice());
        proof { assert(0u32 & 0x08u32 == 0) by (bit_vector); }
        let value = out.value;
        let ghost s0 = *self;
        let ghost st = evaluate(s0.env(text@)).1;
        self.report_all(&out.diags);
        let undefined = out.undefined;
        let ghost dv = st.diags;
        let ghost uv = st.undef.map_values(|n: Seq<u8>| (Msg::LabelNotFound, Some(n)));
        let mut j: usize = 0;
        assert(dv + uv.subrange(0, 0) =~= dv);
        while j < undefined.len()
            invariant j <= undefined.len(), self.wf(), self.errors >= s0.errors, self.keeps_state(s0),
                crate::expr::names_view(undefined@) == st.undef, uv.len() == undefined@.len(),
                uv == st.undef.map_values(|n: Seq<u8>| (Msg::LabelNotFound, Some(n))),
                self.out_state() == s0.diags_out(dv + uv.subrange(0, j as int)),
            decreases undefined.len() - j,
        {
            let name = slice_vec(undefined[j].as_slice(), 0, undefined[j].len());
            assert(undefined@[j as int]@.subrange(0, undefined@[j as int]@.len() as int) =~= undefined@[j as int]@);
            assert(crate::expr::names_view(undefined@)[j as int] == undefined@[j as int]@);
            let ghost x = (Msg::LabelNotFound, Some(name@));
            assert(uv[j as int] == x);
            let ghost s1 = *self;
            self.diag(Msg::LabelNotFound, Some(name));
            proof {
                lemma_step_same(s1, s0, s1.out_state(), x.0, x.1);
                lemma_diags_push(s0, dv + uv.subrange(0, j as int), x);
                assert((dv + uv.subrange(0, j as int)).push(x) =~= dv + uv.subrange(0, j + 1));
            }
            j += 1;
        }
        assert(uv.subrange(0, uv.len() as int) =~= uv);
        value
    }
}

/// A copy of a diagnostic's message and detail.
fn take_diag(d: &crate::expr::Diag) -> (r: (Msg, Option<Vec<u8>>))
    ensures r.0 == d.msg, detail_view(r.1) == crate::expr::opt_view(d.detail),
{
    let detail = match &d.detail {
        Some(x) => {
            assert(x@.subrange(0, x@.len() as int) =~= x@);
            Some(slice_vec(x.as_slice(), 0, x.len()))
        }
        None => None,
    };
    (d.msg, detail)
}


// --- emitting ----------------------------------------------------------------------

/// The image `m` after writing `b` from address `a` on, each address taken
/// to 32 bits and then to the image's 16.
pub open spec fn stamp(m: Seq<u8>, a: u32, b: Seq<u8>) -> Seq<u8>
    decreases b.len(),
{
    if b.len() == 0 { m } else {
        stamp(m, a, b.drop_last()).update((a as int + b.len() - 1) % 0x1_0000_0000 % 0x10000, b.last())
    }
}

/// Bytes written from address `a` on read back at their consecutive
/// addresses, provided the run is no longer than the image.
pub proof fn lemma_stamp_reads_back(m: Seq<u8>, a: u32, b: Seq<u8>, i: int)
    requires m.len() == 0x10000, b.len() <= 0x10000, 0 <= i < b.len(),
    ensures
        stamp(m, a, b).len() == 0x10000,
        stamp(m, a, b)[(a as int + i) % 0x10000] == b[i],
    decreases b.len(),
{
    lemma_stamp_size(m, a, b);
    lemma_stamp_size(m, a, b.drop_last());
    let n = b.len() as int;
    let last = (a as int + n - 1) % 0x1_0000_0000 % 0x10000;
    assert((a as int + n - 1) % 0x1_0000_0000 % 0x10000 == (a as int + n - 1) % 0x10000) by {
        vstd::arithmetic::div_mod::lemma_mod_mod(a as int + n - 1, 0x10000, 0x10000);
    }
    if i < n - 1 {
        lemma_stamp_reads_back(m, a, b.drop_last(), i);
        assert((a as int + i) % 0x10000 != (a as int + n - 1) % 0x10000) by {
            let x = a as int + i;
            let d = n - 1 - i;
            assert(0 < d < 0x10000);
            vstd::arithmetic::div_mod::lemma_mod_add_multiples_vanish(x, 0x10000);
            if (x % 0x10000) == ((x + d) % 0x10000) {
                vstd::arithmetic::div_mod::lemma_fundamental_div_mod(x, 0x10000);
                vstd::arithmetic::div_mod::lemma_fundamental_div_mod(x + d, 0x10000);
                assert(d == 0x10000 * ((x + d) / 0x10000 - x / 0x10000)) by (nonlinear_arith)
                    requires x == 0x10000 * (x / 0x10000) + x % 0x10000,
                        x + d == 0x10000 * ((x + d) / 0x10000) + (x + d) % 0x10000,
                        x % 0x10000 == (x + d) % 0x10000;
                assert(false) by (nonlinear_arith)
                    requires d == 0x10000 * ((x + d) / 0x10000 - x / 0x10000), 0 < d < 0x10000;
            }
        }
    }
}

proof fn lemma_stamp_size(m: Seq<u8>, a: u32, b: Seq<u8>)
    requires m.len() == 0x10000,
    ensures stamp(m, a, b).len() == 0x10000,
    decreases b.len(),
{
    if b.len() > 0 { lemma_stamp_size(m, a, b.drop_last()); }
}

/// `a + n` in 32-bit arithmetic.
pub open spec fn wrap_add(a: u32, n: int) -> u32 {
    ((a as int + n) % 0x1_0000_0000) as u32
}

/// The counter after `n` bytes: with word addressing, half as many units,
/// rounded up.
pub open spec fn advanced(wordaddrs: bool, pc: u32, n: u32) -> u32 {
    if wordaddrs { wrap_add(pc, (n as int + 1) / 2) } else { wrap_add(pc, n as int) }
}

/// What a read of the image `m` at `a` gives.
pub open spec fn read_at(m: Seq<u8>, a: u32) -> u8 {
    if a < 0x10000 { m[a as int] } else { 0 }
}

/// A name cut to the label limit.
pub open spec fn truncated(name: Seq<u8>) -> Seq<u8> {
    if name.len() > MAX_LABEL { name.subrange(0, MAX_LABEL as int) } else { name }
}

fn contains_name(list: &Vec<Vec<u8>>, name: &[u8]) -> (r: bool)
    ensures r == seqs(list@).contains(name@),
{
    let mut i: usize = 0;
    while i < list.len()
        invariant i <= list.len(), forall|j: int| 0 <= j < i ==> list@[j]@ != name@,
        decreases list.len() - i,
    {
        if bytes_eq(list[i].as_slice(), name) {
            assert(seqs(list@)[i as int] == name@);
            return true;
        }
        i += 1;
    }
    proof {
        if seqs(list@).contains(name@) {
            let j = choose|j: int| 0 <= j < seqs(list@).len() && seqs(list@)[j] == name@;
            assert(list@[j]@ == name@);
        }
    }
    false
}

impl Asm {
    /// The name a label is kept under: cut to the label limit, and qualified
    /// by the module when it is local.
    pub open spec fn label_key(&self, raw: Seq<u8>) -> Seq<u8> {
        qualified(truncated(raw), self.local_char, self.module@)
    }

    /// The label was already defined in this pass.
    /// The diagnostic output once a label `raw` is read: `Token too long`
    /// for a name beyond the label length, which is cut to it.
    pub open spec fn label_out(&self, raw: Seq<u8>) -> (Seq<u8>, Seq<Seq<u8>>, Seq<Seq<u8>>, u32) {
        if raw.len() > MAX_LABEL { self.diag_step(self.out_state(), Msg::TokenTooLong, Some(truncated(raw))) }
        else { self.out_state() }
    }

    pub open spec fn seen_name(&self, raw: Seq<u8>) -> bool {
        seqs(self.seen_this_pass@).contains(self.label_key(raw))
    }

    /// The image once `bytes` are emitted in pass 2: written just past what
    /// the line has emitted so far, and, with word addressing, the pad byte
    /// of an odd count touched.
    pub open spec fn written(&self, bytes: Seq<u8>) -> Seq<u8> {
        let m = stamp(self.img.mem_view(), wrap_add(self.byte_addr_spec(), (self.emitted@.len() as u32) as int), bytes);
        let n = self.emitted@.len() + bytes.len();
        let pad = wrap_add(self.byte_addr_spec(), (n as u32) as int);
        if self.table.wordaddrs && n % 2 == 1 { m.update(pad as int % 0x10000, read_at(m, pad)) } else { m }
    }

    /// What a statement lists is what it writes: in pass 2, on a
    /// byte-addressed target, each of the bytes a statement emits reads back
    /// from the image at the address after the line's earlier bytes.
    pub proof fn lemma_written_reads_back(&self, bytes: Seq<u8>, i: int)
        requires self.img.wf(), !self.table.wordaddrs, bytes.len() <= 0x10000, 0 <= i < bytes.len(),
        ensures
            self.written(bytes)[(wrap_add(self.byte_addr_spec(), (self.emitted@.len() as u32) as int) + i) % 0x10000]
                == bytes[i],
    {
        lemma_stamp_reads_back(self.img.mem_view(), wrap_add(self.byte_addr_spec(), (self.emitted@.len() as u32) as int),
            bytes, i);
    }

    /// Emit a statement's bytes: recorded for the listing, and written to the
    /// image in pass 2, just past what this line has emitted so far.
    fn emit(&mut self, bytes: &[u8])
        requires old(self).wf(),
        ensures
            final(self).wf(),
            final(self).emitted@ == old(self).emitted@ + bytes@,
            final(self).errors >= old(self).errors,
            final(self).frame(*old(self)), final(self).syms == old(self).syms, final(self).pc == old(self).pc,
            old(self).pass == 2 ==> final(self).img.mem_view() == stamp(old(self).img.mem_view(),
                wrap_add(old(self).byte_addr_spec(), (old(self).emitted@.len() as u32) as int), bytes@),
            old(self).pass != 2 ==> final(self).img == old(self).img && final(self).errors == old(self).errors
                && final(self).stdout@ == old(self).stdout@,
    {
        if self.pass == 2 {
            let n32 = self.emitted.len() as u32;
            let a0 = self.byte_addr().wrapping_add(n32);
            let mut a = a0;
            let ghost m0 = self.img.mem_view();
            let ghost s0 = *self;
            let mut i: usize = 0;
            assert(bytes@.subrange(0, 0) =~= Seq::<u8>::empty());
            while i < bytes.len()
                invariant
                    i <= bytes.len(), self.wf(), self.errors >= s0.errors,
                    self.frame(s0), self.syms == s0.syms, self.pc == s0.pc, self.emitted@ == s0.emitted@,
                    a == wrap_add(a0, i as int),
                    self.img.mem_view() == stamp(m0, a0, bytes@.subrange(0, i as int)),
                decreases bytes.len() - i,
            {
                let ghost before = self.img.mem_view();
                let ok = self.img.write(a, bytes[i]);
                if !ok && !self.img.reported_out_of_range {
                    self.img.reported_out_of_range = true;
                    self.diag(Msg::OutsideImage, None);
                }
                proof {
                    let b1 = bytes@.subrange(0, i + 1);
                    assert(b1.drop_last() =~= bytes@.subrange(0, i as int));
                    assert(b1.last() == bytes@[i as int]);
                    assert((a0 as int + b1.len() - 1) % 0x1_0000_0000 == a as int);
                }
                a = a.wrapping_add(1);
                i += 1;
            }
            assert(bytes@.subrange(0, bytes@.len() as int) =~= bytes@);
        }
        push_all(&mut self.emitted, bytes);
    }

    /// Emit, then advance the counter over everything this line has emitted.
    /// With word addressing an odd count leaves a pad byte inside the last
    /// word; in pass 2 it is touched, so the run stays one region.
    #[verifier::spinoff_prover]
    #[verifier::rlimit(40)]
    fn emit_and_advance(&mut self, bytes: &[u8])
        requires old(self).wf(),
        ensures
            final(self).wf(),
            final(self).emitted@ == old(self).emitted@ + bytes@,
            final(self).pc == advanced(old(self).table.wordaddrs, old(self).pc, (final(self).emitted@.len() as u32)),
            final(self).errors >= old(self).errors,
            final(self).frame(*old(self)), final(self).syms == old(self).syms,
            old(self).pass != 2 ==> final(self).img == old(self).img && final(self).errors == old(self).errors
                && final(self).stdout@ == old(self).stdout@,
            old(self).pass == 2 ==> final(self).img.mem_view() == old(self).written(bytes@),
    {
        self.emit(bytes);
        if self.table.wordaddrs && self.emitted.len() % 2 == 1 && self.pass == 2 {
            let a = self.byte_addr().wrapping_add(self.emitted.len() as u32);
            let fill = self.img.read(a);
            self.img.write(a, fill);
        }
        let n = self.emitted.len() as u32;
        self.advance(n);
    }

    /// Define the line's label at `value`. A name seen before in this pass
    /// keeps its first definition (a duplicate is reported in pass 1 when the
    /// strict mask has bit 0x04); in pass 2 a label whose value moved is
    /// reported as misaligned and keeps its pass-1 value.
    fn define_label(&mut self, raw: &[u8], value: i32)
        requires old(self).wf(),
        ensures
            final(self).wf(),
            final(self).errors >= old(self).errors,
            final(self).settled(*old(self)), final(self).img == old(self).img, final(self).pc == old(self).pc,
            final(self).emitted@ == old(self).emitted@,
            seqs(final(self).seen_this_pass@) == if old(self).seen_name(raw@) { seqs(old(self).seen_this_pass@) }
                else { seqs(old(self).seen_this_pass@).push(old(self).label_key(raw@)) },
            old(self).seen_name(raw@) || old(self).pass != 1 ==> final(self).syms == old(self).syms,
            old(self).syms.value_of(old(self).label_key(raw@)) is Some
                ==> final(self).syms.value_of(old(self).label_key(raw@)) == old(self).syms.value_of(old(self).label_key(raw@)),
            !old(self).seen_name(raw@) && old(self).pass == 1 && old(self).syms.value_of(old(self).label_key(raw@)) is None
                && old(self).syms.list@.len() < MAX_SYMBOLS ==> final(self).syms.value_of(old(self).label_key(raw@)) == Some(value),
            old(self).label_done(*final(self), raw@, value),
            old(self).seen_name(raw@) ==> final(self).out_state() == if old(self).o.strict & 0x04 != 0 && old(self).pass == 1 {
                old(self).report_step(old(self).label_out(raw@), Msg::DuplicateLabel, Some(truncated(raw@)))
            } else { old(self).label_out(raw@) },
    {
        let (name, too_long) = Symbols::truncate(raw);
        if too_long {
            let d = slice_vec(name.as_slice(), 0, name.len());
            assert(name@.subrange(0, name@.len() as int) =~= name@);
            self.diag(Msg::TokenTooLong, Some(d));
        }
        let ghost s1 = *self;
        assert(self.out_state() == old(self).label_out(raw@));
        let (q, local) = Symbols::qualify(name.as_slice(), self.local_char, self.module.as_slice());
        let ghost qs = q@;
        if contains_name(&self.seen_this_pass, q.as_slice()) {
            if self.o.strict & 0x04 != 0 && self.pass == 1 {
                self.report(Msg::DuplicateLabel, Some(name));
                proof { lemma_step_same(s1, *old(self), s1.out_state(), Msg::DuplicateLabel, Some(truncated(raw@))); }
            }
            return;
        }
        let ghost before = self.seen_this_pass@;
        let kept = slice_vec(q.as_slice(), 0, q.len());
        assert(q@.subrange(0, q@.len() as int) =~= q@);
        self.seen_this_pass.push(kept);
        assert(seqs(self.seen_this_pass@) =~= seqs(before).push(qs));
        if self.pass == 1 {
            self.syms.define(q.as_slice(), value, self.segment, local);
        } else {
            match self.syms.value(q.as_slice()) {
                Some(prev) => {
                    if prev != value {
                        self.diag(Msg::Misaligned, Some(name));
                    }
                }
                None => {}
            }
        }
    }
}


// --- instructions ---------------------------------------------------------------------

/// Byte `i` of an `n`-byte opcode: least significant first, or most
/// significant first under `.MSFIRST`.
pub open spec fn opcode_byte(opcode: u32, n: int, i: int, msfirst: bool) -> u8 {
    let sh = if msfirst { 8 * (n - 1 - i) } else { 8 * i };
    if 0 <= sh < 32 { ((opcode >> (sh as u32)) & 0xFF) as u8 } else { 0 }
}

/// Byte `i` of the argument value, least significant first, whatever the
/// table's byte order.
pub open spec fn arg_byte(v: i32, i: int) -> u8 {
    if 0 <= 8 * i < 32 { ((to_u32(v) >> ((8 * i) as u32)) & 0xFF) as u8 } else { 0 }
}

/// The bytes an encoded instruction emits: its opcode bytes, then its
/// argument bytes, taken from the vector where the rule gave one.
pub open spec fn encoded(e: EncV, msfirst: bool) -> Seq<u8> {
    Seq::new(e.opcode_bytes as nat, |i: int| opcode_byte(e.opcode, e.opcode_bytes as int, i, msfirst))
        + match e.vector {
            Some(v) => if v.len() <= e.arg_bytes { v } else { v.subrange(0, e.arg_bytes as int) },
            None => Seq::new(e.arg_bytes as nat, |i: int| arg_byte(e.argval, i)),
        }
}

/// Byte `i` of `v`, counted from the least significant.
pub open spec fn le_byte(v: u32, i: int) -> u8 {
    ((v as int / (if i == 0 { 1int } else if i == 1 { 0x100int } else if i == 2 { 0x1_0000int } else { 0x100_0000int }))
        % 256) as u8
}

/// The order of an instruction's bytes: the opcode least significant byte
/// first unless the table declared `.MSFIRST`, most significant first if it
/// did (the two orders are each other reversed); the argument bytes follow,
/// least significant first either way.
pub proof fn lemma_opcode_byte_order(e: EncV)
    requires e.opcode_bytes <= 4,
    ensures
        forall|i: int| 0 <= i < e.opcode_bytes ==> #[trigger] encoded(e, false)[i] == le_byte(e.opcode, i),
        forall|i: int| 0 <= i < e.opcode_bytes ==> #[trigger] encoded(e, true)[i] == le_byte(e.opcode, e.opcode_bytes - 1 - i),
        e.vector is None ==> forall|i: int| 0 <= i < e.arg_bytes && i < 4 ==>
            #[trigger] encoded(e, false)[e.opcode_bytes + i] == le_byte(to_u32(e.argval), i)
            && encoded(e, true)[e.opcode_bytes + i] == le_byte(to_u32(e.argval), i),
{
    let a = to_u32(e.argval);
    assert((a >> 0u32) & 0xFF == a % 256) by (bit_vector);
    assert((a >> 8u32) & 0xFF == (a / 0x100) % 256) by (bit_vector);
    assert((a >> 16u32) & 0xFF == (a / 0x1_0000) % 256) by (bit_vector);
    assert((a >> 24u32) & 0xFF == (a / 0x100_0000) % 256) by (bit_vector);
    let v = e.opcode;
    assert((v >> 0u32) & 0xFF == v % 256) by (bit_vector);
    assert((v >> 8u32) & 0xFF == (v / 0x100) % 256) by (bit_vector);
    assert((v >> 16u32) & 0xFF == (v / 0x1_0000) % 256) by (bit_vector);
    assert((v >> 24u32) & 0xFF == (v / 0x100_0000) % 256) by (bit_vector);
}

/// The encoder's starting state for a matched row.
pub open spec fn enc_start(pc: u32, opcode: u32, row: RowV, argv: Seq<i32>, argt: Seq<Seq<u8>>, aux: u32) -> EncV {
    EncV {
        pcx: pc as i32, opcode, opcode_bytes: row.opcode_bytes, arg_bytes: row.arg_bytes,
        argval: if argv.len() > 0 { argv[0] } else { 0 }, shift: row.shift, or: row.or, argv, argt,
        vector: None, diags: Seq::empty(), post_shift: row.post_shift, post_or: row.post_or,
        aux_registers: aux,
    }
}

pub proof fn lemma_find_row(t: TableV, mn: Seq<u8>, orig: Seq<u8>, mask: u32, i: int)
    requires 0 <= i,
    ensures find_from(t, mn, orig, mask, i) matches Some(f) ==> i <= f.0 < t.rows.len(),
    decreases t.rows.len() - i,
{
    if i < t.rows.len() { lemma_find_row(t, mn, orig, mask, i + 1); }
}

fn vec_copy(v: &Vec<u8>) -> (r: Vec<u8>)
    ensures r@ == v@,
{
    let r = slice_vec(v.as_slice(), 0, v.len());
    assert(v@.subrange(0, v@.len() as int) =~= v@);
    r
}

fn has_mnemonic(table: &Table, mn: &[u8]) -> (r: bool)
    ensures r == exists|i: int| 0 <= i < table@.rows.len() && table@.rows[i].mnemonic == mn@,
{
    let mut i: usize = 0;
    while i < table.rows.len()
        invariant i <= table.rows.len(), forall|j: int| 0 <= j < i ==> table@.rows[j].mnemonic != mn@,
        decreases table.rows.len() - i,
    {
        assert(table@.rows[i as int] == table.rows@[i as int]@);
        if bytes_eq(table.rows[i].mnemonic.as_slice(), mn) {
            return true;
        }
        i += 1;
    }
    false
}

/// The bytes of an encoding.
fn encode_bytes(e: &Enc, msfirst: bool) -> (r: Vec<u8>)
    ensures r@ == encoded(e@, msfirst),
{
    let mut out: Vec<u8> = Vec::new();
    let ob = e.opcode_bytes as u32;
    let mut i: u32 = 0;
    while i < ob
        invariant i <= ob, ob == e.opcode_bytes,
            out@ == Seq::new(i as nat, |k: int| opcode_byte(e.opcode, e.opcode_bytes as int, k, msfirst)),
        decreases ob - i,
    {
        let sh: u32 = if msfirst { 8 * (ob - 1 - i) } else { 8 * i };
        let b: u8 = if sh < 32 { ((e.opcode >> sh) & 0xFF) as u8 } else { 0 };
        out.push(b);
        assert(out@ =~= Seq::new((i + 1) as nat, |k: int| opcode_byte(e.opcode, e.opcode_bytes as int, k, msfirst)));
        i += 1;
    }
    let ghost head = out@;
    let ab = e.arg_bytes as usize;
    match &e.vector {
        Some(v) => {
            let n = if v.len() <= ab { v.len() } else { ab };
            let mut j: usize = 0;
            while j < n
                invariant j <= n, n <= v.len(), out@ == head + v@.subrange(0, j as int),
                decreases n - j,
            {
                out.push(v[j]);
                assert(out@ =~= head + v@.subrange(0, (j + 1) as int));
                j += 1;
            }
            assert(v@.subrange(0, v@.len() as int) =~= v@);
        }
        None => {
            let u = u32_of(e.argval);
            let mut j: usize = 0;
            while j < ab
                invariant j <= ab, ab == e.arg_bytes, u == to_u32(e.argval),
                    out@ == head + Seq::new(j as nat, |k: int| arg_byte(e.argval, k)),
                decreases ab - j,
            {
                let b: u8 = if j < 4 { ((u >> ((8 * j) as u32)) & 0xFF) as u8 } else { 0 };
                out.push(b);
                assert(out@ =~= head + Seq::new((j + 1) as nat, |k: int| arg_byte(e.argval, k)));
                j += 1;
            }
        }
    }
    out
}

/// The bytes an operand may not open with under strict check 0x08: the
/// binary operators.
pub open spec fn binop_start(c: u8) -> bool {
    c == 0x25 || c == 0x2A || c == 0x2F || c == 0x3C || c == 0x3E || c == 0x3D || c == 0x26 || c == 0x21
}

/// The strict-check diagnostics for one trimmed operand `t`: bit 0x01 an
/// operand wholly in parentheses, bit 0x08 one opening with a binary
/// operator; each with the operand as detail.
pub open spec fn strict_checks(strict: u32, t: Seq<u8>) -> Seq<(Msg, Option<Seq<u8>>)> {
    if t.len() == 0 { Seq::empty() } else {
        (if strict & 0x01 != 0 && t[0] == 0x28 && t.last() == 0x29 && outer_from(t, 0, 0) {
            seq![(Msg::NoIndirection, Some(t))] } else { Seq::empty() })
        + (if strict & 0x08 != 0 && binop_start(t[0]) { seq![(Msg::NonUnary, Some(t))] } else { Seq::empty() })
    }
}

/// The strict-check diagnostics for each operand in turn.
pub open spec fn strict_diags(strict: u32, args: Seq<Seq<u8>>) -> Seq<(Msg, Option<Seq<u8>>)>
    decreases args.len(),
{
    if args.len() == 0 { Seq::empty() } else {
        strict_diags(strict, args.drop_last()) + strict_checks(strict, trim(args.last()))
    }
}

proof fn lemma_diags_push(a: Asm, ds: Seq<(Msg, Option<Seq<u8>>)>, x: (Msg, Option<Seq<u8>>))
    ensures a.diags_out(ds.push(x)) == a.diag_step(a.diags_out(ds), x.0, x.1),
{
    assert(ds.push(x).drop_last() =~= ds);
}

proof fn lemma_step_same(a: Asm, b: Asm, st: (Seq<u8>, Seq<Seq<u8>>, Seq<Seq<u8>>, u32), m: Msg, d: Option<Seq<u8>>)
    requires a.settled(b),
    ensures a.diag_step(st, m, d) == b.diag_step(st, m, d), a.report_step(st, m, d) == b.report_step(st, m, d),
{
}

impl Asm {
    /// The bytes the matched row `f` encodes to here: its operands evaluated,
    /// its rule applied, then the opcode and argument bytes.
    pub open spec fn instr_bytes(&self, f: (int, u32, Seq<Seq<u8>>)) -> Seq<u8> {
        let row = self.table@.rows[f.0];
        let argv = Seq::new(f.2.len(), |i: int| evaluate(self.env(f.2[i])).0);
        encoded(post(rule_effect(row.rule,
            enc_start(self.pc, f.1, row, argv, f.2, self.table.aux_registers))), self.table.msfirst)
    }

    /// The strict operand checks, on the operands as written: bit 0x01 an
    /// operand wholly in parentheses, bit 0x08 one opening with a binary
    /// operator.
    fn strict_operand_checks(&mut self, argt: &Vec<Vec<u8>>)
        requires old(self).wf(),
        ensures final(self).wf(), final(self).errors >= old(self).errors, final(self).keeps_state(*old(self)),
            final(self).out_state() == old(self).diags_out(strict_diags(old(self).o.strict, lines_view(argt@))),
    {
        let ghost s0 = *self;
        let ghost av = lines_view(argt@);
        let mut i: usize = 0;
        while i < argt.len()
            invariant i <= argt.len(), self.wf(), self.errors >= s0.errors, self.keeps_state(s0),
                av == lines_view(argt@),
                self.out_state() == s0.diags_out(strict_diags(s0.o.strict, av.subrange(0, i as int))),
            decreases argt.len() - i,
        {
            let ghost before = strict_diags(s0.o.strict, av.subrange(0, i as int));
            let ghost mut cur = before;
            assert(av[i as int] == argt@[i as int]@);
            let t = trim_bytes(argt[i].as_slice());
            if t.len() > 0 {
                if self.o.strict & 0x01 != 0 && t[0] == 0x28 && t[t.len() - 1] == 0x29
                    && matching_outer_parens(t.as_slice()) {
                    let d = vec_copy(&t);
                    let ghost s1 = *self;
                    self.diag(Msg::NoIndirection, Some(d));
                    proof {
                        lemma_step_same(s1, s0, s1.out_state(), Msg::NoIndirection, Some(t@));
                        lemma_diags_push(s0, cur, (Msg::NoIndirection, Some(t@)));
                        cur = cur.push((Msg::NoIndirection, Some(t@)));
                    }
                }
                let c = t[0];
                if self.o.strict & 0x08 != 0 && (c == 0x25 || c == 0x2A || c == 0x2F || c == 0x3C || c == 0x3E
                    || c == 0x3D || c == 0x26 || c == 0x21) {
                    let ghost tv = t@;
                    let ghost s1 = *self;
                    self.diag(Msg::NonUnary, Some(t));
                    proof {
                        lemma_step_same(s1, s0, s1.out_state(), Msg::NonUnary, Some(tv));
                        lemma_diags_push(s0, cur, (Msg::NonUnary, Some(tv)));
                        cur = cur.push((Msg::NonUnary, Some(tv)));
                    }
                }
            }
            proof {
                assert(av.subrange(0, i + 1).drop_last() =~= av.subrange(0, i as int));
                assert(cur =~= strict_diags(s0.o.strict, av.subrange(0, i + 1)));
            }
            i += 1;
        }
        assert(av.subrange(0, av.len() as int) =~= av);
    }

    /// As `eval`, but an unresolved name is `Forward reference in equate:` on
    /// both passes (outside a skipped branch).
    fn eval_equate(&mut self, text: &[u8]) -> (r: i32)
        requires old(self).wf(),
        ensures
            r == evaluate(old(self).env(text@)).0,
            final(self).wf(), final(self).errors >= old(self).errors,
            final(self).keeps_state(*old(self)),
            final(self).out_state() == old(self).equate_out(text@),
    {
        let out = crate::expr::eval(text, self.pc as i32, self.o.compatibility, self.local_char,
            &self.syms, self.module.as_slice());
        let value = out.value;
        let ghost s0 = *self;
        let ghost st = evaluate(s0.env(text@)).1;
        self.report_all(&out.diags);
        let ghost mid = self.out_state();
        let undefined = out.undefined;
        let ghost nv = st.undef;
        let mut j: usize = 0;
        while j < undefined.len()
            invariant j <= undefined.len(), self.wf(), self.errors >= s0.errors, self.keeps_state(s0),
                crate::expr::names_view(undefined@) == nv,
                self.out_state() == s0.forwards(mid, nv.subrange(0, j as int)),
            decreases undefined.len() - j,
        {
            assert(nv.subrange(0, j + 1).drop_last() =~= nv.subrange(0, j as int));
            assert(nv[j as int] == undefined@[j as int]@);
            if !self.skipping() {
                let name = vec_copy(&undefined[j]);
                let ghost s1 = *self;
                self.report(Msg::ForwardInEquate, Some(name));
                assert(s1.report_step(s1.out_state(), Msg::ForwardInEquate, Some(nv[j as int]))
                    == s0.report_step(s1.out_state(), Msg::ForwardInEquate, Some(nv[j as int])));
            }
            j += 1;
        }
        assert(nv.subrange(0, nv.len() as int) =~= nv);
        value
    }

    /// Evaluate each operand in turn, reporting what each finds.
    fn eval_all(&mut self, argt: &Vec<Vec<u8>>) -> (r: Vec<i32>)
        requires old(self).wf(),
        ensures
            final(self).wf(), final(self).errors >= old(self).errors, final(self).keeps_state(*old(self)),
            r@ == Seq::new(argt@.len(), |k: int| evaluate(old(self).env(argt@[k]@)).0),
    {
        let ghost s0 = *self;
        let mut argv: Vec<i32> = Vec::new();
        let mut i: usize = 0;
        while i < argt.len()
            invariant i <= argt.len(), self.wf(), self.errors >= s0.errors, self.keeps_state(s0),
                argv@ == Seq::new(i as nat, |k: int| evaluate(s0.env(argt@[k]@)).0),
            decreases argt.len() - i,
        {
            let v = self.eval(argt[i].as_slice());
            argv.push(v);
            assert(argv@ =~= Seq::new((i + 1) as nat, |k: int| evaluate(s0.env(argt@[k]@)).0));
            i += 1;
        }
        argv
    }

    /// Raise each of `diags` as a diagnostic.
    fn report_all(&mut self, diags: &Vec<crate::expr::Diag>)
        requires old(self).wf(),
        ensures final(self).wf(), final(self).errors >= old(self).errors, final(self).keeps_state(*old(self)),
            final(self).out_state() == old(self).diags_out(crate::expr::diags_view(diags@)),
    {
        let ghost s0 = *self;
        let ghost dv = crate::expr::diags_view(diags@);
        let mut k: usize = 0;
        while k < diags.len()
            invariant k <= diags.len(), self.wf(), self.errors >= s0.errors, self.keeps_state(s0),
                dv == crate::expr::diags_view(diags@),
                self.out_state() == s0.diags_out(dv.subrange(0, k as int)),
            decreases diags.len() - k,
        {
            let d = take_diag(&diags[k]);
            let ghost s1 = *self;
            let ghost x = (d.0, detail_view(d.1));
            assert(dv[k as int] == x);
            self.diag(d.0, d.1);
            proof {
                lemma_step_same(s1, s0, s1.out_state(), x.0, x.1);
                lemma_diags_push(s0, dv.subrange(0, k as int), x);
                assert(dv.subrange(0, k as int).push(x) =~= dv.subrange(0, k + 1));
            }
            k += 1;
        }
        assert(dv.subrange(0, dv.len() as int) =~= dv);
    }

    /// Encode a matched row: report a short byte count, run the strict
    /// checks, evaluate the operands, apply the rule and report what it
    /// found; the bytes are returned.
    #[verifier::rlimit(40)]
    fn encode_match(&mut self, m: crate::matcher::Matched) -> (r: Vec<u8>)
        requires old(self).wf(), m.row < old(self).table.rows.len(),
        ensures
            final(self).wf(), final(self).errors >= old(self).errors, final(self).keeps_state(*old(self)),
            r@ == old(self).instr_bytes((m.row as int, m.opcode, m.args@.map_values(|v: Vec<u8>| v@))),
    {
        let ghost f = (m.row as int, m.opcode, m.args@.map_values(|v: Vec<u8>| v@));
        let ghost s0 = *self;
        let ri = m.row;
        assert(self.table@.rows[ri as int] == self.table.rows@[ri as int]@);
        let rule = self.table.rows[ri].rule;
        let opcode_bytes = self.table.rows[ri].opcode_bytes;
        let arg_bytes = self.table.rows[ri].arg_bytes;
        let shift = self.table.rows[ri].shift;
        let or = self.table.rows[ri].or;
        let post_shift = self.table.rows[ri].post_shift;
        let post_or = self.table.rows[ri].post_or;
        if self.table.rows[ri].short_count {
            self.diag(Msg::ShortByteCount, None);
        }
        let argt = m.args;
        self.strict_operand_checks(&argt);
        let argv = self.eval_all(&argt);
        let first = if argv.len() > 0 { argv[0] } else { 0 };
        let mut e = Enc {
            pcx: self.pc as i32,
            opcode: m.opcode,
            opcode_bytes,
            arg_bytes,
            argval: first,
            shift,
            or,
            argv,
            argt,
            vector: None,
            diags: Vec::new(),
            post_shift,
            post_or,
            aux_registers: self.table.aux_registers,
        };
        proof {
            let row = s0.table@.rows[f.0];
            assert(e@.argt =~= f.2);
            assert(e@.argv =~= Seq::new(f.2.len(), |i: int| evaluate(s0.env(f.2[i])).0));
            assert(e@.diags =~= Seq::<(Msg, Option<Seq<u8>>)>::empty());
            assert(e@ == enc_start(s0.pc, f.1, row, e@.argv, f.2, s0.table.aux_registers));
        }
        e.apply(rule);
        let bytes = encode_bytes(&e, self.table.msfirst);
        self.report_all(&e.diags);
        if e.arg_bytes > 0 && e.arg_bytes < 4 && e.argval > 0 {
            let sh = 8 * (e.arg_bytes as u32);
            let discarded = (e.argval as u32) >> sh;
            if discarded != 0 {
                let mut d: Vec<u8> = Vec::new();
                push_hex(&mut d, discarded as u64, false);
                self.diag(Msg::UnusedMsByte, Some(d));
            }
        }
        bytes
    }

    /// Assemble one instruction: match it against the table, evaluate its
    /// operands, apply the row's rule, and emit the opcode and argument
    /// bytes. A mnemonic no row has is `unrecognized instruction.`, a known
    /// one whose operands match no row `unrecognized argument.`
    fn instruction(&mut self, mnem: &[u8], operand: &[u8])
        requires old(self).wf(),
        ensures
            final(self).wf(), final(self).errors >= old(self).errors,
            final(self).frame(*old(self)), final(self).syms == old(self).syms,
            match find_spec(old(self).table@, mnem@, operand@, old(self).o.class_mask) {
                None => final(self).emitted@ == old(self).emitted@ && final(self).pc == old(self).pc
                    && final(self).img == old(self).img,
                Some(f) => final(self).emitted@ == old(self).emitted@ + old(self).instr_bytes(f)
                    && final(self).pc == advanced(old(self).table.wordaddrs, old(self).pc, (final(self).emitted@.len() as u32)),
            },
            old(self).pass != 2 ==> final(self).img.mem_view() == old(self).img.mem_view(),
            old(self).pass == 2 && find_spec(old(self).table@, mnem@, operand@, old(self).o.class_mask) is Some ==>
                final(self).img.mem_view() == old(self).written(old(self).instr_bytes(
                    find_spec(old(self).table@, mnem@, operand@, old(self).o.class_mask)->0)),
            old(self).instruction_done(*final(self), mnem@, operand@),
            find_spec(old(self).table@, mnem@, operand@, old(self).o.class_mask) is None ==>
                final(self).out_state() == old(self).unmatched_out(mnem@, operand@),
    {
        let found = crate::matcher::find(&self.table, mnem, operand, self.o.class_mask);
        let m = match found {
            Some(m) => m,
            None => {
                let up = to_upper(mnem);
                if has_mnemonic(&self.table, up.as_slice()) {
                    let d = trim_bytes(operand);
                    self.diag(Msg::BadArgument, Some(d));
                } else {
                    self.diag(Msg::BadInstruction, Some(up));
                }
                return;
            }
        };
        proof { lemma_find_row(self.table@, upper_seq(mnem@), squeeze(operand@), self.o.class_mask, 0); }
        let bytes = self.encode_match(m);
        self.emit_and_advance(bytes.as_slice());
    }
}


// --- directives --------------------------------------------------------------------------

/// The directives, by the name written after the `.` or `#`.
#[derive(Clone, Copy, PartialEq, Eq, Debug, Structural)]
pub enum Dir {
    Byte, Word, Text, Fill, Block, Chk, Org, Equ, SetValue, Export, Module, LocalLabelChar, CommentChar,
    If, IfDef, IfNDef, Else, EndIf, Define, DefCont, Undef, Include, Seg(Segment), List, NoList,
    Codes, NoCodes, Paging, Title, LsFirst, MsFirst, Sym, AvSym, AddInstr, Echo, End, Unknown,
}

/// The directive an upper-cased name selects.
pub open spec fn dir_spec(d: Seq<u8>) -> Dir {
    if d == sb("BYTE") || d == sb("DB") { Dir::Byte }
    else if d == sb("WORD") || d == sb("DW") { Dir::Word }
    else if d == sb("TEXT") { Dir::Text }
    else if d == sb("FILL") { Dir::Fill }
    else if d == sb("BLOCK") || d == sb("DS") { Dir::Block }
    else if d == sb("CHK") { Dir::Chk }
    else if d == sb("ORG") || d == sb("*=") || d == sb("$=") { Dir::Org }
    else if d == sb("EQU") || d == sb("=") { Dir::Equ }
    else if d == sb("SET") { Dir::SetValue }
    else if d == sb("EXPORT") { Dir::Export }
    else if d == sb("MODULE") { Dir::Module }
    else if d == sb("LOCALLABELCHAR") { Dir::LocalLabelChar }
    else if d == sb("COMMENTCHAR") { Dir::CommentChar }
    else if d == sb("IF") { Dir::If }
    else if d == sb("IFDEF") { Dir::IfDef }
    else if d == sb("IFNDEF") { Dir::IfNDef }
    else if d == sb("ELSE") { Dir::Else }
    else if d == sb("ENDIF") { Dir::EndIf }
    else if d == sb("DEFINE") { Dir::Define }
    else if d == sb("DEFCONT") { Dir::DefCont }
    else if d == sb("UNDEF") { Dir::Undef }
    else if d == sb("INCLUDE") { Dir::Include }
    else if d == sb("NSEG") { Dir::Seg(Segment::Null) }
    else if d == sb("CSEG") { Dir::Seg(Segment::Code) }
    else if d == sb("BSEG") { Dir::Seg(Segment::Bit) }
    else if d == sb("XSEG") { Dir::Seg(Segment::Extd) }
    else if d == sb("DSEG") { Dir::Seg(Segment::Data) }
    else if d == sb("LIST") { Dir::List }
    else if d == sb("NOLIST") { Dir::NoList }
    else if d == sb("CODES") { Dir::Codes }
    else if d == sb("NOCODES") { Dir::NoCodes }
    else if d == sb("PAGE") || d == sb("NOPAGE") || d == sb("EJECT") { Dir::Paging }
    else if d == sb("TITLE") { Dir::Title }
    else if d == sb("LSFIRST") { Dir::LsFirst }
    else if d == sb("MSFIRST") { Dir::MsFirst }
    else if d == sb("SYM") { Dir::Sym }
    else if d == sb("AVSYM") { Dir::AvSym }
    else if d == sb("ADDINSTR") { Dir::AddInstr }
    else if d == sb("ECHO") { Dir::Echo }
    else if d == sb("END") { Dir::End }
    else { Dir::Unknown }
}

/// The directive named `d` (upper case, without its `.` or `#`).
pub fn dir_of(d: &[u8]) -> (r: Dir)
    ensures r == dir_spec(d@),
{
    if eq_str(d, "BYTE") || eq_str(d, "DB") { Dir::Byte }
    else if eq_str(d, "WORD") || eq_str(d, "DW") { Dir::Word }
    else if eq_str(d, "TEXT") { Dir::Text }
    else if eq_str(d, "FILL") { Dir::Fill }
    else if eq_str(d, "BLOCK") || eq_str(d, "DS") { Dir::Block }
    else if eq_str(d, "CHK") { Dir::Chk }
    else if eq_str(d, "ORG") || eq_str(d, "*=") || eq_str(d, "$=") { Dir::Org }
    else if eq_str(d, "EQU") || eq_str(d, "=") { Dir::Equ }
    else if eq_str(d, "SET") { Dir::SetValue }
    else if eq_str(d, "EXPORT") { Dir::Export }
    else if eq_str(d, "MODULE") { Dir::Module }
    else if eq_str(d, "LOCALLABELCHAR") { Dir::LocalLabelChar }
    else if eq_str(d, "COMMENTCHAR") { Dir::CommentChar }
    else if eq_str(d, "IF") { Dir::If }
    else if eq_str(d, "IFDEF") { Dir::IfDef }
    else if eq_str(d, "IFNDEF") { Dir::IfNDef }
    else if eq_str(d, "ELSE") { Dir::Else }
    else if eq_str(d, "ENDIF") { Dir::EndIf }
    else if eq_str(d, "DEFINE") { Dir::Define }
    else if eq_str(d, "DEFCONT") { Dir::DefCont }
    else if eq_str(d, "UNDEF") { Dir::Undef }
    else if eq_str(d, "INCLUDE") { Dir::Include }
    else if eq_str(d, "NSEG") { Dir::Seg(Segment::Null) }
    else if eq_str(d, "CSEG") { Dir::Seg(Segment::Code) }
    else if eq_str(d, "BSEG") { Dir::Seg(Segment::Bit) }
    else if eq_str(d, "XSEG") { Dir::Seg(Segment::Extd) }
    else if eq_str(d, "DSEG") { Dir::Seg(Segment::Data) }
    else if eq_str(d, "LIST") { Dir::List }
    else if eq_str(d, "NOLIST") { Dir::NoList }
    else if eq_str(d, "CODES") { Dir::Codes }
    else if eq_str(d, "NOCODES") { Dir::NoCodes }
    else if eq_str(d, "PAGE") || eq_str(d, "NOPAGE") || eq_str(d, "EJECT") { Dir::Paging }
    else if eq_str(d, "TITLE") { Dir::Title }
    else if eq_str(d, "LSFIRST") { Dir::LsFirst }
    else if eq_str(d, "MSFIRST") { Dir::MsFirst }
    else if eq_str(d, "SYM") { Dir::Sym }
    else if eq_str(d, "AVSYM") { Dir::AvSym }
    else if eq_str(d, "ADDINSTR") { Dir::AddInstr }
    else if eq_str(d, "ECHO") { Dir::Echo }
    else if eq_str(d, "END") { Dir::End }
    else { Dir::Unknown }
}

/// The operands of a list.
pub open spec fn operands(s: Seq<u8>) -> Seq<Seq<u8>> {
    split_quoted(s, 0x2C, 0, None, Seq::empty())
}

/// The exclusive or of the image bytes from `lo` up to, not including, `hi`.
pub open spec fn xor_range(m: Seq<u8>, lo: u32, hi: int) -> u8
    decreases hi - lo,
{
    if hi <= lo { 0 } else { xor_range(m, lo, hi - 1) ^ read_at(m, (hi - 1) as u32) }
}

impl Asm {
    /// What `.BYTE` emits for one operand: a quoted string byte by byte,
    /// anything else as the low byte of its value.
    pub open spec fn byte_item(&self, a: Seq<u8>) -> Seq<u8> {
        let t = trim(a);
        if t.len() > 0 && t[0] == 0x22 { text_spec(t).0 } else { seq![evaluate(self.env(t)).0 as u8] }
    }

    pub open spec fn byte_data(&self, args: Seq<Seq<u8>>) -> Seq<u8>
        decreases args.len(),
    {
        if args.len() == 0 { Seq::empty() } else { self.byte_data(args.drop_last()) + self.byte_item(args.last()) }
    }

    /// What `.WORD` emits for one operand: two bytes in the source's own
    /// byte order.
    pub open spec fn word_item(&self, a: Seq<u8>) -> Seq<u8> {
        let v = to_u32(evaluate(self.env(trim(a))).0);
        let lo = (v & 0xFF) as u8;
        let hi = ((v >> 8) & 0xFF) as u8;
        if self.ls_first { seq![lo, hi] } else { seq![hi, lo] }
    }

    pub open spec fn word_data(&self, args: Seq<Seq<u8>>) -> Seq<u8>
        decreases args.len(),
    {
        if args.len() == 0 { Seq::empty() } else { self.word_data(args.drop_last()) + self.word_item(args.last()) }
    }

    /// `.WORD` writes each value's low byte first unless `.MSFIRST` is in
    /// force, then its high byte first; each operand gives two bytes.
    pub proof fn lemma_word_order(&self, t: Seq<u8>, args: Seq<Seq<u8>>)
        ensures ({
            let v = to_u32(self.value_of(t));
            &&& self.ls_first ==> self.word_item(t) == seq![(v % 256) as u8, (v / 256 % 256) as u8]
            &&& !self.ls_first ==> self.word_item(t) == seq![(v / 256 % 256) as u8, (v % 256) as u8]
        }),
            self.word_data(args).len() == 2 * args.len(),
        decreases args.len(),
    {
        let v = to_u32(self.value_of(t));
        assert(v & 0xFF == v % 256 && (v >> 8) & 0xFF == v / 256 % 256) by (bit_vector);
        if args.len() > 0 { self.lemma_word_order(t, args.drop_last()); }
    }

    /// The value of an operand here.
    pub open spec fn value_of(&self, t: Seq<u8>) -> i32 {
        evaluate(self.env(trim(t))).0
    }

    /// What `.FILL` emits: the count, taken to 16 bits, of the value's low
    /// byte, 0xFF when no value is given.
    pub open spec fn fill_data(&self, args: Seq<Seq<u8>>) -> Seq<u8> {
        let count = to_u32(self.value_of(args[0])) & 0xFFFF;
        let value: u8 = if args.len() > 1 { self.value_of(args[1]) as u8 } else { 0xFF };
        Seq::new(count as nat, |i: int| value)
    }

    /// What `.CHK` emits: the exclusive or of the image from the operand's
    /// address up to the counter (just the byte at the operand when the
    /// counter is not past it).
    pub open spec fn chk_byte(&self, operand: Seq<u8>) -> u8 {
        let start = to_u32(self.value_of(operand));
        let here = self.byte_addr_spec();
        if here > start { xor_range(self.img.mem_view(), start, here as int) }
        else { read_at(self.img.mem_view(), start) }
    }

    /// The data directives: `.BYTE`, `.WORD`, `.TEXT`, `.FILL`, `.BLOCK`
    /// and `.CHK`.
    #[verifier::rlimit(40)]
    fn data_directive(&mut self, which: Dir, operand: &[u8])
        requires old(self).wf(),
            which == Dir::Byte || which == Dir::Word || which == Dir::Text || which == Dir::Fill
                || which == Dir::Block || which == Dir::Chk,
        ensures
            final(self).wf(), final(self).errors >= old(self).errors,
            final(self).frame(*old(self)), final(self).syms == old(self).syms,
            which == Dir::Block ==> final(self).emitted@ == old(self).emitted@
                && final(self).pc == advanced(old(self).table.wordaddrs, old(self).pc, to_u32(old(self).value_of(operand@))),
            which != Dir::Block ==> final(self).pc == advanced(old(self).table.wordaddrs, old(self).pc, (final(self).emitted@.len() as u32)),
            which == Dir::Byte ==> final(self).emitted@ == old(self).emitted@ + old(self).byte_data(operands(operand@)),
            which == Dir::Word ==> final(self).emitted@ == old(self).emitted@ + old(self).word_data(operands(operand@)),
            which == Dir::Text ==> final(self).emitted@ == old(self).emitted@ + text_spec(trim(operand@)).0,
            which == Dir::Fill ==> final(self).emitted@ == old(self).emitted@ + old(self).fill_data(operands(operand@)),
            which == Dir::Chk ==> final(self).emitted@ == old(self).emitted@.push(old(self).chk_byte(operand@)),
            old(self).pass != 2 ==> final(self).img.mem_view() == old(self).img.mem_view(),
            old(self).pass == 2 && which == Dir::Byte ==> final(self).img.mem_view() == old(self).written(old(self).byte_data(operands(operand@))),
            old(self).pass == 2 && which == Dir::Word ==> final(self).img.mem_view() == old(self).written(old(self).word_data(operands(operand@))),
            old(self).pass == 2 && which == Dir::Text ==> final(self).img.mem_view() == old(self).written(text_spec(trim(operand@)).0),
            old(self).pass == 2 && which == Dir::Fill ==> final(self).img.mem_view() == old(self).written(old(self).fill_data(operands(operand@))),
            old(self).pass == 2 && which == Dir::Chk ==> final(self).img.mem_view() == old(self).written(seq![old(self).chk_byte(operand@)]),
    {
        let ghost s0 = *self;
        match which {
            Dir::Byte => {
                let args = split_args(operand);
                let ghost av = args@.map_values(|v: Vec<u8>| v@);
                let mut bytes: Vec<u8> = Vec::new();
                let mut i: usize = 0;
                while i < args.len()
                    invariant i <= args.len(), self.wf(), self.errors >= s0.errors, self.keeps_state(s0),
                        av == args@.map_values(|v: Vec<u8>| v@), av == operands(operand@),
                        bytes@ == s0.byte_data(av.subrange(0, i as int)),
                    decreases args.len() - i,
                {
                    assert(av.subrange(0, i + 1).drop_last() =~= av.subrange(0, i as int));
                    assert(args@[i as int]@ == av[i as int]);
                    let t = trim_bytes(args[i].as_slice());
                    if t.len() > 0 && t[0] == 0x22 {
                        let (v, closed) = text_bytes(t.as_slice());
                        if !closed {
                            let d = vec_copy(&t);
                            self.diag(Msg::NoTerminatingQuote, Some(d));
                        }
                        push_all(&mut bytes, v.as_slice());
                    } else {
                        let v = self.eval(t.as_slice());
                        bytes.push(v as u8);
                    }
                    i += 1;
                }
                assert(av.subrange(0, av.len() as int) =~= av);
                self.emit_and_advance(bytes.as_slice());
            }
            Dir::Word => {
                let args = split_args(operand);
                let ghost av = args@.map_values(|v: Vec<u8>| v@);
                let mut bytes: Vec<u8> = Vec::new();
                let mut i: usize = 0;
                while i < args.len()
                    invariant i <= args.len(), self.wf(), self.errors >= s0.errors, self.keeps_state(s0),
                        av == args@.map_values(|v: Vec<u8>| v@), av == operands(operand@),
                        bytes@ == s0.word_data(av.subrange(0, i as int)),
                    decreases args.len() - i,
                {
                    assert(av.subrange(0, i + 1).drop_last() =~= av.subrange(0, i as int));
                    assert(args@[i as int]@ == av[i as int]);
                    let t = trim_bytes(args[i].as_slice());
                    let v = u32_of(self.eval(t.as_slice()));
                    if self.ls_first {
                        bytes.push((v & 0xFF) as u8);
                        bytes.push(((v >> 8) & 0xFF) as u8);
                    } else {
                        bytes.push(((v >> 8) & 0xFF) as u8);
                        bytes.push((v & 0xFF) as u8);
                    }
                    i += 1;
                }
                assert(av.subrange(0, av.len() as int) =~= av);
                self.emit_and_advance(bytes.as_slice());
            }
            Dir::Text => {
                let t = trim_bytes(operand);
                let (bytes, closed) = text_bytes(t.as_slice());
                if !closed {
                    self.diag(Msg::NoTerminatingQuote, Some(t));
                }
                self.emit_and_advance(bytes.as_slice());
            }
            Dir::Fill => {
                let args = split_args(operand);
                let ghost av = args@.map_values(|v: Vec<u8>| v@);
                proof { lemma_split_nonempty(operand@, 0x2C, 0, None, Seq::empty()); }
                assert(args@[0]@ == av[0]);
                let t0 = trim_bytes(args[0].as_slice());
                let count = u32_of(self.eval(t0.as_slice())) & 0xFFFF;
                let value: u8 = if args.len() > 1 {
                    assert(args@[1]@ == av[1]);
                    let t1 = trim_bytes(args[1].as_slice());
                    self.eval(t1.as_slice()) as u8
                } else { 0xFF };
                let mut bytes: Vec<u8> = Vec::new();
                let mut i: u32 = 0;
                while i < count
                    invariant i <= count, bytes@ == Seq::new(i as nat, |k: int| value),
                    decreases count - i,
                {
                    bytes.push(value);
                    assert(bytes@ =~= Seq::new((i + 1) as nat, |k: int| value));
                    i += 1;
                }
                self.emit_and_advance(bytes.as_slice());
            }
            Dir::Block => {
                let t = trim_bytes(operand);
                let n = u32_of(self.eval(t.as_slice()));
                self.img.flush();
                self.advance(n);
            }
            _ => {
                let t = trim_bytes(operand);
                let start = u32_of(self.eval(t.as_slice()));
                let here = self.byte_addr();
                let ghost m = self.img.mem_view();
                let mut sum: u8 = 0;
                if here > start {
                    let mut a: u32 = start;
                    while a < here
                        invariant start <= a <= here, self.wf(), m == self.img.mem_view(),
                            sum == xor_range(m, start, a as int),
                        decreases here - a,
                    {
                        sum = sum ^ self.img.read(a);
                        a += 1;
                    }
                } else {
                    let x = self.img.read(start);
                    sum = sum ^ x;
                    assert(0u8 ^ x == x) by (bit_vector);
                }
                let one = vec![sum];
                assert(one@ =~= seq![sum]);
                self.emit_and_advance(one.as_slice());
            }
        }
    }
}

pub proof fn lemma_split_nonempty(s: Seq<u8>, sep: u8, i: int, q: Option<u8>, cur: Seq<u8>)
    ensures split_quoted(s, sep, i, q, cur).len() >= 1,
    decreases s.len() - i,
{
    if !(i < 0 || i >= s.len()) {
        let c = s[i];
        match q {
            Some(qq) => lemma_split_nonempty(s, sep, i + 1, if c == qq { None } else { q }, cur.push(c)),
            None => if c == 0x22 || c == 0x27 { lemma_split_nonempty(s, sep, i + 1, Some(c), cur.push(c)) }
                else if c == sep { lemma_split_nonempty(s, sep, i + 1, None, Seq::empty()) }
                else { lemma_split_nonempty(s, sep, i + 1, None, cur.push(c)) },
        }
    }
}


/// Where the leading `"` characters of `s` end, from `i`.
pub open spec fn lead_quotes(s: Seq<u8>, i: int) -> int
    decreases s.len() - i,
{
    if 0 <= i < s.len() && s[i] == 0x22 { lead_quotes(s, i + 1) } else { i }
}

/// Where `s` ends once trailing `"` characters down to `lo` are dropped.
pub open spec fn trail_quotes(s: Seq<u8>, j: int, lo: int) -> int
    decreases j - lo,
{
    if lo < j <= s.len() && s[j - 1] == 0x22 { trail_quotes(s, j - 1, lo) } else { j }
}

/// `s` without `"` characters at either end.
pub open spec fn unquoted(s: Seq<u8>) -> Seq<u8> {
    let a = lead_quotes(s, 0);
    s.subrange(a, trail_quotes(s, s.len() as int, a))
}

/// `s` without `=` characters at its end.
pub open spec fn strip_eq(s: Seq<u8>) -> Seq<u8>
    decreases s.len(),
{
    if s.len() > 0 && s.last() == 0x3D { strip_eq(s.drop_last()) } else { s }
}

fn unquoted_exec(s: &[u8]) -> (r: Vec<u8>)
    ensures r@ == unquoted(s@),
{
    let mut a: usize = 0;
    while a < s.len() && s[a] == 0x22
        invariant a <= s.len(), lead_quotes(s@, a as int) == lead_quotes(s@, 0),
        decreases s.len() - a,
    {
        a += 1;
    }
    let mut b: usize = s.len();
    while b > a && s[b - 1] == 0x22
        invariant a <= b <= s.len(), lead_quotes(s@, 0) == a,
            trail_quotes(s@, b as int, a as int) == trail_quotes(s@, s@.len() as int, a as int),
        decreases b - a,
    {
        b -= 1;
    }
    slice_vec(s, a, b)
}

fn strip_eq_exec(s: &[u8]) -> (r: Vec<u8>)
    ensures r@ == strip_eq(s@),
{
    let mut b: usize = s.len();
    assert(s@.subrange(0, s@.len() as int) =~= s@);
    while b > 0 && s[b - 1] == 0x3D
        invariant b <= s.len(), strip_eq(s@.subrange(0, b as int)) == strip_eq(s@),
        decreases b,
    {
        assert(s@.subrange(0, b as int).drop_last() =~= s@.subrange(0, b - 1));
        b -= 1;
    }
    slice_vec(s, 0, b)
}

impl Asm {
    /// Nothing but the settings that directives change differs from `other`.
    pub open spec fn fixed(&self, other: Asm) -> bool {
        &&& self.o == other.o
        &&& self.table == other.table
        &&& self.fmt == other.fmt
        &&& self.prog@ == other.prog@
        &&& self.pass == other.pass
        &&& self.echo@ == other.echo@
        &&& self.end_addr == other.end_addr
        &&& self.saw_end == other.saw_end
        &&& self.cond@ == other.cond@
        &&& self.file@ == other.file@
        &&& self.source_name@ == other.source_name@
        &&& self.line_no == other.line_no
        &&& self.depth == other.depth
        &&& self.lines_read == other.lines_read
        &&& self.line_pc == other.line_pc
        &&& self.seen_this_pass@ == other.seen_this_pass@
        &&& self.syms == other.syms
        &&& self.img == other.img
        &&& self.pc == other.pc
        &&& self.emitted@ == other.emitted@
    }

    /// The directives that change a setting: segments, listing control,
    /// the title, the source byte order, the symbol file, the module, the
    /// local-label and comment characters (both in pass 1 only), and macros.
    #[verifier::rlimit(40)]
    fn setting_directive(&mut self, which: Dir, operand: &[u8])
        requires old(self).wf(),
            which is Seg || which == Dir::List || which == Dir::NoList || which == Dir::Codes
                || which == Dir::NoCodes || which == Dir::Paging || which == Dir::Title || which == Dir::LsFirst
                || which == Dir::MsFirst || which == Dir::Sym || which == Dir::AvSym || which == Dir::Module
                || which == Dir::LocalLabelChar || which == Dir::CommentChar || which == Dir::Define
                || which == Dir::DefCont || which == Dir::Undef,
        ensures
            final(self).wf(),
            old(self).setting_directive_done(*final(self), which, operand@),
    {
        match which {
            Dir::Seg(g) => { self.segment = g; }
            Dir::List => { self.listing_on = true; }
            Dir::NoList => { self.listing_on = false; }
            Dir::Codes => { self.codes = true; }
            Dir::NoCodes => { self.codes = false; }
            Dir::Paging => {}
            Dir::Title => {
                let t = trim_bytes(operand);
                self.title = unquoted_exec(t.as_slice());
            }
            Dir::LsFirst => { self.ls_first = true; }
            Dir::MsFirst => { self.ls_first = false; }
            Dir::Module => { self.module = trim_bytes(operand); }
            Dir::LocalLabelChar => {
                if self.pass == 1 && operand.len() > 1 { self.local_char = operand[1]; }
            }
            Dir::CommentChar => {
                if self.pass == 1 && operand.len() > 1 { self.comment_char = operand[1]; }
            }
            Dir::Sym | Dir::AvSym => {
                if self.pass == 1 {
                    self.avsym = match which { Dir::AvSym => true, _ => false };
                    let n = trim_bytes(operand);
                    if n.len() > 0 {
                        self.sym_out = Some(n);
                    } else if self.sym_out.is_none() {
                        self.sym_out = Some(Vec::new());
                        assert(detail_view(self.sym_out) =~= Some(Seq::<u8>::empty()));
                    }
                }
            }
            Dir::Define => {
                match self.macs.define(operand) {
                    Some(e) => { self.diag(e, None); }
                    None => {}
                }
            }
            Dir::DefCont => {
                match self.macs.defcont(operand) {
                    Some(e) => { self.diag(e, None); }
                    None => {}
                }
            }
            _ => {
                if !self.o.compatibility {
                    let t = trim_bytes(operand);
                    self.macs.undef(t.as_slice());
                }
            }
        }
    }
}


/// The conditional stack as (active, taken) pairs.
pub open spec fn conds(v: Seq<Cond>) -> Seq<(bool, bool)> {
    v.map_values(|c: Cond| (c.active, c.taken))
}

/// A conditional opened inside a skipped branch is skipped throughout: its
/// own branch, its `.ELSE` branch, and, after its `.ENDIF`, the enclosing
/// branch it sits in.
pub proof fn lemma_nested_conditional_skipped(s0: Asm, s1: Asm, s2: Asm, s3: Asm, w: Dir,
    o1: Seq<u8>, o2: Seq<u8>, o3: Seq<u8>)
    requires s0.skipping_spec(), w == Dir::If || w == Dir::IfDef || w == Dir::IfNDef,
        s0.conditional_done(s1, w, o1), s1.conditional_done(s2, Dir::Else, o2),
        s2.conditional_done(s3, Dir::EndIf, o3),
    ensures s1.skipping_spec(), s2.skipping_spec(), s3.skipping_spec(),
{
    let c0 = conds(s0.cond@);
    let c1 = conds(s1.cond@);
    let c2 = conds(s2.cond@);
    let c3 = conds(s3.cond@);
    assert(c0.len() == s0.cond@.len() && c1.len() == s1.cond@.len());
    assert(c2.len() == s2.cond@.len() && c3.len() == s3.cond@.len());
    assert(c1.last() == (s1.cond@.last().active, s1.cond@.last().taken));
    assert(c2.last() == (s2.cond@.last().active, s2.cond@.last().taken));
    assert(!c1.last().0 && c1.last().1);
    assert(c2 == c1.update(c1.len() - 1, (false, true)));
    assert(c3 =~= c0);
    assert(c3.last() == (s3.cond@.last().active, s3.cond@.last().taken));
    assert(c0.last() == (s0.cond@.last().active, s0.cond@.last().taken));
}

proof fn lemma_set_value(s0: Symbols, s1: Symbols, q: Seq<u8>, v: i32)
    requires
        s0.lookup(q) is Some, s1.ignore_case == s0.ignore_case,
        s1.list@ == s0.list@.update(find_symbol(s0.list@, s0.ignore_case, q)->0,
            Symbol { value: v, ..s0.list@[find_symbol(s0.list@, s0.ignore_case, q)->0] }),
    ensures s1.value_of(q) == Some(v),
{
    let k = find_symbol(s0.list@, s0.ignore_case, q)->0;
    lemma_find_symbol(s0.list@, s0.ignore_case, q);
    lemma_find_symbol_update(s0.list@, s0.ignore_case, q, k, Symbol { value: v, ..s0.list@[k] });
}

impl Asm {
    /// Whether a new conditional level is taken: never inside a skipped
    /// branch; `.IFDEF`/`.IFNDEF` test for a macro, `.IF` for a nonzero value.
    pub open spec fn if_taken(&self, which: Dir, operand: Seq<u8>) -> bool {
        !self.skipping_spec() && match which {
            Dir::IfDef => macro_index(self.macs@, trim(operand), 0) < self.macs@.len(),
            Dir::IfNDef => !(macro_index(self.macs@, trim(operand), 0) < self.macs@.len()),
            _ => evaluate(self.env(operand)).0 != 0,
        }
    }

    /// The conditional directives.
    fn conditional(&mut self, which: Dir, operand: &[u8])
        requires old(self).wf(),
            which == Dir::If || which == Dir::IfDef || which == Dir::IfNDef || which == Dir::Else || which == Dir::EndIf,
        ensures
            final(self).wf(),
            old(self).conditional_done(*final(self), which, operand@),
    {
        let ghost c0 = conds(self.cond@);
        match which {
            Dir::Else => {
                let n = self.cond.len();
                if n > 0 {
                    let t = self.cond[n - 1].taken;
                    self.cond.set(n - 1, Cond { active: !t, taken: true });
                    assert(conds(self.cond@) =~= c0.update(n - 1, (!t, true)));
                } else {
                    self.diag(Msg::ElseNoMatch, None);
                }
            }
            Dir::EndIf => {
                let n = self.cond.len();
                if n > 0 {
                    self.cond.pop();
                    assert(conds(self.cond@) =~= c0.drop_last());
                } else {
                    self.diag(Msg::EndifNoMatch, None);
                }
            }
            _ => {
                let outer = !self.skipping();
                if self.cond.len() >= MAX_CONDITIONALS - 1 {
                    self.diag(Msg::CondTooDeep, None);
                    self.cond.push(Cond { active: false, taken: true });
                    assert(conds(self.cond@) =~= c0.push((false, true)));
                    return;
                }
                let want = if !outer { false } else {
                    match which {
                        Dir::IfDef => { let t = trim_bytes(operand); self.macs.defined(t.as_slice()) }
                        Dir::IfNDef => { let t = trim_bytes(operand); !self.macs.defined(t.as_slice()) }
                        _ => self.eval(operand) != 0,
                    }
                };
                // A level opened inside a skipped branch counts as taken, so
                // its `.ELSE` stays skipped too.
                self.cond.push(Cond { active: want, taken: want || !outer });
                assert(conds(self.cond@) =~= c0.push((want, want || !outer)));
            }
        }
    }

    /// `.EQU`/`=`, `.SET` and `.EXPORT`. An `.EQU` label is defined in pass
    /// 1 (first definition wins) and takes its value again in pass 2; `.SET`
    /// changes an existing symbol only; `.EXPORT` marks symbols in pass 2.
    #[verifier::rlimit(40)]
    fn symbol_directive(&mut self, which: Dir, operand: &[u8], label: Option<&[u8]>)
        requires old(self).wf(), which == Dir::Equ || which == Dir::SetValue || which == Dir::Export,
        ensures
            final(self).wf(),
            old(self).symbol_directive_done(*final(self), which, operand@, match label { Some(l) => Some(l@), None => None }),
    {
        let t = trim_bytes(operand);
        match which {
            Dir::Equ => {
                let ghost s0 = *self;
                let v = self.eval_equate(t.as_slice());
                match label {
                    Some(l) => {
                        let raw = strip_eq_exec(l);
                        let (name, _) = Symbols::truncate(raw.as_slice());
                        let (q, local) = Symbols::qualify(name.as_slice(), self.local_char, self.module.as_slice());
                        if contains_name(&self.seen_this_pass, q.as_slice()) {
                            if self.o.strict & 0x04 != 0 && self.pass == 1 {
                                let ghost s1 = *self;
                                let ghost nv = name@;
                                self.report(Msg::DuplicateLabel, Some(name));
                                assert(s1.report_step(s1.out_state(), Msg::DuplicateLabel, Some(nv))
                                    == s0.report_step(s1.out_state(), Msg::DuplicateLabel, Some(nv)));
                            }
                        } else {
                            let ghost before = self.seen_this_pass@;
                            let kept = vec_copy(&q);
                            self.seen_this_pass.push(kept);
                            assert(seqs(self.seen_this_pass@) =~= seqs(before).push(q@));
                            if self.pass == 1 {
                                self.syms.define(q.as_slice(), v, self.segment, local);
                            } else {
                                let ghost s0 = self.syms;
                                self.syms.redefine(q.as_slice(), v);
                                proof { if s0.lookup(q@) is Some { lemma_set_value(s0, self.syms, q@, v); } }
                            }
                        }
                    }
                    None => {}
                }
            }
            Dir::SetValue => {
                let ghost a0 = *self;
                let v = self.eval(t.as_slice());
                match label {
                    Some(l) => {
                        let (name, _) = Symbols::truncate(l);
                        let (q, _) = Symbols::qualify(name.as_slice(), self.local_char, self.module.as_slice());
                        let ghost s0 = self.syms;
                        if !self.syms.set(q.as_slice(), v) {
                            let ghost s1 = *self;
                            let ghost nv = name@;
                            self.diag(Msg::SetPreexist, Some(name));
                            proof { lemma_step_same(s1, a0, s1.out_state(), Msg::SetPreexist, Some(nv)); }
                        } else {
                            proof { lemma_set_value(s0, self.syms, q@, v); }
                        }
                    }
                    None => {}
                }
            }
            _ => {
                if self.pass == 2 {
                    let args = split_args(operand);
                    let ghost s0 = *self;
                    let mut i: usize = 0;
                    while i < args.len()
                        invariant i <= args.len(), self.wf(), self.errors == s0.errors, self.frame(s0),
                            self.img == s0.img, self.pc == s0.pc, self.emitted@ == s0.emitted@,
                            self.syms.ignore_case == s0.syms.ignore_case, self.out_state() == s0.out_state(),
                        decreases args.len() - i,
                    {
                        let a = trim_bytes(args[i].as_slice());
                        let (q, _) = Symbols::qualify(a.as_slice(), self.local_char, self.module.as_slice());
                        self.syms.export(q.as_slice());
                        i += 1;
                    }
                }
            }
        }
    }

    /// `.ORG`, `.END`, `.ECHO`, `.ADDINSTR`, and any directive no name
    /// selects. `.ADDINSTR` past the row limit is fatal.
    #[verifier::rlimit(40)]
    fn control_directive(&mut self, which: Dir, name: &[u8], operand: &[u8]) -> (r: Result<(), RunError>)
        requires old(self).wf(),
            which == Dir::Org || which == Dir::End || which == Dir::Echo || which == Dir::AddInstr || which == Dir::Unknown,
        ensures
            final(self).wf(),
            old(self).control_directive_done(*final(self), which, operand@, r),
    {
        let t = trim_bytes(operand);
        match which {
            Dir::Org => {
                let v = u32_of(self.eval(t.as_slice()));
                if !self.o.block {
                    self.img.flush();
                }
                self.pc = v;
                self.line_pc = v;
            }
            Dir::End => {
                self.saw_end = true;
                if t.len() > 0 {
                    let v = self.eval(t.as_slice());
                    if !(0 <= v && v <= 0xFFFF) {
                        let d = vec_copy(&t);
                        self.diag(Msg::EndOutOfRange, Some(d));
                    }
                    self.end_addr = u32_of(v) & 0xFFFF;
                }
            }
            Dir::Echo => {
                if self.pass == 2 {
                    if t.len() > 0 && t[0] == 0x22 {
                        let (b, _) = text_bytes(t.as_slice());
                        push_all(&mut self.echo, b.as_slice());
                    } else {
                        let v = self.eval(t.as_slice());
                        push_dec_signed(&mut self.echo, v as i64);
                    }
                }
            }
            Dir::AddInstr => {
                if self.pass == 1 {
                    if self.table.rows.len() >= MAX_TABLE_ROWS {
                        return Err(RunError::Exit(EXIT_FATAL));
                    }
                    match parse_row(operand) {
                        Some(row) => {
                            let ghost rv = row@;
                            self.table.rows.push(row);
                            assert(self.table@.rows =~= old(self).table@.rows.push(rv));
                        }
                        None => {}
                    }
                }
            }
            _ => {
                let mut d: Vec<u8> = Vec::new();
                d.push(0x2E);
                push_all(&mut d, name);
                self.diag(Msg::BadDirective, Some(d));
            }
        }
        Ok(())
    }
}


// --- driving ---------------------------------------------------------------------

/// A line without one trailing carriage return.
pub open spec fn strip_cr(s: Seq<u8>) -> Seq<u8> {
    if s.len() > 0 && s.last() == 0x0D { s.drop_last() } else { s }
}

/// The sources as (path, contents) pairs.
pub open spec fn src_view(src: &Sources) -> Seq<(Seq<u8>, Option<Seq<u8>>)> {
    src.files@.map_values(|f: (Vec<u8>, Option<Vec<u8>>)| (f.0@, match f.1 { Some(t) => Some(t@), None => None }))
}

/// Where `path` first stands among `files` from `i`, or their number.
pub open spec fn src_index(files: Seq<(Seq<u8>, Option<Seq<u8>>)>, path: Seq<u8>, i: int) -> int
    decreases files.len() - i,
{
    if i < 0 || i >= files.len() { files.len() as int }
    else if files[i].0 == path { i }
    else { src_index(files, path, i + 1) }
}

pub proof fn lemma_src_index(files: Seq<(Seq<u8>, Option<Seq<u8>>)>, path: Seq<u8>, k: int, i: int)
    requires 0 <= i <= k <= files.len(), k < files.len() ==> files[k].0 == path,
        forall|j: int| i <= j < k ==> files[j].0 != path,
    ensures src_index(files, path, i) == k,
    decreases k - i,
{
    if i < k { lemma_src_index(files, path, k, i + 1); }
}

/// The error a step ended with, if any.
pub open spec fn failure(r: Result<(), RunError>) -> Option<RunError> {
    match r { Ok(_) => None, Err(e) => Some(e) }
}

/// The lines of `t` from `i`, the current one so far being `cur`: split at
/// each line feed, a carriage return before it dropped; a final line needs
/// no line feed, and an empty one after the last line feed is no line.
pub open spec fn lines_from(t: Seq<u8>, i: int, cur: Seq<u8>) -> Seq<Seq<u8>>
    decreases t.len() - i,
{
    if i < 0 || i >= t.len() { if cur.len() > 0 { seq![cur] } else { Seq::empty() } }
    else if t[i] == 0x0A { seq![strip_cr(cur)] + lines_from(t, i + 1, Seq::empty()) }
    else { lines_from(t, i + 1, cur.push(t[i])) }
}

/// The lines of a source text.
pub fn split_lines(t: &[u8]) -> (r: Vec<Vec<u8>>)
    ensures seqs(r@) == lines_from(t@, 0, Seq::empty()),
{
    let mut out: Vec<Vec<u8>> = Vec::new();
    let mut cur: Vec<u8> = Vec::new();
    let mut i: usize = 0;
    while i < t.len()
        invariant i <= t.len(), lines_from(t@, 0, Seq::empty()) == seqs(out@) + lines_from(t@, i as int, cur@),
        decreases t.len() - i,
    {
        if t[i] == 0x0A {
            let ghost before = seqs(out@);
            let ghost cv = cur@;
            if cur.len() > 0 && cur[cur.len() - 1] == 0x0D {
                cur.pop();
            }
            assert(cur@ == strip_cr(cv));
            let ghost sv = cur@;
            out.push(cur);
            cur = Vec::new();
            assert(seqs(out@) =~= before.push(sv));
            assert(before + (seq![sv] + lines_from(t@, i + 1, Seq::empty())) =~= before.push(sv) + lines_from(t@, i + 1, cur@));
        } else {
            cur.push(t[i]);
        }
        i += 1;
    }
    let ghost before = seqs(out@);
    if cur.len() > 0 {
        let ghost cv = cur@;
        out.push(cur);
        assert(seqs(out@) =~= before + seq![cv]);
    } else {
        assert(seqs(out@) =~= before + Seq::<Seq<u8>>::empty());
    }
    out
}

impl Sources {
    /// Where `path` is among the sources: the first entry with that name.
    pub fn find(&self, path: &[u8]) -> (r: Option<usize>)
        ensures
            match r {
                Some(i) => i < self.files@.len() && self.files@[i as int].0@ == path@
                    && forall|j: int| 0 <= j < i ==> self.files@[j].0@ != path@,
                None => forall|j: int| 0 <= j < self.files@.len() ==> self.files@[j].0@ != path@,
            },
    {
        let mut i: usize = 0;
        while i < self.files.len()
            invariant i <= self.files.len(), forall|j: int| 0 <= j < i ==> self.files@[j].0@ != path@,
            decreases self.files.len() - i,
        {
            if bytes_eq(self.files[i].0.as_slice(), path) {
                return Some(i);
            }
            i += 1;
        }
        None
    }
}

/// The listing's continuation lines for the bytes of a line past `off`.
pub open spec fn continuations(lineno: u32, depth: int, pc: u32, bytes: Seq<u8>, off: int, unit: u32) -> Seq<Seq<u8>>
    decreases bytes.len() - off,
{
    if off < 0 || off >= bytes.len() || unit == 0 { Seq::empty() }
    else {
        let end = if bytes.len() - off < 4 { bytes.len() as int } else { off + 4 };
        seq![cont_line(lineno, depth, pc, bytes, off, unit)] + continuations(lineno, depth, pc, bytes, end, unit)
    }
}

/// The continuation line for the (up to four) bytes at `off`.
#[verifier::opaque]
pub open spec fn cont_line(lineno: u32, depth: int, pc: u32, bytes: Seq<u8>, off: int, unit: u32) -> Seq<u8> {
    let end = if bytes.len() - off < 4 { bytes.len() as int } else { off + 4 };
    continuation_text(lineno, depth, wrap_add(pc, ((off as u32) / unit) as int), bytes.subrange(off, end))
}

fn append_lines(lst: &mut Vec<Vec<u8>>, more: &Vec<Vec<u8>>)
    ensures lines_view(final(lst)@) == lines_view(old(lst)@) + lines_view(more@),
{
    let ghost l1 = lines_view(lst@);
    let mut k: usize = 0;
    while k < more.len()
        invariant k <= more.len(), lines_view(lst@) == l1 + lines_view(more@).subrange(0, k as int),
        decreases more.len() - k,
    {
        let c = vec_copy(&more[k]);
        let ghost lv = lines_view(lst@);
        lst.push(c);
        assert(lines_view(lst@) =~= lv.push(more@[k as int]@));
        assert(lines_view(lst@) =~= l1 + lines_view(more@).subrange(0, k + 1));
        k += 1;
    }
    assert(lines_view(more@).subrange(0, more@.len() as int) =~= lines_view(more@));
}

/// The continuation lines for `bytes` past `off`.
#[verifier::spinoff_prover]
#[verifier::rlimit(80)]
fn continuation_lines(lineno: u32, depth: usize, pc: u32, bytes: &[u8], off: usize, unit: u32) -> (r: Vec<Vec<u8>>)
    requires off <= bytes.len(), unit == 1 || unit == 2,
    ensures lines_view(r@) == continuations(lineno, depth as int, pc, bytes@, off as int, unit),
{
    let mut out: Vec<Vec<u8>> = Vec::new();
    let mut o: usize = off;
    while o < bytes.len()
        invariant off <= o <= bytes.len(), unit == 1 || unit == 2,
            lines_view(out@) + continuations(lineno, depth as int, pc, bytes@, o as int, unit)
                == continuations(lineno, depth as int, pc, bytes@, off as int, unit),
        decreases bytes.len() - o,
    {
        let n = if bytes.len() - o < 4 { bytes.len() - o } else { 4 };
        let a = pc.wrapping_add((o as u32) / unit);
        let part = slice_vec(bytes, o, o + n);
        let c = crate::listing::continuation(lineno, depth, a, part.as_slice());
        assert(c@ == cont_line(lineno, depth as int, pc, bytes@, o as int, unit)) by { reveal(cont_line); }
        let ghost lv = lines_view(out@);
        out.push(c);
        assert(lines_view(out@) =~= lv.push(c@));
        assert(lv + continuations(lineno, depth as int, pc, bytes@, o as int, unit)
            =~= lv.push(c@) + continuations(lineno, depth as int, pc, bytes@, (o + n) as int, unit));
        o += n;
    }
    assert(lines_view(out@) + Seq::<Seq<u8>>::empty() =~= lines_view(out@));
    out
}

impl Asm {
    /// The listing lines for the current source line, shown as `shown`.
    pub open spec fn listing_lines(&self, shown: Seq<u8>) -> Seq<Seq<u8>> {
        if self.pass != 2 || self.o.quiet || !self.listing_on { Seq::empty() }
        else if !self.codes { seq![shown] }
        else {
            let b = self.emitted@;
            let first = if b.len() < 4 { b.len() as int } else { 4 };
            seq![line_text(self.line_no, self.depth as int, self.line_pc, self.skipping_spec(), b, shown)]
                + continuations(self.line_no, self.depth as int, self.line_pc, b, first,
                    if self.table.wordaddrs { 2u32 } else { 1u32 })
        }
    }

    /// List the current line (pass 2 only, unless the listing is off or
    /// suppressed): the first line with up to four bytes, then continuation
    /// lines for the rest.
    fn list_line(&mut self, shown: &[u8])
        requires old(self).wf(),
        ensures
            final(self).wf(), final(self).errors == old(self).errors, final(self).stdout@ == old(self).stdout@,
            final(self).frame(*old(self)), final(self).syms == old(self).syms, final(self).img == old(self).img,
            final(self).pc == old(self).pc, final(self).pending@ == old(self).pending@,
            lines_view(final(self).lst@) == lines_view(old(self).lst@) + old(self).listing_lines(shown@),
            old(self).list_line_done(*final(self), shown@),
    {
        let ghost l0 = lines_view(self.lst@);
        if self.pass != 2 || self.o.quiet || !self.listing_on {
            assert(lines_view(self.lst@) =~= l0 + Seq::<Seq<u8>>::empty());
            assert(*self == (Asm { lst: self.lst, emitted: self.emitted, ..*old(self) }));
            assert(lines_view(self.lst@) == lines_view(old(self).lst@) + old(self).listing_lines(shown@));
            assert(self.emitted@ == if old(self).pass != 2 || old(self).o.quiet || !old(self).listing_on { old(self).emitted@ } else { Seq::<u8>::empty() });
            assert(old(self).list_line_done(*self, shown@));
            return;
        }
        let skipped = self.skipping();
        if !self.codes {
            let l = crate::listing::line_nocodes(shown);
            self.lst.push(l);
            assert(lines_view(self.lst@) =~= l0 + seq![shown@]);
            self.emitted = Vec::new();
            assert(*self == (Asm { lst: self.lst, emitted: self.emitted, ..*old(self) }));
            assert(lines_view(self.lst@) == lines_view(old(self).lst@) + old(self).listing_lines(shown@));
            assert(self.emitted@ == if old(self).pass != 2 || old(self).o.quiet || !old(self).listing_on { old(self).emitted@ } else { Seq::<u8>::empty() });
            assert(old(self).list_line_done(*self, shown@));
            return;
        }
        let bytes = vec_copy(&self.emitted);
        let first = if bytes.len() < 4 { bytes.len() } else { 4 };
        let head = slice_vec(bytes.as_slice(), 0, first);
        proof {
            let b = bytes@;
            if b.len() <= 4 { assert(b.subrange(0, first as int) =~= b); }
            assert(crate::listing::shown_bytes(b.subrange(0, first as int)) =~= crate::listing::shown_bytes(b));
        }
        let l = crate::listing::line(self.line_no, self.depth, self.line_pc, skipped, head.as_slice(), shown);
        self.lst.push(l);
        let unit: u32 = if self.table.wordaddrs { 2 } else { 1 };
        let more = continuation_lines(self.line_no, self.depth, self.line_pc, bytes.as_slice(), first, unit);
        append_lines(&mut self.lst, &more);
        self.emitted = Vec::new();
        assert(*self == (Asm { lst: self.lst, emitted: self.emitted, ..*old(self) }));
        assert(lines_view(self.lst@) == lines_view(old(self).lst@) + old(self).listing_lines(shown@));
        assert(self.emitted@ == if old(self).pass != 2 || old(self).o.quiet || !old(self).listing_on { old(self).emitted@ } else { Seq::<u8>::empty() });
        assert(old(self).list_line_done(*self, shown@));
    }
}


/// Where the leading `.` and `#` characters of `m` end, from `i`.
pub open spec fn lead_marks(m: Seq<u8>, i: int) -> int
    decreases m.len() - i,
{
    if 0 <= i < m.len() && (m[i] == 0x2E || m[i] == 0x23) { lead_marks(m, i + 1) } else { i }
}

/// A directive's name: the mnemonic without its leading `.`/`#` marks (or
/// whole, when it is nothing else), upper-cased.
pub open spec fn dir_name(m: Seq<u8>) -> Seq<u8> {
    let k = lead_marks(m, 0);
    if k >= m.len() { upper_seq(m) } else { upper_seq(m.subrange(k, m.len() as int)) }
}

fn dir_name_exec(m: &[u8]) -> (r: Vec<u8>)
    ensures r@ == dir_name(m@),
{
    let mut k: usize = 0;
    while k < m.len() && (m[k] == 0x2E || m[k] == 0x23)
        invariant k <= m.len(), lead_marks(m@, k as int) == lead_marks(m@, 0),
        decreases m.len() - k,
    {
        k += 1;
    }
    if k >= m.len() {
        to_upper(m)
    } else {
        let rest = slice_vec(m, k, m.len());
        to_upper(rest.as_slice())
    }
}

/// A run of statements that stopped stays stopped, whatever follows.
proof fn lemma_stmts_err(a: Asm, b: Asm, files: Seq<(Seq<u8>, Option<Seq<u8>>)>, stmts: Seq<Seq<u8>>, j: int,
    depth: int, e: RunError)
    requires 0 <= j <= stmts.len(), a.stmts_done(b, files, stmts.take(j), depth, Some(e)),
    ensures a.stmts_done(b, files, stmts, depth, Some(e)),
    decreases stmts.len() - j,
{
    if j < stmts.len() {
        let t = stmts.take(j + 1);
        assert(t.drop_last() =~= stmts.take(j));
        assert(a.stmts_done(b, files, t.drop_last(), depth, Some(e)));
        assert(a.stmts_done(b, files, t, depth, Some(e)));
        lemma_stmts_err(a, b, files, stmts, j + 1, depth, e);
    } else {
        assert(stmts.take(j) =~= stmts);
    }
}

/// A run of lines that stopped stays stopped, whatever follows.
proof fn lemma_lines_err(a: Asm, b: Asm, files: Seq<(Seq<u8>, Option<Seq<u8>>)>, lines: Seq<Seq<u8>>, j: int,
    depth: int, e: RunError)
    requires 0 <= j <= lines.len(), a.lines_done(b, files, lines.take(j), depth, Some(e)),
    ensures a.lines_done(b, files, lines, depth, Some(e)),
    decreases lines.len() - j,
{
    if j < lines.len() {
        let t = lines.take(j + 1);
        assert(t.drop_last() =~= lines.take(j));
        assert(a.lines_done(b, files, t.drop_last(), depth, Some(e)));
        assert(a.lines_done(b, files, t, depth, Some(e)));
        lemma_lines_err(a, b, files, lines, j + 1, depth, e);
    } else {
        assert(lines.take(j) =~= lines);
    }
}

impl Asm {
    /// What every step of an assembly keeps: the invariant, the pass, the
    /// options, the message prefix, and no lost errors.
    pub open spec fn steps_from(&self, other: Asm) -> bool {
        &&& self.wf()
        &&& self.pass == other.pass
        &&& self.o == other.o
        &&& self.prog@ == other.prog@
        &&& self.errors >= other.errors
        &&& self.source_name@ == other.source_name@
        &&& (other.pass != 2 ==> self.img.mem_view() == other.img.mem_view())
    }

    /// A directive, by its selector. `.INCLUDE` assembles the named source
    /// one level deeper, unless that would reach the nesting limit.
    fn directive(&mut self, src: &Sources, which: Dir, name: &[u8], operand: &[u8], label: Option<&[u8]>, depth: usize)
        -> (r: Result<(), RunError>)
        requires old(self).wf(), depth < MAX_INCLUDE_DEPTH,
        ensures final(self).steps_from(*old(self)),
            r matches Err(RunError::Exit(c)) ==> c == EXIT_FILE || c == EXIT_FATAL,
            r matches Err(RunError::Missing(p)) ==> forall|j: int| 0 <= j < src.files@.len() ==> src.files@[j].0@ != p@,
            old(self).directive_done(*final(self), src_view(src), which, name@, operand@,
                match label { Some(l) => Some(l@), None => None }, depth as int, failure(r)),
        decreases MAX_INCLUDE_DEPTH - depth, 0usize,
    {
        let r = match which {
            Dir::Byte | Dir::Word | Dir::Text | Dir::Fill | Dir::Block | Dir::Chk => {
                self.data_directive(which, operand);
                assert(old(self).data_directive_done(*self, which, operand@));
                Ok(())
            }
            Dir::Org | Dir::End | Dir::Echo | Dir::AddInstr | Dir::Unknown => {
                self.control_directive(which, name, operand)
            }
            Dir::Equ | Dir::SetValue | Dir::Export => {
                self.symbol_directive(which, operand, label);
                Ok(())
            }
            Dir::If | Dir::IfDef | Dir::IfNDef | Dir::Else | Dir::EndIf => {
                self.conditional(which, operand);
                Ok(())
            }
            Dir::Include => {
                let t = trim_bytes(operand);
                let path = unquoted_exec(t.as_slice());
                if depth + 1 >= MAX_INCLUDE_DEPTH {
                    self.diag(Msg::IncludeTooDeep, Some(path));
                    Ok(())
                } else {
                    assert(path@ == unquoted(trim(operand@)));
                    self.assemble_file(src, path.as_slice(), depth + 1)
                }
            }
            _ => {
                self.setting_directive(which, operand);
                Ok(())
            }
        };
        assert(old(self).directive_done(*self, src_view(src), which, name@, operand@,
            match label { Some(l) => Some(l@), None => None }, depth as int, failure(r)));
        r
    }

    /// One statement: its label, then its directive or instruction. While a
    /// branch is skipped only the conditional directives are seen.
    #[verifier::spinoff_prover]
    #[verifier::rlimit(100)]
    fn statement(&mut self, src: &Sources, stmt: &[u8], depth: usize) -> (r: Result<(), RunError>)
        requires old(self).wf(), depth < MAX_INCLUDE_DEPTH,
        ensures final(self).steps_from(*old(self)),
            old(self).skipping_spec() ==> r is Ok && final(self).emitted@ == old(self).emitted@
                && final(self).pc == old(self).pc && final(self).syms == old(self).syms && final(self).img == old(self).img,
            ({
                let p = statement_parts(stmt@, old(self).comment_char, old(self).local_char);
                &&& (!old(self).skipping_spec() && p.0 is None && p.1.len() > 0 && is_alpha(p.1[0]) ==> r is Ok
                    && match find_spec(old(self).table@, p.1, p.2, old(self).o.class_mask) {
                        None => final(self).emitted@ == old(self).emitted@ && final(self).pc == old(self).pc
                            && final(self).img == old(self).img,
                        Some(f) => final(self).emitted@ == old(self).emitted@ + old(self).instr_bytes(f)
                            && final(self).pc == advanced(old(self).table.wordaddrs, old(self).pc, (final(self).emitted@.len() as u32))
                            && (old(self).pass == 2 ==> final(self).img.mem_view() == old(self).written(old(self).instr_bytes(f))),
                    })
                &&& (!old(self).skipping_spec() && p.1.len() == 0 && p.0 is Some ==> r is Ok
                    && final(self).emitted@ == old(self).emitted@ && final(self).pc == old(self).pc
                    && (!old(self).seen_name(p.0->0) && old(self).pass == 1
                        && old(self).syms.value_of(old(self).label_key(p.0->0)) is None
                        && old(self).syms.list@.len() < MAX_SYMBOLS
                        ==> final(self).syms.value_of(old(self).label_key(p.0->0)) == Some(old(self).pc as i32)))
            }),
            r matches Err(RunError::Exit(c)) ==> c == EXIT_FILE || c == EXIT_FATAL,
            r matches Err(RunError::Missing(p)) ==> forall|j: int| 0 <= j < src.files@.len() ==> src.files@[j].0@ != p@,
            old(self).statement_done(*final(self), src_view(src), stmt@, depth as int, failure(r)),
        decreases MAX_INCLUDE_DEPTH - depth, 1usize,
    {
        let (label, mnem, operand) = split_statement(stmt, self.comment_char, self.local_char);
        let ghost p = statement_parts(stmt@, self.comment_char, self.local_char);
        let ghost lv: Option<Seq<u8>> = match &label { Some(l) => Some(l@), None => None };
        assert(lv == p.0);
        if mnem.len() == 0 && label.is_none() {
            assert(old(self).statement_done(*self, src_view(src), stmt@, depth as int, None));
            return Ok(());
        }
        let is_directive = mnem.len() > 0 && !is_alpha_byte(mnem[0]);
        let dname = if is_directive { dir_name_exec(mnem.as_slice()) } else { Vec::new() };
        let which = if is_directive { dir_of(dname.as_slice()) } else { Dir::Unknown };
        if self.skipping() {
            if is_directive && (which == Dir::If || which == Dir::IfDef || which == Dir::IfNDef
                || which == Dir::Else || which == Dir::EndIf) {
                self.conditional(which, operand.as_slice());
            }
            assert(old(self).statement_done(*self, src_view(src), stmt@, depth as int, None));
            return Ok(());
        }
        let defines_own = is_directive && (which == Dir::Equ || which == Dir::SetValue);
        match &label {
            Some(name) => {
                if !defines_own {
                    let v = self.pc as i32;
                    self.define_label(name.as_slice(), v);
                }
            }
            None => {}
        }
        let ghost m = *self;
        assert(m.wf());
        assert(old(self).labelled(m, p.0, defines_own));
        if mnem.len() == 0 {
            assert(old(self).statement_done(*self, src_view(src), stmt@, depth as int, None));
            return Ok(());
        }
        if is_directive {
            let l = match &label { Some(x) => Some(x.as_slice()), None => None };
            assert(match l { Some(x) => Some(x@), None => None::<Seq<u8>> } == p.0);
            let r = self.directive(src, which, dname.as_slice(), operand.as_slice(), l, depth);
            assert(m.directive_done(*self, src_view(src), which, dir_name(p.1), p.2, p.0, depth as int, failure(r)));
            assert(old(self).statement_done(*self, src_view(src), stmt@, depth as int, failure(r)));
            r
        } else {
            self.instruction(mnem.as_slice(), operand.as_slice());
            assert(m.instruction_done(*self, p.1, p.2));
            assert(old(self).statement_done(*self, src_view(src), stmt@, depth as int, None));
            Ok(())
        }
    }

    /// Expand the line's macros (the line as it is in a skipped branch) and
    /// raise the expansion's diagnostics.
    fn expand_line(&mut self, text: &[u8]) -> (r: Vec<u8>)
        requires old(self).wf(),
        ensures final(self).steps_from(*old(self)), old(self).line_expanded(*final(self), text@),
            r@ == old(self).line_expansion(text@).0,
    {
        let ghost a = *self;
        let (expanded, errs) = if self.skipping() {
            (slice_vec(text, 0, text.len()), Vec::new())
        } else {
            self.macs.expand(text, self.comment_char)
        };
        assert(text@.subrange(0, text@.len() as int) =~= text@);
        assert(expanded@ == a.line_expansion(text@).0 && errs@ == a.line_expansion(text@).1);
        let ghost ev = errs@.map_values(|e: Msg| (e, None::<Seq<u8>>));
        let mut k: usize = 0;
        while k < errs.len()
            invariant k <= errs.len(), self.steps_from(a), self.wf(),
                self.keeps_state(a), ev == errs@.map_values(|e: Msg| (e, None::<Seq<u8>>)),
                self.out_state() == a.diags_out(ev.subrange(0, k as int)),
            decreases errs.len() - k,
        {
            let ghost s1 = *self;
            let ghost x = (errs@[k as int], None::<Seq<u8>>);
            assert(ev[k as int] == x);
            self.diag(errs[k], None);
            proof {
                lemma_step_same(s1, a, s1.out_state(), x.0, x.1);
                lemma_diags_push(a, ev.subrange(0, k as int), x);
                assert(ev.subrange(0, k as int).push(x) =~= ev.subrange(0, k + 1));
            }
            k += 1;
        }
        assert(ev.subrange(0, ev.len() as int) =~= ev);
        expanded
    }

    /// List the line as `shown`, then the lines that wait for it.
    fn end_line(&mut self, shown: &[u8])
        requires old(self).wf(),
        ensures final(self).steps_from(*old(self)), old(self).listed(*final(self), shown@),
    {
        self.list_line(shown);
        let ghost d = *self;
        let mut pending: Vec<Vec<u8>> = Vec::new();
        std::mem::swap(&mut pending, &mut self.pending);
        append_lines(&mut self.lst, &pending);
        assert(old(self).list_line_done(d, shown@));
    }

    /// One source line: expand macros, strip the comment, assemble each
    /// statement, then list the line and any diagnostics that follow it.
    #[verifier::spinoff_prover]
    #[verifier::rlimit(100)]
    fn line(&mut self, src: &Sources, raw: &[u8], depth: usize) -> (r: Result<(), RunError>)
        requires old(self).wf(), depth < MAX_INCLUDE_DEPTH,
        ensures final(self).steps_from(*old(self)),
            r matches Err(RunError::Exit(c)) ==> c == EXIT_FILE || c == EXIT_FATAL,
            r matches Err(RunError::Missing(p)) ==> forall|j: int| 0 <= j < src.files@.len() ==> src.files@[j].0@ != p@,
            old(self).line_done(*final(self), src_view(src), raw@, depth as int, failure(r)),
        decreases MAX_INCLUDE_DEPTH - depth, 2usize,
    {
        let text = if raw.len() > 0 && raw[raw.len() - 1] == 0x0D {
            slice_vec(raw, 0, raw.len() - 1)
        } else {
            slice_vec(raw, 0, raw.len())
        };
        assert(text@ == strip_cr(raw@)) by {
            if !(raw@.len() > 0 && raw@.last() == 0x0D) { assert(raw@.subrange(0, raw@.len() as int) =~= raw@); }
        }
        let ghost files = src_view(src);
        self.line_pc = self.pc;
        self.emitted = Vec::new();
        let ghost a = *self;
        let expanded = self.expand_line(text.as_slice());
        let ghost b = *self;
        assert(a.line_expanded(b, text@));
        assert(a.wf());
        let shown = if self.o.expand { vec_copy(&expanded) } else { text };
        let ghost shown_v = shown@;
        assert(shown_v == if a.o.expand { a.line_expansion(strip_cr(raw@)).0 } else { strip_cr(raw@) });
        let code = strip_comment(expanded.as_slice(), self.comment_char);
        let stmts = split_statements(code.as_slice());
        let ghost sv = stmts@.map_values(|v: Vec<u8>| v@);
        assert(sv == a.line_code(text@));
        assert(b.stmts_done(*self, files, sv.take(0), depth as int, None));
        let mut i: usize = 0;
        while i < stmts.len()
            invariant i <= stmts.len(), self.steps_from(b), b.steps_from(a), a.steps_from(*old(self)),
                sv == a.line_code(strip_cr(raw@)), a.wf(), a.line_expanded(b, strip_cr(raw@)),
                a.line_pc == old(self).pc, a.emitted@.len() == 0,
                *old(self) == (Asm { line_pc: old(self).line_pc, emitted: old(self).emitted, ..a }),
                shown_v == shown@, shown_v == if a.o.expand { a.line_expansion(strip_cr(raw@)).0 } else { strip_cr(raw@) },
                depth < MAX_INCLUDE_DEPTH, files == src_view(src), sv == stmts@.map_values(|v: Vec<u8>| v@),
                b.stmts_done(*self, files, sv.take(i as int), depth as int, None),
            decreases stmts.len() - i,
        {
            let ghost prev = *self;
            let r = self.statement(src, stmts[i].as_slice(), depth);
            proof {
                assert(prev.wf());
                let t = sv.take(i + 1);
                assert(t.drop_last() =~= sv.take(i as int));
                assert(t.last() == stmts@[i as int]@);
                assert(b.stmts_done(prev, files, t.drop_last(), depth as int, None));
                assert(b.stmts_done(*self, files, t, depth as int, failure(r)));
            }
            match r {
                Err(e) => {
                    proof {
                        lemma_stmts_err(b, *self, files, sv, i + 1, depth as int, e);
                        assert(b.stmts_done(*self, files, a.line_code(strip_cr(raw@)), depth as int, Some(e)));
                        assert(old(self).line_done(*self, files, raw@, depth as int, Some(e)));
                    }
                    return Err(e);
                }
                Ok(()) => {}
            }
            i += 1;
        }
        assert(sv.take(sv.len() as int) =~= sv);
        let ghost c = *self;
        assert(c.wf());
        assert(b.stmts_done(c, files, a.line_code(strip_cr(raw@)), depth as int, None));
        self.end_line(shown.as_slice());
        assert(old(self).line_done(*self, files, raw@, depth as int, None));
        Ok(())
    }

    /// Assemble the source `path` one include level down from `depth - 1`:
    /// its lines numbered from 1, then the includer's file, line and depth
    /// restored. A path not among the sources stops the run.
    #[verifier::spinoff_prover]
    #[verifier::rlimit(50)]
    fn assemble_file(&mut self, src: &Sources, path: &[u8], depth: usize) -> (r: Result<(), RunError>)
        requires old(self).wf(), depth < MAX_INCLUDE_DEPTH,
        ensures final(self).steps_from(*old(self)),
            r matches Err(RunError::Exit(c)) ==> c == EXIT_FILE || c == EXIT_FATAL,
            r matches Err(RunError::Missing(p)) ==> forall|j: int| 0 <= j < src.files@.len() ==> src.files@[j].0@ != p@,
            (forall|j: int| 0 <= j < src.files@.len() ==> src.files@[j].0@ != path@)
                ==> (r matches Err(RunError::Missing(p)) && p@ == path@),
            old(self).assembled(*final(self), src_view(src), path@, depth as int, failure(r)),
        decreases MAX_INCLUDE_DEPTH - depth, 3usize,
    {
        let ghost files = src_view(src);
        let k = match src.find(path) {
            Some(k) => k,
            None => {
                proof { lemma_src_index(files, path@, files.len() as int, 0); }
                assert(path@.subrange(0, path@.len() as int) =~= path@);
                return Err(RunError::Missing(slice_vec(path, 0, path.len())));
            }
        };
        proof { lemma_src_index(files, path@, k as int, 0); }
        let lines = match &src.files[k].1 {
            Some(t) => split_lines(t.as_slice()),
            None => {
                proof { }
                return Err(RunError::Exit(EXIT_FILE));
            }
        };
        let ghost tv = match files[k as int].1 { Some(t) => t, None => Seq::empty() };
        assert(files[k as int].1 == Some(tv));
        let ghost lv = seqs(lines@);
        assert(lv == lines_from(tv, 0, Seq::empty()));
        let save_file = vec_copy(&self.file);
        let save_line = self.line_no;
        let save_depth = self.depth;
        self.file = slice_vec(path, 0, path.len());
        self.depth = depth;
        assert(self.file@ =~= path@);
        let ghost s0 = *self;
        assert(s0.wf());
        assert(s0.lines_done(*self, files, lv.take(0), depth as int, None));
        let mut i: usize = 0;
        while i < lines.len()
            invariant i <= lines.len(), self.steps_from(s0), s0.steps_from(*old(self)), depth < MAX_INCLUDE_DEPTH,
                s0.wf(), s0.file@ == path@, s0.depth == depth,
                *old(self) == (Asm { file: old(self).file, depth: old(self).depth, ..s0 }),
                files[k as int].1 == Some(tv), src_index(files, path@, 0) == k,
                save_file@ == old(self).file@, save_line == old(self).line_no, save_depth == old(self).depth,
                k < src.files@.len(), src.files@[k as int].0@ == path@, files == src_view(src),
                lv == seqs(lines@), lv == lines_from(tv, 0, Seq::empty()),
                s0.lines_done(*self, files, lv.take(i as int), depth as int, None),
            decreases lines.len() - i,
        {
            let ghost prev = *self;
            let no = (#[verifier::truncate] (i as u32));
            self.line_no = no.wrapping_add(1);
            self.lines_read = self.lines_read.wrapping_add(1);
            let ghost n = *self;
            let r = self.line(src, lines[i].as_slice(), depth);
            proof {
                assert(prev.wf());
                let t = lv.take(i + 1);
                assert(t.drop_last() =~= lv.take(i as int));
                assert(t.last() == lines@[i as int]@);
                assert(n == (Asm { line_no: (#[verifier::truncate] ((t.len() - 1) as u32)).wrapping_add(1),
                    lines_read: prev.lines_read.wrapping_add(1), ..prev }));
                assert(s0.lines_done(prev, files, t.drop_last(), depth as int, None));
                assert(s0.lines_done(*self, files, t, depth as int, failure(r)));
            }
            match r {
                Err(e) => {
                    proof {
                        lemma_lines_err(s0, *self, files, lv, i + 1, depth as int, e);
                        assert(s0.lines_done(*self, files, lines_from(tv, 0, Seq::empty()), depth as int, Some(e)));
                        assert(old(self).assembled(*self, files, path@, depth as int, Some(e)));
                    }
                    return Err(e);
                }
                Ok(()) => {}
            }
            i += 1;
        }
        assert(lv.take(lv.len() as int) =~= lv);
        let ghost b = *self;
        assert(b.wf());
        assert(s0.lines_done(b, files, lines_from(tv, 0, Seq::empty()), depth as int, None));
        self.file = save_file;
        self.line_no = save_line;
        self.depth = save_depth;
        assert(old(self).assembled(*self, files, path@, depth as int, None));
        Ok(())
    }
}


// --- results -------------------------------------------------------------------------

pub open spec fn sym_names(list: Seq<Symbol>) -> Seq<Seq<u8>> {
    list.map_values(|s: Symbol| s.name@)
}

/// Each symbol's first byte (0 for an empty name): the legacy sort key.
pub open spec fn first_keys(list: Seq<Symbol>) -> Seq<u8> {
    list.map_values(|s: Symbol| if s.name@.len() > 0 { s.name@[0] } else { 0u8 })
}

/// Lines joined, each ended by a line feed.
pub open spec fn joined(lines: Seq<Seq<u8>>) -> Seq<u8>
    decreases lines.len(),
{
    if lines.len() == 0 { Seq::empty() } else { joined(lines.drop_last()) + lines.last() + seq![0x0Au8] }
}

/// `s` without trailing line feeds.
pub open spec fn strip_nl(s: Seq<u8>) -> Seq<u8>
    decreases s.len(),
{
    if s.len() > 0 && s.last() == 0x0A { strip_nl(s.drop_last()) } else { s }
}

/// The line announcing the end of a pass.
pub open spec fn pass_line(prog: Seq<u8>, n: nat) -> Seq<u8> {
    prog + sb(": pass ") + dec_digits(n) + sb(" complete.\n")
}

fn strip_nl_exec(s: &[u8]) -> (r: Vec<u8>)
    ensures r@ == strip_nl(s@),
{
    let mut b: usize = s.len();
    assert(s@.subrange(0, s@.len() as int) =~= s@);
    while b > 0 && s[b - 1] == 0x0A
        invariant b <= s.len(), strip_nl(s@.subrange(0, b as int)) == strip_nl(s@),
        decreases b,
    {
        assert(s@.subrange(0, b as int).drop_last() =~= s@.subrange(0, b - 1));
        b -= 1;
    }
    slice_vec(s, 0, b)
}

fn join_lines(lines: &Vec<Vec<u8>>) -> (r: Vec<u8>)
    ensures r@ == joined(lines_view(lines@)),
{
    let mut out: Vec<u8> = Vec::new();
    let mut i: usize = 0;
    while i < lines.len()
        invariant i <= lines.len(), out@ == joined(lines_view(lines@).subrange(0, i as int)),
        decreases lines.len() - i,
    {
        assert(lines_view(lines@).subrange(0, i + 1).drop_last() =~= lines_view(lines@).subrange(0, i as int));
        push_all(&mut out, lines[i].as_slice());
        out.push(0x0A);
        i += 1;
    }
    assert(lines_view(lines@).subrange(0, lines@.len() as int) =~= lines_view(lines@));
    out
}

impl Asm {
    /// The label table `-l`, `-ll` or `-la` asks for, in `order`.
    pub open spec fn label_lines(&self, order: Seq<usize>) -> Seq<Seq<u8>> {
        match self.o.labels {
            LabelTable::Off => Seq::empty(),
            LabelTable::Short => short_table(self.syms.list@, order, false),
            LabelTable::All => short_table(self.syms.list@, order, true),
            LabelTable::Long => long_table(self.syms.list@, order),
        }
    }

    /// The second line of a page heading: `.TITLE`, else `--page-title`.
    pub open spec fn heading_title(&self) -> Seq<u8> {
        if self.title@.len() > 0 { self.title@ } else { self.o.page_title@ }
    }

    /// The finished listing, symbols in `order`: the source lines, the label
    /// table, the hex dump, the error count line, all paged when `-p` asks
    /// for pages of more than four lines.
    pub open spec fn listing_text(&self, count: Seq<u8>, order: Seq<usize>) -> Seq<u8> {
        let all = lines_view(self.lst@) + self.label_lines(order)
            + (if self.o.hex_dump { hex_table_spec(self.img) } else { Seq::empty() })
            + seq![strip_nl(count)];
        joined(match self.o.page_lines {
            Some(n) => if n > 4 { pages(all, n - 4, self.table.banner@, self.source_name@, self.heading_title(), 0) } else { all },
            None => all,
        })
    }

    /// `order` is the symbol order: every symbol once in lexical order, or
    /// with `--bug-compatibility` the legacy first-byte order.
    pub open spec fn symbol_order(&self, order: Seq<usize>) -> bool {
        &&& order.len() == self.syms.list@.len()
        &&& (self.o.bug_compatibility ==> order == shaker_spec(first_keys(self.syms.list@)))
        &&& (!self.o.bug_compatibility ==> is_permutation(order, self.syms.list@.len() as int)
            && sorted_by_name(sym_names(self.syms.list@), order))
    }

    /// The order of the symbols in the symbol file, the export file and the
    /// label tables: lexical, or with `--bug-compatibility` the legacy
    /// first-byte order.
    pub fn sorted_symbols(&self) -> (r: Vec<usize>)
        requires self.syms.wf(),
        ensures
            r@.len() == self.syms.list@.len(),
            forall|k: int| 0 <= k < r@.len() ==> #[trigger] r@[k] < self.syms.list@.len(),
            self.o.bug_compatibility ==> r@ == shaker_spec(first_keys(self.syms.list@)),
            !self.o.bug_compatibility ==> is_permutation(r@, self.syms.list@.len() as int)
                && sorted_by_name(sym_names(self.syms.list@), r@),
    {
        let list = &self.syms.list;
        if self.o.bug_compatibility {
            let mut keys: Vec<u8> = Vec::new();
            let mut i: usize = 0;
            while i < list.len()
                invariant i <= list.len(), keys@ == first_keys(list@).subrange(0, i as int),
                decreases list.len() - i,
            {
                let k = if list[i].name.len() > 0 { list[i].name[0] } else { 0 };
                keys.push(k);
                assert(keys@ =~= first_keys(list@).subrange(0, i + 1));
                i += 1;
            }
            assert(keys@ =~= first_keys(list@));
            shaker_order(&keys)
        } else {
            let mut names: Vec<Vec<u8>> = Vec::new();
            let mut i: usize = 0;
            while i < list.len()
                invariant i <= list.len(), names@.map_values(|v: Vec<u8>| v@) == sym_names(list@).subrange(0, i as int),
                decreases list.len() - i,
            {
                let n = vec_copy(&list[i].name);
                assert(sym_names(list@)[i as int] == list@[i as int].name@);
                let ghost before = names@;
                let ghost nv = n@;
                names.push(n);
                assert(names@ == before.push(names@.last()));
                assert(names@.map_values(|v: Vec<u8>| v@) =~= before.map_values(|v: Vec<u8>| v@).push(nv));
                assert(sym_names(list@).subrange(0, i + 1) =~= sym_names(list@).subrange(0, i as int).push(nv));
                i += 1;
            }
            assert(names@.map_values(|v: Vec<u8>| v@) =~= sym_names(list@));
            lexical_order(&names)
        }
    }

    /// The listing with the symbols in `order`.
    pub fn listing_with(&self, order: &Vec<usize>, count: &[u8]) -> (r: Vec<u8>)
        requires self.img.wf(), forall|k: int| 0 <= k < order@.len() ==> #[trigger] order@[k] < self.syms.list@.len(),
        ensures r@ == self.listing_text(count@, order@),
    {
        let mut lines: Vec<Vec<u8>> = Vec::new();
        append_lines(&mut lines, &self.lst);
        match self.o.labels {
            LabelTable::Off => {}
            LabelTable::Short => { let t = short_labels(&self.syms, order, false); append_lines(&mut lines, &t); }
            LabelTable::All => { let t = short_labels(&self.syms, order, true); append_lines(&mut lines, &t); }
            LabelTable::Long => { let t = long_labels(&self.syms, order); append_lines(&mut lines, &t); }
        }
        if self.o.hex_dump {
            let t = hex_table(&self.img);
            append_lines(&mut lines, &t);
        }
        let ghost before = lines_view(lines@);
        let c = strip_nl_exec(count);
        lines.push(c);
        let ghost all = lines_view(lines@);
        assert(all =~= before + seq![strip_nl(count@)]);
        assert(all =~= lines_view(self.lst@) + self.label_lines(order@)
            + (if self.o.hex_dump { hex_table_spec(self.img) } else { Seq::empty() }) + seq![strip_nl(count@)]);
        let body = match self.o.page_lines {
            Some(n) => if n > 4 {
                let title = if self.title.len() > 0 { vec_copy(&self.title) } else { vec_copy(&self.o.page_title) };
                paginate(&lines, n as usize, self.table.banner.as_slice(), self.source_name.as_slice(), title.as_slice())
            } else { lines },
            None => lines,
        };
        join_lines(&body)
    }

    /// The finished listing; `count` is the error-count line.
    pub fn build_listing(&self, count: &[u8]) -> (r: Vec<u8>)
        requires self.wf(),
        ensures
            exists|order: Seq<usize>| r@ == self.listing_text(count@, order) && self.symbol_order(order),
    {
        let order = self.sorted_symbols();
        let r = self.listing_with(&order, count);
        assert(r@ == self.listing_text(count@, order@) && self.symbol_order(order@));
        r
    }

    /// The symbol file: one line per symbol, in symbol order.
    pub fn symbol_text(&self) -> (r: Vec<u8>)
        requires self.wf(),
        ensures
            exists|order: Seq<usize>| r@ == sym_text(self.syms.list@, order, self.avsym) && self.symbol_order(order),
    {
        let order = self.sorted_symbols();
        let r = symbol_file(&self.syms, &order, self.avsym);
        assert(r@ == sym_text(self.syms.list@, order@, self.avsym) && self.symbol_order(order@));
        r
    }

    /// The export file: one `.EQU` line per exported symbol, in symbol order.
    pub fn export_text(&self) -> (r: Vec<u8>)
        requires self.wf(),
        ensures
            exists|order: Seq<usize>| r@ == export_text(self.syms.list@, order) && self.symbol_order(order),
    {
        let order = self.sorted_symbols();
        let r = export_file(&self.syms, &order);
        assert(r@ == export_text(self.syms.list@, order@) && self.symbol_order(order@));
        r
    }

    /// Whether any symbol is marked for export.
    pub fn has_exports(&self) -> (r: bool)
        ensures r == exists|k: int| 0 <= k < self.syms.list@.len() && self.syms.list@[k].exported,
    {
        let mut i: usize = 0;
        while i < self.syms.list.len()
            invariant i <= self.syms.list.len(), forall|k: int| 0 <= k < i ==> !self.syms.list@[k].exported,
            decreases self.syms.list.len() - i,
        {
            if self.syms.list[i].exported {
                return true;
            }
            i += 1;
        }
        false
    }

    /// What the object writer is given: with `-c` the whole span written
    /// as one region, otherwise the regions as they were emitted.
    pub fn regions(&self) -> (r: Vec<Region>)
        requires self.img.wf(),
        ensures
            self.o.block ==> regions_view(r@) == match (self.img.lo, self.img.hi) {
                (Some(l), Some(h)) => seq![(l, self.img.mem_view().subrange(l as int, h + 1))],
                _ => Seq::empty(),
            },
            !self.o.block ==> regions_view(r@) == regions_view(self.img.regions@),
    {
        let mut out: Vec<Region> = Vec::new();
        if self.o.block {
            match self.img.block() {
                Some(reg) => {
                    let ghost rv = region_view(reg);
                    out.push(reg);
                    assert(regions_view(out@) =~= seq![rv]);
                }
                None => { assert(regions_view(out@) =~= Seq::<(u32, Seq<u8>)>::empty()); }
            }
            return out;
        }
        let mut i: usize = 0;
        while i < self.img.regions.len()
            invariant i <= self.img.regions.len(), regions_view(out@) == regions_view(self.img.regions@).subrange(0, i as int),
            decreases self.img.regions.len() - i,
        {
            let b = vec_copy(&self.img.regions[i].bytes);
            assert(regions_view(self.img.regions@)[i as int] == region_view(self.img.regions@[i as int]));
            let ghost before = out@;
            let reg = Region { start: self.img.regions[i].start, bytes: b };
            assert(region_view(reg) == regions_view(self.img.regions@)[i as int]);
            out.push(reg);
            assert(out@ == before.push(reg));
            assert(regions_view(out@) =~= regions_view(before).push(region_view(reg)));
            assert(regions_view(out@) =~= regions_view(self.img.regions@).subrange(0, i + 1));
            i += 1;
        }
        assert(regions_view(self.img.regions@).subrange(0, self.img.regions@.len() as int) =~= regions_view(self.img.regions@));
        out
    }

    /// The end of a pass: a conditional left open and a missing `.END`
    /// reported, then the `pass N complete.` line.
    pub open spec fn pass_ended(&self, after: Asm, pass: u8) -> bool {
        let st1 = if self.cond@.len() > 0 { self.diag_step(self.out_state(), Msg::ImbalancedCond, None) }
            else { self.out_state() };
        let st2 = if !self.saw_end { self.diag_step(st1, Msg::NoEnd, None) } else { st1 };
        &&& after.wf() && after.keeps_state(*self)
        &&& after.stdout@ == st2.0 + pass_line(self.prog@, pass as nat)
        &&& lines_view(after.lst@) == st2.1 && lines_view(after.pending@) == st2.2 && after.errors == st2.3
    }

    /// What one pass over `source` does: the counter, the names seen, the
    /// conditionals, `.END`, the segment, the byte order and the listing
    /// switches start afresh and the open region is closed; then the source
    /// is assembled and the pass ended.
    pub open spec fn pass_done(&self, after: Asm, files: Seq<(Seq<u8>, Option<Seq<u8>>)>, source: Seq<u8>,
        pass: u8, e: Option<RunError>) -> bool
    {
        exists|p: Asm| #[trigger] p.wf() && p.pass == pass && p.pc == 0 && p.seen_this_pass@.len() == 0
            && p.lines_read == 0 && p.cond@.len() == 0 && !p.saw_end && p.segment == Segment::Null && p.ls_first
            && p.listing_on && p.codes && self.img.flush_done(p.img)
            && *self == (Asm { pass: self.pass, pc: self.pc, seen_this_pass: self.seen_this_pass,
                lines_read: self.lines_read, cond: self.cond, saw_end: self.saw_end, segment: self.segment,
                ls_first: self.ls_first, listing_on: self.listing_on, codes: self.codes, img: self.img, ..p })
            && {
                ||| e is Some && p.assembled(after, files, source, 0, e)
                ||| e is None && exists|q: Asm| #[trigger] q.wf() && p.assembled(q, files, source, 0, None)
                    && q.pass_ended(after, pass)
            }
    }

    /// What a whole run does: the source named and the `-d` macros defined;
    /// a source not among `files` stops it with its path; otherwise pass 1,
    /// then pass 2, then the last open region closed.
    pub open spec fn run_done(&self, after: Asm, files: Seq<(Seq<u8>, Option<Seq<u8>>)>, source: Seq<u8>,
        e: Option<RunError>) -> bool
    {
        exists|a: Asm| #[trigger] a.wf() && a.source_name@ == source
            && self.macs.defined_all(a.macs, seqs(self.o.defines@))
            && *self == (Asm { source_name: self.source_name, macs: self.macs, ..a })
            && {
                ||| src_index(files, source, 0) >= files.len() && after == a
                    && (e matches Some(RunError::Missing(p)) && p@ == source)
                ||| src_index(files, source, 0) < files.len() && e is Some && a.pass_done(after, files, source, 1, e)
                ||| src_index(files, source, 0) < files.len() && exists|m1: Asm| #[trigger] m1.wf()
                    && a.pass_done(m1, files, source, 1, None) && {
                    ||| e is Some && m1.pass_done(after, files, source, 2, e)
                    ||| e is None && exists|m2: Asm| #[trigger] m2.wf() && m1.pass_done(m2, files, source, 2, None)
                        && m2.img.flush_done(after.img) && after == (Asm { img: after.img, ..m2 })
                }
            }
    }

    /// One pass over `source` (see `pass_done`).
    #[verifier::spinoff_prover]
    #[verifier::rlimit(100)]
    fn one_pass(&mut self, src: &Sources, source: &[u8], pass: u8) -> (r: Result<(), RunError>)
        requires old(self).wf(),
        ensures
            final(self).wf(), final(self).o == old(self).o, final(self).prog@ == old(self).prog@,
            final(self).errors >= old(self).errors, final(self).source_name@ == old(self).source_name@,
            r matches Err(RunError::Exit(c)) ==> c == EXIT_FILE || c == EXIT_FATAL,
            r matches Err(RunError::Missing(p)) ==> forall|j: int| 0 <= j < src.files@.len() ==> src.files@[j].0@ != p@,
            r is Ok ==> final(self).pass == pass && final(self).stdout@.len() >= pass_line(old(self).prog@, pass as nat).len()
                && final(self).stdout@.subrange(final(self).stdout@.len() - pass_line(old(self).prog@, pass as nat).len(),
                    final(self).stdout@.len() as int) == pass_line(old(self).prog@, pass as nat),
            old(self).pass_done(*final(self), src_view(src), source@, pass, failure(r)),
    {
        let ghost files = src_view(src);
        self.pass = pass;
        self.pc = 0;
        self.seen_this_pass = Vec::new();
        self.lines_read = 0;
        self.cond = Vec::new();
        self.saw_end = false;
        self.segment = Segment::Null;
        self.ls_first = true;
        self.listing_on = true;
        self.codes = true;
        self.img.flush();
        let ghost p = *self;
        assert(p.wf());
        let r = self.assemble_file(src, source, 0);
        match r {
            Err(e) => {
                assert(old(self).pass_done(*self, files, source@, pass, failure(r)));
                return Err(e);
            }
            Ok(()) => {}
        }
        let ghost q = *self;
        assert(q.wf());
        if self.cond.len() > 0 {
            self.diag(Msg::ImbalancedCond, None);
        }
        let ghost q1 = *self;
        let ghost st1 = q1.out_state();
        if !self.saw_end {
            self.diag(Msg::NoEnd, None);
            proof { lemma_step_same(q1, q, st1, Msg::NoEnd, None); }
        }
        let mut line: Vec<u8> = Vec::new();
        push_all(&mut line, self.prog.as_slice());
        push_all(&mut line, ": pass ".as_bytes());
        push_dec(&mut line, pass as u64);
        push_all(&mut line, " complete.\n".as_bytes());
        assert(line@ =~= pass_line(self.prog@, pass as nat));
        push_all(&mut self.stdout, line.as_slice());
        assert(self.stdout@.subrange(self.stdout@.len() - line@.len(), self.stdout@.len() as int) =~= line@);
        assert(q.pass_ended(*self, pass));
        assert(old(self).pass_done(*self, files, source@, pass, None));
        Ok(())
    }

    /// Assemble `source` in two passes. Each pass starts the counter, the
    /// conditionals, the segment, the byte order and the listing switches
    /// afresh and ends with a `pass N complete.` line; a pass that leaves a
    /// conditional open or saw no `.END` is reported. The `-d` macros are
    /// defined first. A source or include that is not among `src` stops the
    /// run with its path.
    #[verifier::spinoff_prover]
    #[verifier::rlimit(100)]
    pub fn run(&mut self, src: &Sources, source: &[u8]) -> (r: Result<(), RunError>)
        requires old(self).wf(),
        ensures
            final(self).wf(), final(self).o == old(self).o, final(self).prog@ == old(self).prog@,
            final(self).errors >= old(self).errors,
            r matches Err(RunError::Exit(c)) ==> c == EXIT_FILE || c == EXIT_FATAL,
            r matches Err(RunError::Missing(p)) ==> forall|j: int| 0 <= j < src.files@.len() ==> src.files@[j].0@ != p@,
            (forall|j: int| 0 <= j < src.files@.len() ==> src.files@[j].0@ != source@)
                ==> (r matches Err(RunError::Missing(p)) && p@ == source@),
            r is Ok ==> final(self).pass == 2 && final(self).source_name@ == source@
                && final(self).stdout@.len() >= pass_line(old(self).prog@, 2).len()
                && final(self).stdout@.subrange(final(self).stdout@.len() - pass_line(old(self).prog@, 2).len(),
                    final(self).stdout@.len() as int) == pass_line(old(self).prog@, 2),
            old(self).run_done(*final(self), src_view(src), source@, failure(r)),
    {
        let ghost files = src_view(src);
        self.source_name = slice_vec(source, 0, source.len());
        assert(source@.subrange(0, source@.len() as int) =~= source@);
        let ghost defs = seqs(self.o.defines@);
        let mut i: usize = 0;
        while i < self.o.defines.len()
            invariant i <= self.o.defines.len(), self.wf(), self.o == old(self).o, self.prog@ == old(self).prog@,
                self.errors == old(self).errors, self.source_name@ == source@,
                defs == seqs(self.o.defines@),
                *old(self) == (Asm { source_name: old(self).source_name, macs: old(self).macs, ..*self }),
                old(self).macs.defined_all(self.macs, defs.take(i as int)),
            decreases self.o.defines.len() - i,
        {
            let ghost m = self.macs;
            assert(m.wf());
            let _ = self.macs.define(self.o.defines[i].as_slice());
            proof {
                let t = defs.take(i + 1);
                assert(t.drop_last() =~= defs.take(i as int));
                assert(t.last() == self.o.defines@[i as int]@);
                assert(old(self).macs.defined_all(self.macs, t));
            }
            i += 1;
        }
        assert(defs.take(defs.len() as int) =~= defs);
        let ghost a = *self;
        assert(a.wf());
        let k = match src.find(source) {
            Some(k) => k,
            None => {
                proof { lemma_src_index(files, source@, files.len() as int, 0); }
                let r = Err(RunError::Missing(slice_vec(source, 0, source.len())));
                assert(old(self).run_done(*self, files, source@, failure(r)));
                return r;
            }
        };
        proof { lemma_src_index(files, source@, k as int, 0); }
        let r1 = self.one_pass(src, source, 1);
        match r1 {
            Err(e) => {
                assert(old(self).run_done(*self, files, source@, Some(e)));
                return Err(e);
            }
            Ok(()) => {}
        }
        let ghost m1 = *self;
        assert(m1.wf());
        let r2 = self.one_pass(src, source, 2);
        match r2 {
            Err(e) => {
                assert(old(self).run_done(*self, files, source@, Some(e)));
                return Err(e);
            }
            Ok(()) => {}
        }
        let ghost m2 = *self;
        assert(m2.wf());
        self.img.flush();
        assert(old(self).run_done(*self, files, source@, None));
        Ok(())
    }
}

} // verus!
