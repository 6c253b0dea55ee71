//! Macros: textual substitution applied to a source line before it is
//! matched. Expansion repeats, pass after pass, until a pass substitutes
//! nothing; the number of passes and the length of the result are both
//! capped.

use vstd::prelude::*;
use crate::errlog::Msg;
use crate::limits::{LINE_SIZE, MAX_MACROS, MAX_MACRO_PARAMS, MAX_MACRO_PARAM_LEN};
use crate::text::{bytes_eq, is_alnum, is_alpha, is_digit, push_all, slice_vec, trim,
    trim_bytes, trim_start, trim_start_bytes};

verus! {

pub struct Macro {
    pub name: Vec<u8>,
    pub params: Vec<Vec<u8>>,
    pub body: Vec<u8>,
}

pub struct MacroV {
    pub name: Seq<u8>,
    pub params: Seq<Seq<u8>>,
    pub body: Seq<u8>,
}

impl View for Macro {
    type V = MacroV;
    open spec fn view(&self) -> MacroV {
        MacroV { name: self.name@, params: self.params@.map_values(|p: Vec<u8>| p@), body: self.body@ }
    }
}

pub struct Macros {
    pub list: Vec<Macro>,
    /// Set once a definition was dropped for want of room.
    pub overflowed: bool,
    /// Where the most recently defined macro stands, while it is defined.
    pub last: Option<usize>,
}

impl View for Macros {
    type V = Seq<MacroV>;
    open spec fn view(&self) -> Seq<MacroV> {
        self.list@.map_values(|m: Macro| m@)
    }
}

/// A byte that continues an identifier: a letter, digit, `_` or `.`.
pub open spec fn is_ident_cont(c: u8) -> bool {
    is_alnum(c) || c == 0x5F || c == 0x2E
}

/// A byte that opens an identifier: a letter or `_`.
pub open spec fn is_ident_start(c: u8) -> bool {
    is_alpha(c) || c == 0x5F
}

/// Whether the byte before `i` continues an identifier, so that an
/// identifier cannot start at `i`.
pub open spec fn blocked(b: Seq<u8>, i: int) -> bool {
    0 < i <= b.len() && is_ident_cont(b[i - 1])
}

/// One past the run of bytes from `i` satisfying `is_ident_cont` (or, with
/// `dots` false, letters, digits and `_` only).
pub open spec fn word_end(b: Seq<u8>, i: int, dots: bool) -> int
    decreases b.len() - i,
{
    if i < 0 || i >= b.len() { if i < 0 { 0 } else { b.len() as int } }
    else if is_alnum(b[i]) || b[i] == 0x5F || (dots && b[i] == 0x2E) { word_end(b, i + 1, dots) }
    else { i }
}

pub proof fn lemma_word_end(b: Seq<u8>, i: int, dots: bool)
    requires 0 <= i <= b.len(),
    ensures i <= word_end(b, i, dots) <= b.len(),
    decreases b.len() - i,
{
    if i < b.len() && (is_alnum(b[i]) || b[i] == 0x5F || (dots && b[i] == 0x2E)) { lemma_word_end(b, i + 1, dots); }
}

fn word_end_exec(b: &[u8], i: usize, dots: bool) -> (r: usize)
    requires i <= b.len(),
    ensures r == word_end(b@, i as int, dots), i <= r <= b.len(),
{
    proof { lemma_word_end(b@, i as int, dots); }
    let mut k = i;
    while k < b.len() && ((0x30 <= b[k] && b[k] <= 0x39) || (0x41 <= b[k] && b[k] <= 0x5A)
        || (0x61 <= b[k] && b[k] <= 0x7A) || b[k] == 0x5F || (dots && b[k] == 0x2E))
        invariant i <= k <= b.len(), word_end(b@, k as int, dots) == word_end(b@, i as int, dots),
        decreases b.len() - k,
    {
        k += 1;
    }
    k
}

/// The index of the first parameter named `w`, or the count.
pub open spec fn param_index(ps: Seq<Seq<u8>>, w: Seq<u8>, i: int) -> int
    decreases ps.len() - i,
{
    if i < 0 || i >= ps.len() { ps.len() as int } else if ps[i] == w { i } else { param_index(ps, w, i + 1) }
}

/// A macro body with its parameters substituted, from byte `i`: the text and
/// the diagnostics raised. A parameter is named by itself, as a whole
/// identifier, or by `?n`, counted from zero.
pub open spec fn subst_from(m: MacroV, args: Seq<Seq<u8>>, i: int) -> (Seq<u8>, Seq<Msg>)
    decreases m.body.len() - i,
{
    let b = m.body;
    if i < 0 || i >= b.len() { (Seq::empty(), Seq::empty()) }
    else if b[i] == 0x3F {
        let d: u8 = if i + 1 < b.len() { b[i + 1] } else { 0 };
        if is_digit(d) {
            let n = d - 0x30;
            let rest = subst_from(m, args, i + 2);
            if n < args.len() { (args[n] + rest.0, rest.1) } else { (rest.0, seq![Msg::MacroExpectsArgs] + rest.1) }
        } else {
            let rest = subst_from(m, args, i + 1);
            (rest.0, seq![Msg::MacroExpectsArgs] + rest.1)
        }
    }
    else if is_ident_start(b[i]) && !blocked(b, i) {
        proof { lemma_word_end(b, i, false); }
        let e = word_end(b, i, false);
        if e <= i { (Seq::empty(), Seq::empty()) } else {
            let w = b.subrange(i, e);
            let k = param_index(m.params, w, 0);
            let rest = subst_from(m, args, e);
            if k < m.params.len() {
                if k < args.len() { (args[k] + rest.0, rest.1) } else { (w + rest.0, seq![Msg::MacroExpectsArgs] + rest.1) }
            } else { (w + rest.0, rest.1) }
        }
    }
    else {
        let rest = subst_from(m, args, i + 1);
        (seq![b[i]] + rest.0, rest.1)
    }
}

fn param_index_exec(ps: &Vec<Vec<u8>>, w: &[u8]) -> (r: usize)
    ensures r == param_index(ps@.map_values(|p: Vec<u8>| p@), w@, 0),
{
    let ghost pv = ps@.map_values(|p: Vec<u8>| p@);
    let mut i: usize = 0;
    while i < ps.len()
        invariant i <= ps.len(), pv == ps@.map_values(|p: Vec<u8>| p@),
            param_index(pv, w@, i as int) == param_index(pv, w@, 0),
        decreases ps.len() - i,
    {
        if bytes_eq(ps[i].as_slice(), w) { return i; }
        i += 1;
    }
    i
}

/// A macro's body with `args` substituted for its parameters.
fn substitute(m: &Macro, args: &Vec<Vec<u8>>) -> (r: (Vec<u8>, Vec<Msg>))
    ensures ({
        let s = subst_from(m@, args@.map_values(|a: Vec<u8>| a@), 0);
        r.0@ == s.0 && r.1@ == s.1
    }),
{
    let b = m.body.as_slice();
    let ghost av = args@.map_values(|a: Vec<u8>| a@);
    let ghost total = subst_from(m@, av, 0);
    let mut out: Vec<u8> = Vec::new();
    let mut errs: Vec<Msg> = Vec::new();
    let mut i: usize = 0;
    while i < b.len()
        invariant i <= b.len(), b@ == m@.body, av == args@.map_values(|a: Vec<u8>| a@),
            total == subst_from(m@, av, 0),
            total.0 == out@ + subst_from(m@, av, i as int).0,
            total.1 == errs@ + subst_from(m@, av, i as int).1,
        decreases b.len() - i,
    {
        let ghost o0 = out@;
        let ghost e0 = errs@;
        let c = b[i];
        if c == 0x3F {
            let d: u8 = if i + 1 < b.len() { b[i + 1] } else { 0 };
            if 0x30 <= d && d <= 0x39 {
                let n = (d - 0x30) as usize;
                if n < args.len() {
                    push_all(&mut out, args[n].as_slice());
                } else {
                    errs.push(Msg::MacroExpectsArgs);
                }
                assert(out@ + subst_from(m@, av, i + 2).0 =~= o0 + subst_from(m@, av, i as int).0);
                assert(errs@ + subst_from(m@, av, i + 2).1 =~= e0 + subst_from(m@, av, i as int).1);
                i = if i + 2 <= b.len() { i + 2 } else { b.len() };
                continue;
            }
            errs.push(Msg::MacroExpectsArgs);
            assert(errs@ + subst_from(m@, av, i + 1).1 =~= e0 + subst_from(m@, av, i as int).1);
            i += 1;
            continue;
        }
        let blk = i > 0 && ((0x30 <= b[i - 1] && b[i - 1] <= 0x39) || (0x41 <= b[i - 1] && b[i - 1] <= 0x5A)
            || (0x61 <= b[i - 1] && b[i - 1] <= 0x7A) || b[i - 1] == 0x5F || b[i - 1] == 0x2E);
        assert(blk == blocked(b@, i as int));
        if ((0x41 <= c && c <= 0x5A) || (0x61 <= c && c <= 0x7A) || c == 0x5F) && !blk {
            proof { lemma_word_end(b@, i + 1, false); }
            let e = word_end_exec(b, i, false);
            assert(e > i);
            let w = slice_vec(b, i, e);
            let k = param_index_exec(&m.params, w.as_slice());
            if k < m.params.len() {
                if k < args.len() {
                    push_all(&mut out, args[k].as_slice());
                } else {
                    errs.push(Msg::MacroExpectsArgs);
                    push_all(&mut out, w.as_slice());
                }
            } else {
                push_all(&mut out, w.as_slice());
            }
            assert(out@ + subst_from(m@, av, e as int).0 =~= o0 + subst_from(m@, av, i as int).0);
            assert(errs@ + subst_from(m@, av, e as int).1 =~= e0 + subst_from(m@, av, i as int).1);
            i = e;
            continue;
        }
        out.push(c);
        assert(out@ + subst_from(m@, av, i + 1).0 =~= o0 + subst_from(m@, av, i as int).0);
        i += 1;
    }
    assert(out@ + Seq::<u8>::empty() =~= out@);
    assert(errs@ + Seq::<Msg>::empty() =~= errs@);
    (out, errs)
}

/// The matching `)` for the `(` at `open`: nesting counted from `k` at depth `depth`.
pub open spec fn close_from(b: Seq<u8>, k: int, depth: int) -> Option<int>
    decreases b.len() - k,
{
    if k < 0 || k >= b.len() { None }
    else if b[k] == 0x28 { close_from(b, k + 1, depth + 1) }
    else if b[k] == 0x29 { if depth - 1 == 0 { Some(k) } else { close_from(b, k + 1, depth - 1) } }
    else { close_from(b, k + 1, depth) }
}

pub proof fn lemma_close_from(b: Seq<u8>, k: int, depth: int)
    requires 0 <= k,
    ensures close_from(b, k, depth) matches Some(c) ==> k <= c < b.len() && b[c] == 0x29,
    decreases b.len() - k,
{
    if k < b.len() {
        if b[k] == 0x28 { lemma_close_from(b, k + 1, depth + 1); }
        else if b[k] == 0x29 { if depth - 1 != 0 { lemma_close_from(b, k + 1, depth - 1); } }
        else { lemma_close_from(b, k + 1, depth); }
    }
}

fn find_close(b: &[u8], open: usize) -> (r: Option<usize>)
    requires open <= b.len(),
    ensures match r { Some(c) => close_from(b@, open as int, 0) == Some(c as int), None => close_from(b@, open as int, 0) is None },
{
    proof { lemma_close_from(b@, open as int, 0); }
    let mut depth: i128 = 0;
    let mut k = open;
    while k < b.len()
        invariant open <= k <= b.len(), -(k - open) <= depth <= k - open,
            close_from(b@, k as int, depth as int) == close_from(b@, open as int, 0),
        decreases b.len() - k,
    {
        if b[k] == 0x28 {
            depth += 1;
        } else if b[k] == 0x29 {
            if depth - 1 == 0 { return Some(k); }
            depth -= 1;
        }
        k += 1;
    }
    None
}

/// Arguments split at commas outside parentheses, from `i`, the current one
/// being `cur`.
pub open spec fn split_from(s: Seq<u8>, i: int, depth: int, cur: Seq<u8>) -> Seq<Seq<u8>>
    decreases s.len() - i,
{
    if i < 0 || i >= s.len() { seq![cur] }
    else if s[i] == 0x28 { split_from(s, i + 1, depth + 1, cur.push(s[i])) }
    else if s[i] == 0x29 { split_from(s, i + 1, depth - 1, cur.push(s[i])) }
    else if s[i] == 0x2C && depth == 0 { seq![cur] + split_from(s, i + 1, depth, Seq::empty()) }
    else { split_from(s, i + 1, depth, cur.push(s[i])) }
}

fn split_top(s: &[u8]) -> (r: Vec<Vec<u8>>)
    ensures r@.map_values(|v: Vec<u8>| v@) == split_from(s@, 0, 0, Seq::empty()),
{
    let mut out: Vec<Vec<u8>> = Vec::new();
    let mut cur: Vec<u8> = Vec::new();
    let mut depth: i128 = 0;
    let mut i: usize = 0;
    while i < s.len()
        invariant i <= s.len(), -(i as int) <= depth <= i,
            split_from(s@, 0, 0, Seq::empty()) == out@.map_values(|v: Vec<u8>| v@) + split_from(s@, i as int, depth as int, cur@),
        decreases s.len() - i,
    {
        let c = s[i];
        if c == 0x28 {
            depth += 1;
            cur.push(c);
        } else if c == 0x29 {
            depth -= 1;
            cur.push(c);
        } else if c == 0x2C && depth == 0 {
            let ghost before = out@.map_values(|v: Vec<u8>| v@);
            let done = cur;
            let ghost dv = done@;
            out.push(done);
            cur = Vec::new();
            assert(out@.map_values(|v: Vec<u8>| v@) =~= before.push(dv));
            assert(split_from(s@, i as int, depth as int, dv) =~= seq![dv] + split_from(s@, i + 1, depth as int, Seq::empty()));
            assert(before + (seq![dv] + split_from(s@, i + 1, depth as int, cur@)) =~= before.push(dv) + split_from(s@, i + 1, depth as int, cur@));
        } else {
            cur.push(c);
        }
        i += 1;
    }
    let ghost before = out@.map_values(|v: Vec<u8>| v@);
    let ghost cv = cur@;
    out.push(cur);
    assert(out@.map_values(|v: Vec<u8>| v@) =~= before + seq![cv]);
    out
}

/// The index of the macro named `name`, or the count.
pub open spec fn macro_index(ms: Seq<MacroV>, name: Seq<u8>, i: int) -> int
    decreases ms.len() - i,
{
    if i < 0 || i >= ms.len() { ms.len() as int } else if ms[i].name == name { i } else { macro_index(ms, name, i + 1) }
}

/// No two macros share a name.
pub open spec fn names_unique(ms: Seq<MacroV>) -> bool {
    forall|i: int, j: int| 0 <= i < j < ms.len() ==> ms[i].name != ms[j].name
}

proof fn lemma_macro_index(ms: Seq<MacroV>, name: Seq<u8>, i: int)
    requires 0 <= i <= ms.len(),
    ensures i <= macro_index(ms, name, i) <= ms.len(),
        macro_index(ms, name, i) < ms.len() ==> ms[macro_index(ms, name, i)].name == name,
        macro_index(ms, name, i) == ms.len() ==> forall|j: int| i <= j < ms.len() ==> ms[j].name != name,
    decreases ms.len() - i,
{
    if i < ms.len() && ms[i].name != name { lemma_macro_index(ms, name, i + 1); }
}

/// Defining a macro keeps the names unique: a name already defined is
/// redefined in place, a new one is added at the end.
pub proof fn lemma_define_keeps_names_unique(ms: Macros, after: Macros, operand: Seq<u8>)
    requires names_unique(ms@), ms.define_done(after, operand),
    ensures names_unique(after@),
{
    match definition(operand) {
        None => {}
        Some(m) => {
            lemma_macro_index(ms@, m.name, 0);
        }
    }
}

/// Extending a macro's body keeps the names unique.
pub proof fn lemma_body_change_keeps_names_unique(ms: Seq<MacroV>, j: int, body: Seq<u8>)
    requires names_unique(ms), 0 <= j < ms.len(),
    ensures names_unique(ms.update(j, MacroV { body, ..ms[j] })),
{
}

/// Removing a macro keeps the names unique.
pub proof fn lemma_remove_keeps_names_unique(ms: Seq<MacroV>, k: int)
    requires names_unique(ms), 0 <= k < ms.len(),
    ensures names_unique(ms.remove(k)),
{
    assert forall|i: int, j: int| 0 <= i < j < ms.remove(k).len() implies ms.remove(k)[i].name != ms.remove(k)[j].name by {
        let ii = if i < k { i } else { i + 1 };
        let jj = if j < k { j } else { j + 1 };
        assert(ms.remove(k)[i] == ms[ii]);
        assert(ms.remove(k)[j] == ms[jj]);
    }
}

/// One pass of expansion over `b` from `i` in quote state `q`: the text, whether
/// anything was substituted, and the diagnostics.
pub open spec fn pass_from(ms: Seq<MacroV>, b: Seq<u8>, i: int, q: Option<u8>) -> (Seq<u8>, bool, Seq<Msg>)
    decreases b.len() - i,
{
    if i < 0 || i >= b.len() { (Seq::empty(), false, Seq::empty()) }
    else {
        let c = b[i];
        match q {
            Some(qq) => { let r = pass_from(ms, b, i + 1, if c == qq { None } else { q }); (seq![c] + r.0, r.1, r.2) },
            None => if c == 0x22 || c == 0x27 {
                let r = pass_from(ms, b, i + 1, Some(c)); (seq![c] + r.0, r.1, r.2)
            } else if !is_ident_start(c) || blocked(b, i) {
                let r = pass_from(ms, b, i + 1, None); (seq![c] + r.0, r.1, r.2)
            } else {
                let e = word_end(b, i, true);
                if e <= i || e > b.len() { (Seq::empty(), false, Seq::empty()) } else {
                    let ident = b.subrange(i, e);
                    let k = macro_index(ms, ident, 0);
                    if k >= ms.len() {
                        let r = pass_from(ms, b, e, None); (ident + r.0, r.1, r.2)
                    } else {
                        let has_args = e < b.len() && b[e] == 0x28 && close_from(b, e, 0) is Some;
                        let close = close_from(b, e, 0).unwrap();
                        let args = if has_args { split_from(b.subrange(e + 1, close), 0, 0, Seq::empty()) } else { Seq::empty() };
                        let next = if has_args { close + 1 } else { e };
                        let sub = subst_from(ms[k], args, 0);
                        if next <= i || next > b.len() { (Seq::empty(), false, Seq::empty()) } else {
                            let r = pass_from(ms, b, next, None);
                            (sub.0 + r.0, true, sub.1 + r.2)
                        }
                    }
                }
            },
        }
    }
}

/// No word of `b` names a macro: wherever an identifier can start (a letter
/// or `_` that does not continue a word), the word there is no macro's name.
pub open spec fn no_macro_refs(ms: Seq<MacroV>, b: Seq<u8>) -> bool {
    forall|i: int| 0 <= i < b.len() && is_ident_start(b[i]) && !blocked(b, i)
        ==> #[trigger] macro_index(ms, b.subrange(i, word_end(b, i, true)), 0) >= ms.len()
}

proof fn lemma_pass_unchanged(ms: Seq<MacroV>, b: Seq<u8>, i: int, q: Option<u8>)
    requires no_macro_refs(ms, b), 0 <= i <= b.len(),
    ensures pass_from(ms, b, i, q) == (b.subrange(i, b.len() as int), false, Seq::<Msg>::empty()),
    decreases b.len() - i,
{
    if i < b.len() {
        let c = b[i];
        match q {
            Some(qq) => {
                lemma_pass_unchanged(ms, b, i + 1, if c == qq { None } else { q });
                assert(seq![c] + b.subrange(i + 1, b.len() as int) =~= b.subrange(i, b.len() as int));
            }
            None => {
                if c == 0x22 || c == 0x27 {
                    lemma_pass_unchanged(ms, b, i + 1, Some(c));
                    assert(seq![c] + b.subrange(i + 1, b.len() as int) =~= b.subrange(i, b.len() as int));
                } else if !is_ident_start(c) || blocked(b, i) {
                    lemma_pass_unchanged(ms, b, i + 1, None);
                    assert(seq![c] + b.subrange(i + 1, b.len() as int) =~= b.subrange(i, b.len() as int));
                } else {
                    lemma_word_end(b, i + 1, true);
                    let e = word_end(b, i, true);
                    assert(e == word_end(b, i + 1, true));
                    assert(macro_index(ms, b.subrange(i, e), 0) >= ms.len());
                    lemma_pass_unchanged(ms, b, e, None);
                    assert(b.subrange(i, e) + b.subrange(e, b.len() as int) =~= b.subrange(i, b.len() as int));
                }
            }
        }
    } else {
        assert(b.subrange(i, b.len() as int) =~= Seq::<u8>::empty());
    }
}

/// A line in which no word names a macro, shorter than a source line may
/// be, comes back byte for byte as it was, with no diagnostics.
pub proof fn lemma_expand_without_refs(ms: Seq<MacroV>, line: Seq<u8>, comment_char: u8)
    requires no_macro_refs(ms, line), line.len() < LINE_SIZE,
    ensures expand_spec(ms, line, comment_char) == (line, Seq::<Msg>::empty()),
{
    lemma_pass_unchanged(ms, line, 0, None);
    assert(line.subrange(0, line.len() as int) =~= line);
}

fn macro_index_exec(list: &Vec<Macro>, name: &[u8]) -> (r: usize)
    ensures r == macro_index(list@.map_values(|m: Macro| m@), name@, 0), r <= list.len(),
{
    let ghost mv = list@.map_values(|m: Macro| m@);
    let mut i: usize = 0;
    while i < list.len()
        invariant i <= list.len(), mv == list@.map_values(|m: Macro| m@),
            macro_index(mv, name@, i as int) == macro_index(mv, name@, 0),
        decreases list.len() - i,
    {
        if bytes_eq(list[i].name.as_slice(), name) { return i; }
        i += 1;
    }
    i
}

impl Macros {
    fn one_pass(&self, b: &[u8]) -> (r: (Vec<u8>, bool, Vec<Msg>))
        ensures ({
            let p = pass_from(self@, b@, 0, None);
            r.0@ == p.0 && r.1 == p.1 && r.2@ == p.2
        }),
    {
        let ghost total = pass_from(self@, b@, 0, None);
        let mut out: Vec<u8> = Vec::new();
        let mut errs: Vec<Msg> = Vec::new();
        let mut changed = false;
        let mut q: Option<u8> = None;
        let mut i: usize = 0;
        while i < b.len()
            invariant i <= b.len(), total == pass_from(self@, b@, 0, None),
                total.0 == out@ + pass_from(self@, b@, i as int, q).0,
                total.1 == (changed || pass_from(self@, b@, i as int, q).1),
                total.2 == errs@ + pass_from(self@, b@, i as int, q).2,
            decreases b.len() - i,
        {
            let ghost o0 = out@;
            let ghost e0 = errs@;
            let ghost q0 = q;
            let c = b[i];
            match q {
                Some(qq) => {
                    out.push(c);
                    if c == qq { q = None; }
                    assert(out@ + pass_from(self@, b@, i + 1, q).0 =~= o0 + pass_from(self@, b@, i as int, q0).0);
                    i += 1;
                    continue;
                }
                None => {}
            }
            if c == 0x22 || c == 0x27 {
                q = Some(c);
                out.push(c);
                assert(out@ + pass_from(self@, b@, i + 1, q).0 =~= o0 + pass_from(self@, b@, i as int, q0).0);
                i += 1;
                continue;
            }
            let start_ok = (0x41 <= c && c <= 0x5A) || (0x61 <= c && c <= 0x7A) || c == 0x5F;
            let blk = i > 0 && ((0x30 <= b[i - 1] && b[i - 1] <= 0x39) || (0x41 <= b[i - 1] && b[i - 1] <= 0x5A)
                || (0x61 <= b[i - 1] && b[i - 1] <= 0x7A) || b[i - 1] == 0x5F || b[i - 1] == 0x2E);
            assert(blk == blocked(b@, i as int));
            if !start_ok || blk {
                out.push(c);
                assert(out@ + pass_from(self@, b@, i + 1, None).0 =~= o0 + pass_from(self@, b@, i as int, q0).0);
                i += 1;
                continue;
            }
            proof { lemma_word_end(b@, i + 1, true); }
            let e = word_end_exec(b, i, true);
            let ident = slice_vec(b, i, e);
            let k = macro_index_exec(&self.list, ident.as_slice());
            if k >= self.list.len() {
                push_all(&mut out, ident.as_slice());
                assert(out@ + pass_from(self@, b@, e as int, None).0 =~= o0 + pass_from(self@, b@, i as int, q0).0);
                i = e;
                continue;
            }
            let mut args: Vec<Vec<u8>> = Vec::new();
            let mut next = e;
            if e < b.len() && b[e] == 0x28 {
                match find_close(b, e) {
                    Some(close) => {
                        proof { lemma_close_from(b@, e as int, 0); }
                        let inner = slice_vec(b, e + 1, close);
                        args = split_top(inner.as_slice());
                        next = close + 1;
                    }
                    None => {}
                }
            }
            assert(args@.map_values(|v: Vec<u8>| v@) =~= (if e < b.len() && b@[e as int] == 0x28 && close_from(b@, e as int, 0) is Some {
                split_from(b@.subrange(e + 1, close_from(b@, e as int, 0).unwrap()), 0, 0, Seq::empty()) } else { Seq::empty() }));
            let (text, mut es) = substitute(&self.list[k], &args);
            push_all(&mut out, text.as_slice());
            errs.append(&mut es);
            changed = true;
            assert(out@ + pass_from(self@, b@, next as int, None).0 =~= o0 + pass_from(self@, b@, i as int, q0).0);
            assert(errs@ + pass_from(self@, b@, next as int, None).2 =~= e0 + pass_from(self@, b@, i as int, q0).2);
            q = None;
            i = next;
        }
        assert(out@ + Seq::<u8>::empty() =~= out@);
        assert(errs@ + Seq::<Msg>::empty() =~= errs@);
        (out, changed, errs)
    }
}

// --- expansion ----------------------------------------------------------------

pub open spec fn is_cont_byte(c: u8) -> bool { 0x80 <= c < 0xC0 }

/// Where the first `n` characters of `s` from `i` end (a character being a
/// byte that does not continue an encoded one, with its continuations).
pub open spec fn chars_end(s: Seq<u8>, i: int, n: int) -> int
    decreases s.len() - i,
{
    if i < 0 || i >= s.len() { s.len() as int }
    else if is_cont_byte(s[i]) { chars_end(s, i + 1, n) }
    else if n <= 0 { i }
    else { chars_end(s, i + 1, n - 1) }
}

pub proof fn lemma_chars_end(s: Seq<u8>, i: int, n: int)
    requires 0 <= i <= s.len(),
    ensures i <= chars_end(s, i, n) <= s.len(),
    decreases s.len() - i,
{
    if i < s.len() {
        if is_cont_byte(s[i]) { lemma_chars_end(s, i + 1, n); }
        else if n > 0 { lemma_chars_end(s, i + 1, n - 1); }
    }
}

/// The first `n` characters of `s`.
pub open spec fn take_chars(s: Seq<u8>, n: int) -> Seq<u8> {
    s.subrange(0, chars_end(s, 0, n))
}

/// The first `n` characters of `s`.
pub fn take_chars_pub(s: &[u8], n: usize) -> (r: Vec<u8>)
    ensures r@ == take_chars(s@, n as int),
{
    take_chars_exec(s, n)
}

fn take_chars_exec(s: &[u8], n: usize) -> (r: Vec<u8>)
    ensures r@ == take_chars(s@, n as int),
{
    proof { lemma_chars_end(s@, 0, n as int); }
    let mut i: usize = 0;
    let mut left = n;
    while i < s.len() && !(left == 0 && !(0x80 <= s[i] && s[i] < 0xC0))
        invariant i <= s.len(), left <= n, chars_end(s@, i as int, left as int) == chars_end(s@, 0, n as int),
        decreases s.len() - i,
    {
        if 0x80 <= s[i] && s[i] < 0xC0 {
            i += 1;
        } else {
            left -= 1;
            i += 1;
        }
    }
    slice_vec(s, 0, i)
}

/// Expansion from pass `pass` of `cap`, the line being `cur`.
pub open spec fn expand_from(ms: Seq<MacroV>, cur: Seq<u8>, pass: int, cap: int) -> (Seq<u8>, Seq<Msg>)
    decreases cap - pass,
{
    if pass >= cap { (cur, seq![Msg::MacroTooDeep]) }
    else {
        let p = pass_from(ms, cur, 0, None);
        if p.0.len() >= LINE_SIZE { (take_chars(p.0, LINE_SIZE - 1), p.2.push(Msg::MacroTooLong)) }
        else if !p.1 { (p.0, p.2) }
        else { let r = expand_from(ms, p.0, pass + 1, cap); (r.0, p.2 + r.1) }
    }
}

/// A line left as it is: its first non-blank byte is `#` or the comment
/// character.
pub open spec fn protected(line: Seq<u8>, comment_char: u8) -> bool {
    let t = trim_start(line);
    t.len() > 0 && (t[0] == 0x23 || t[0] == comment_char)
}

pub open spec fn expand_spec(ms: Seq<MacroV>, line: Seq<u8>, comment_char: u8) -> (Seq<u8>, Seq<Msg>) {
    if protected(line, comment_char) || ms.len() == 0 { (line, Seq::empty()) }
    else { expand_from(ms, line, 0, ms.len() + LINE_SIZE) }
}

// --- definitions ----------------------------------------------------------------

/// `s` split at every comma, from `i`, the current piece being `cur`.
pub open spec fn commas_from(s: Seq<u8>, i: int, cur: Seq<u8>) -> Seq<Seq<u8>>
    decreases s.len() - i,
{
    if i < 0 || i >= s.len() { seq![cur] }
    else if s[i] == 0x2C { seq![cur] + commas_from(s, i + 1, Seq::empty()) }
    else { commas_from(s, i + 1, cur.push(s[i])) }
}

/// The parameter names: each piece trimmed and cut to its first sixteen
/// characters; empty ones dropped; at most ten kept.
pub open spec fn param_names(parts: Seq<Seq<u8>>, i: int, acc: Seq<Seq<u8>>) -> Seq<Seq<u8>>
    decreases parts.len() - i,
{
    if i < 0 || i >= parts.len() { acc }
    else {
        let p = take_chars(trim(parts[i]), MAX_MACRO_PARAM_LEN as int);
        if p.len() > 0 && acc.len() < MAX_MACRO_PARAMS { param_names(parts, i + 1, acc.push(p)) }
        else { param_names(parts, i + 1, acc) }
    }
}

/// The first `)` in `s` from `i`.
pub open spec fn paren_at(s: Seq<u8>, i: int) -> Option<int>
    decreases s.len() - i,
{
    if i < 0 || i >= s.len() { None } else if s[i] == 0x29 { Some(i) } else { paren_at(s, i + 1) }
}

/// The macro a `.DEFINE` operand describes, if it names one.
pub open spec fn definition(operand: Seq<u8>) -> Option<MacroV> {
    let s = trim_start(operand);
    let end = word_end(s, 0, true);
    if s.len() == 0 || end <= 0 || end > s.len() { None } else {
        let name = s.subrange(0, end);
        let rest = s.subrange(end, s.len() as int);
        if rest.len() > 0 && rest[0] == 0x28 && paren_at(rest, 0) is Some {
            let close = paren_at(rest, 0).unwrap();
            Some(MacroV {
                name,
                params: param_names(commas_from(rest.subrange(1, close), 0, Seq::empty()), 0, Seq::empty()),
                body: trim_start(rest.subrange(close + 1, rest.len() as int)),
            })
        } else {
            Some(MacroV { name, params: Seq::empty(), body: trim_start(rest) })
        }
    }
}

fn commas(s: &[u8]) -> (r: Vec<Vec<u8>>)
    ensures r@.map_values(|v: Vec<u8>| v@) == commas_from(s@, 0, Seq::empty()),
{
    let mut out: Vec<Vec<u8>> = Vec::new();
    let mut cur: Vec<u8> = Vec::new();
    let mut i: usize = 0;
    while i < s.len()
        invariant i <= s.len(),
            commas_from(s@, 0, Seq::empty()) == out@.map_values(|v: Vec<u8>| v@) + commas_from(s@, i as int, cur@),
        decreases s.len() - i,
    {
        if s[i] == 0x2C {
            let ghost before = out@.map_values(|v: Vec<u8>| v@);
            let done = cur;
            let ghost dv = done@;
            out.push(done);
            cur = Vec::new();
            assert(out@.map_values(|v: Vec<u8>| v@) =~= before.push(dv));
            assert(before + (seq![dv] + commas_from(s@, i + 1, cur@)) =~= before.push(dv) + commas_from(s@, i + 1, cur@));
        } else {
            cur.push(s[i]);
        }
        i += 1;
    }
    let ghost before = out@.map_values(|v: Vec<u8>| v@);
    let ghost cv = cur@;
    out.push(cur);
    assert(out@.map_values(|v: Vec<u8>| v@) =~= before + seq![cv]);
    out
}

fn parse_definition(operand: &[u8]) -> (r: Option<Macro>)
    ensures match definition(operand@) { Some(mv) => r matches Some(m) && m@ == mv, None => r is None },
{
    let s = trim_start_bytes(operand);
    if s.len() == 0 {
        return None;
    }
    let end = word_end_exec(s.as_slice(), 0, true);
    if end == 0 {
        return None;
    }
    let name = slice_vec(s.as_slice(), 0, end);
    let rest = slice_vec(s.as_slice(), end, s.len());
    if rest.len() > 0 && rest[0] == 0x28 {
        let mut close: usize = 0;
        while close < rest.len() && rest[close] != 0x29
            invariant close <= rest.len(), paren_at(rest@, close as int) == paren_at(rest@, 0),
            decreases rest.len() - close,
        {
            close += 1;
        }
        let found = close < rest.len();
        if found {
            let inner = slice_vec(rest.as_slice(), 1, close);
            let parts = commas(inner.as_slice());
            let ghost pv = parts@.map_values(|v: Vec<u8>| v@);
            let mut params: Vec<Vec<u8>> = Vec::new();
            assert(params@.map_values(|v: Vec<u8>| v@) =~= Seq::<Seq<u8>>::empty());
            let mut k: usize = 0;
            while k < parts.len()
                invariant k <= parts.len(), pv == parts@.map_values(|v: Vec<u8>| v@),
                    param_names(pv, 0, Seq::empty()) == param_names(pv, k as int, params@.map_values(|v: Vec<u8>| v@)),
                decreases parts.len() - k,
            {
                let t = trim_bytes(parts[k].as_slice());
                assert(parts@[k as int]@ == pv[k as int]);
                let p = take_chars_exec(t.as_slice(), MAX_MACRO_PARAM_LEN);
                if p.len() > 0 && params.len() < MAX_MACRO_PARAMS {
                    let ghost before = params@.map_values(|v: Vec<u8>| v@);
                    let ghost pp = p@;
                    params.push(p);
                    assert(params@.map_values(|v: Vec<u8>| v@) =~= before.push(pp));
                }
                k += 1;
            }
            let tail = slice_vec(rest.as_slice(), close + 1, rest.len());
            let body = trim_start_bytes(tail.as_slice());
            return Some(Macro { name, params, body });
        }
    }
    let body = trim_start_bytes(rest.as_slice());
    let m = Macro { name, params: Vec::new(), body };
    assert(m@.params =~= Seq::<Seq<u8>>::empty());
    Some(m)
}

fn vec_of(s: &[u8]) -> (r: Vec<u8>)
    ensures r@ == s@,
{
    let r = slice_vec(s, 0, s.len());
    assert(s@.subrange(0, s@.len() as int) =~= s@);
    r
}

impl Macros {
    /// The macro `.DEFCONT` extends: the most recently defined one, while it
    /// is still defined.
    pub open spec fn target(&self) -> Option<int> {
        match self.last { Some(j) => if j < self@.len() { Some(j as int) } else { None }, None => None }
    }

    /// No more macros than the table holds.
    pub open spec fn wf(&self) -> bool {
        self.list.len() <= MAX_MACROS
    }

    pub fn new() -> (r: Macros)
        ensures r@ == Seq::<MacroV>::empty(), !r.overflowed, r.wf(), r.last is None,
    {
        let r = Macros { list: Vec::new(), overflowed: false, last: None };
        assert(r@ =~= Seq::<MacroV>::empty());
        r
    }

    /// Whether a macro named `name` is defined.
    pub fn defined(&self, name: &[u8]) -> (r: bool)
        ensures r == (macro_index(self@, name@, 0) < self@.len()),
    {
        macro_index_exec(&self.list, name) < self.list.len()
    }

    /// `.DEFINE <name>[(<params>)] <body>`: a new name is appended, a known
    /// one redefined in place. With the table full the definition is dropped,
    /// `overflowed` set, and `Maximum number of macros exceeded` returned.
    /// What defining `operand` does to the list (see `define`).
    pub open spec fn define_done(&self, after: Macros, operand: Seq<u8>) -> bool {
        match definition(operand) {
            None => after@ == self@ && after.overflowed == self.overflowed && after.last == self.last,
            Some(m) => {
                let k = macro_index(self@, m.name, 0);
                if k < self@.len() {
                    after@ == self@.update(k, m) && after.overflowed == self.overflowed && after.last == Some(k as usize)
                } else if self@.len() >= MAX_MACROS {
                    after@ == self@ && after.overflowed && after.last == self.last
                } else {
                    after@ == self@.push(m) && after.overflowed == self.overflowed
                        && after.last == Some(self@.len() as usize)
                }
            },
        }
    }

    /// What defining each of `defs` in turn does.
    pub open spec fn defined_all(&self, after: Macros, defs: Seq<Seq<u8>>) -> bool
        decreases defs.len(),
    {
        if defs.len() == 0 { after == *self } else {
            exists|m: Macros| #[trigger] m.wf() && self.defined_all(m, defs.drop_last()) && m.define_done(after, defs.last())
        }
    }

    pub fn define(&mut self, operand: &[u8]) -> (r: Option<Msg>)
        ensures
            old(self).define_done(*final(self), operand@),
            old(self).wf() ==> final(self).wf(),
            match definition(operand@) {
                None => final(self)@ == old(self)@ && r is None && final(self).overflowed == old(self).overflowed
                    && final(self).last == old(self).last,
                Some(m) => {
                    let k = macro_index(old(self)@, m.name, 0);
                    if k < old(self)@.len() {
                        final(self)@ == old(self)@.update(k, m) && r is None && final(self).overflowed == old(self).overflowed
                            && final(self).last == Some(k as usize)
                    } else if old(self)@.len() >= MAX_MACROS {
                        final(self)@ == old(self)@ && r == Some(Msg::TooManyMacros) && final(self).overflowed
                            && final(self).last == old(self).last
                    } else {
                        final(self)@ == old(self)@.push(m) && r is None && final(self).overflowed == old(self).overflowed
                            && final(self).last == Some(old(self)@.len() as usize)
                    }
                },
            },
    {
        let m = match parse_definition(operand) {
            Some(m) => m,
            None => { return None; }
        };
        let k = macro_index_exec(&self.list, m.name.as_slice());
        if k < self.list.len() {
            let ghost mv = m@;
            self.list.set(k, m);
            self.last = Some(k);
            assert(self@ =~= old(self)@.update(k as int, mv));
            return None;
        }
        if self.list.len() >= MAX_MACROS {
            self.overflowed = true;
            return Some(Msg::TooManyMacros);
        }
        let ghost mv = m@;
        self.last = Some(self.list.len());
        self.list.push(m);
        assert(self@ =~= old(self)@.push(mv));
        None
    }

    /// `.DEFCONT <text>`: append to the most recently defined macro's body.
    pub fn defcont(&mut self, text: &[u8]) -> (r: Option<Msg>)
        ensures
            final(self).list.len() == old(self).list.len(),
            final(self).last == old(self).last,
            old(self).target() is None ==> final(self)@ == old(self)@ && r == Some(Msg::DefcontNoDefine),
            old(self).target() matches Some(j) ==> r is None && final(self)@ == old(self)@.update(j,
                MacroV { body: old(self)@[j].body + trim_start(text@), ..old(self)@[j] }),
            final(self).overflowed == old(self).overflowed,
    {
        let j = match self.last {
            Some(j) => if j < self.list.len() { j } else { return Some(Msg::DefcontNoDefine); },
            None => { return Some(Msg::DefcontNoDefine); }
        };
        let t = trim_start_bytes(text);
        let mut body = vec_of(self.list[j].body.as_slice());
        push_all(&mut body, t.as_slice());
        let name = vec_of(self.list[j].name.as_slice());
        let mut params: Vec<Vec<u8>> = Vec::new();
        let mut q: usize = 0;
        while q < self.list[j].params.len()
            invariant q <= self.list@[j as int].params.len(), j < self.list.len(),
                params@.map_values(|p: Vec<u8>| p@) == self.list@[j as int]@.params.subrange(0, q as int),
            decreases self.list@[j as int].params.len() - q,
        {
            let ghost before = params@.map_values(|p: Vec<u8>| p@);
            let p = vec_of(self.list[j].params[q].as_slice());
            let ghost pv = p@;
            params.push(p);
            assert(params@.map_values(|p: Vec<u8>| p@) =~= before.push(pv));
            assert(params@.map_values(|p: Vec<u8>| p@) =~= self.list@[j as int]@.params.subrange(0, q + 1));
            q += 1;
        }
        assert(self.list@[j as int]@.params.subrange(0, q as int) =~= self.list@[j as int]@.params);
        let m = Macro { name, params, body };
        let ghost mv = m@;
        self.list.set(j, m);
        assert(self@ =~= old(self)@.update(j as int, mv));
        None
    }

    /// Remove the macro named `name`; an unknown name is no error.
    pub fn undef(&mut self, name: &[u8])
        ensures
            final(self).list.len() <= old(self).list.len(),
            ({
                let k = macro_index(old(self)@, name@, 0);
                if k < old(self)@.len() { final(self)@ == old(self)@.remove(k) } else { final(self)@ == old(self)@ }
            }),
            final(self).overflowed == old(self).overflowed,
            ({
                let k = macro_index(old(self)@, name@, 0);
                final(self).target() == if k < old(self)@.len() {
                    match old(self).target() { Some(j) => if j == k { None } else if j > k { Some(j - 1) } else { Some(j) },
                        None => None }
                } else { old(self).target() }
            }),
    {
        let k = macro_index_exec(&self.list, name);
        if k < self.list.len() {
            self.list.remove(k);
            assert(self@ =~= old(self)@.remove(k as int));
            self.last = match self.last {
                Some(j) => if j == k || j > self.list.len() { None } else if j > k { Some(j - 1) } else { Some(j) },
                None => None,
            };
        }
    }

    /// Expand every macro reference in `line`, pass after pass, until a pass
    /// substitutes nothing. A line whose first non-blank byte is `#` or the
    /// comment character is left alone.
    pub fn expand(&self, line: &[u8], comment_char: u8) -> (r: (Vec<u8>, Vec<Msg>))
        requires self.wf(),
        ensures
            r.0@ == expand_spec(self@, line@, comment_char).0,
            r.1@ == expand_spec(self@, line@, comment_char).1,
            protected(line@, comment_char) ==> r.0@ == line@ && r.1@.len() == 0,
            no_macro_refs(self@, line@) && line@.len() < LINE_SIZE ==> r.0@ == line@ && r.1@.len() == 0,
            !protected(line@, comment_char) && self@.len() > 0 && !r.1@.contains(Msg::MacroTooLong)
                ==> r.0@.len() < LINE_SIZE,
    {
        proof {
            if no_macro_refs(self@, line@) && line@.len() < LINE_SIZE {
                lemma_expand_without_refs(self@, line@, comment_char);
            }
        }
        let t = trim_start_bytes(line);
        if (t.len() > 0 && (t[0] == 0x23 || t[0] == comment_char)) || self.list.len() == 0 {
            return (slice_vec(line, 0, line.len()), Vec::new());
        }
        assert(!protected(line@, comment_char) && self@.len() > 0);
        let cap = self.list.len() + LINE_SIZE;
        let ghost total = expand_from(self@, line@, 0, cap as int);
        let mut cur = slice_vec(line, 0, line.len());
        let mut errs: Vec<Msg> = Vec::new();
        let mut pass: usize = 0;
        assert(line@.subrange(0, line@.len() as int) =~= line@);
        while pass < cap
            invariant pass <= cap, cap == self@.len() + LINE_SIZE,
                !protected(line@, comment_char), self@.len() > 0,
                total == expand_from(self@, line@, 0, cap as int),
                total.0 == expand_from(self@, cur@, pass as int, cap as int).0,
                total.1 == errs@ + expand_from(self@, cur@, pass as int, cap as int).1,
                pass > 0 ==> cur@.len() < LINE_SIZE,
                no_macro_refs(self@, line@) && line@.len() < LINE_SIZE
                    ==> expand_spec(self@, line@, comment_char) == (line@, Seq::<Msg>::empty()),
            decreases cap - pass,
        {
            let (next, changed, mut e) = self.one_pass(cur.as_slice());
            let ghost e0 = errs@;
            errs.append(&mut e);
            if next.len() >= LINE_SIZE {
                errs.push(Msg::MacroTooLong);
                let cut = take_chars_exec(next.as_slice(), LINE_SIZE - 1);
                assert(errs@ =~= e0 + pass_from(self@, cur@, 0, None).2.push(Msg::MacroTooLong));
                assert(errs@[errs@.len() - 1] == Msg::MacroTooLong);
                return (cut, errs);
            }
            if !changed {
                assert(errs@ =~= e0 + pass_from(self@, cur@, 0, None).2);
                return (next, errs);
            }
            assert(errs@ + expand_from(self@, next@, pass + 1, cap as int).1
                =~= e0 + (pass_from(self@, cur@, 0, None).2 + expand_from(self@, next@, pass + 1, cap as int).1));
            cur = next;
            pass += 1;
        }
        errs.push(Msg::MacroTooDeep);
        assert(errs@ =~= total.1);
        (cur, errs)
    }
}

} // verus!
