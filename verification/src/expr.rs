//! Expression evaluation, in the default (precedence) mode and in the
//! compatibility (left-to-right accumulator) mode.
//!
//! Values are 32 bits wide and arithmetic wraps. Each evaluation step is
//! stated as a function from an evaluation state (position, diagnostics,
//! unresolved names) to a value and a new state, and each executable step is
//! proved to compute exactly that.

use vstd::prelude::*;
use crate::errlog::Msg;
use crate::limits::UNDEFINED;
use crate::symbols::{Symbols, qualified};
use crate::text::{is_digit, is_alpha, is_alnum, is_hex_digit, is_blank, digit_value, is_digit_in,
    is_digit_byte, is_alpha_byte, is_alnum_byte, is_hex_byte, is_blank_byte, digit_in, slice_vec};

verus! {

#[derive(Clone, Debug)]
pub struct Diag {
    pub msg: Msg,
    pub detail: Option<Vec<u8>>,
}

pub open spec fn opt_view(o: Option<Vec<u8>>) -> Option<Seq<u8>> {
    match o { Some(v) => Some(v@), None => None }
}

pub open spec fn diag_view(d: Diag) -> (Msg, Option<Seq<u8>>) {
    (d.msg, opt_view(d.detail))
}

pub open spec fn diags_view(v: Seq<Diag>) -> Seq<(Msg, Option<Seq<u8>>)> {
    v.map_values(|d: Diag| diag_view(d))
}

pub open spec fn names_view(v: Seq<Vec<u8>>) -> Seq<Seq<u8>> {
    v.map_values(|n: Vec<u8>| n@)
}

pub struct Outcome {
    pub value: i32,
    pub diags: Vec<Diag>,
    /// Names that did not resolve; the caller decides whether to report them.
    pub undefined: Vec<Vec<u8>>,
}

#[derive(Clone, Copy, PartialEq, Eq, Debug, Structural)]
pub enum Op {
    Add, Sub, Mul, Div, Mod, Shl, Shr, Lt, Gt, Le, Ge, Eq, Ne, And, Or, Xor,
}

/// Binding strength: shifts bind looser than `+` and `-`.
pub open spec fn prec(op: Op) -> u8 {
    match op {
        Op::Mul | Op::Div | Op::Mod => 8,
        Op::Add | Op::Sub => 7,
        Op::Shl | Op::Shr => 6,
        Op::Lt | Op::Gt | Op::Le | Op::Ge => 5,
        Op::Eq | Op::Ne => 4,
        Op::And => 3,
        Op::Xor => 2,
        Op::Or => 1,
    }
}

impl Op {
    pub fn prec(self) -> (r: u8)
        returns prec(self),
    {
        match self {
            Op::Mul | Op::Div | Op::Mod => 8,
            Op::Add | Op::Sub => 7,
            Op::Shl | Op::Shr => 6,
            Op::Lt | Op::Gt | Op::Le | Op::Ge => 5,
            Op::Eq | Op::Ne => 4,
            Op::And => 3,
            Op::Xor => 2,
            Op::Or => 1,
        }
    }
}

// --- 32-bit value arithmetic ----------------------------------------------------

pub open spec fn to_u32(v: i32) -> u32 {
    if v < 0 { (v + 0x1_0000_0000) as u32 } else { v as u32 }
}

pub open spec fn to_i32(u: u32) -> i32 {
    if u >= 0x8000_0000 { (u - 0x1_0000_0000) as i32 } else { u as i32 }
}

/// The 32-bit value congruent to `x`.
pub open spec fn wrap(x: int) -> i32 {
    to_i32((x % 0x1_0000_0000) as u32)
}

pub fn u32_of(v: i32) -> (r: u32)
    returns to_u32(v),
{
    if v < 0 { (v as i64 + 0x1_0000_0000i64) as u32 } else { v as u32 }
}

pub fn i32_of(u: u32) -> (r: i32)
    returns to_i32(u),
{
    if u >= 0x8000_0000 { (u as i64 - 0x1_0000_0000i64) as i32 } else { u as i32 }
}

/// Truncating division on magnitudes, the sign restored afterwards.
pub open spec fn trunc_div(a: int, b: int) -> int {
    let q = (if a < 0 { -a } else { a }) / (if b < 0 { -b } else { b });
    if (a < 0) != (b < 0) { -q } else { q }
}

/// The remainder of truncating division: it takes the sign of `a`.
pub open spec fn trunc_rem(a: int, b: int) -> int {
    let r = (if a < 0 { -a } else { a }) % (if b < 0 { -b } else { b });
    if a < 0 { -r } else { r }
}

/// What a binary operator yields, and the diagnostic it raises, if any.
pub open spec fn op_result(op: Op, a: i32, b: i32) -> (i32, Option<Msg>) {
    let ua = to_u32(a);
    let ub = to_u32(b);
    match op {
        Op::Add => (wrap(ua + ub), None),
        Op::Sub => (wrap(ua - ub), None),
        Op::Mul => (wrap(ua * ub), None),
        Op::Div => if b == 0 { (0, Some(Msg::DivideByZero)) } else { (wrap(trunc_div(a as int, b as int)), None) },
        Op::Mod => if b == 0 { (0, Some(Msg::ModuloByZero)) } else { (wrap(trunc_rem(a as int, b as int)), None) },
        Op::Shl => if b < 0 { (0, Some(Msg::NegativeShift)) } else if b >= 32 { (0, None) }
            else { (to_i32(ua << (b as u32)), None) },
        Op::Shr => if b < 0 { (0, Some(Msg::NegativeShift)) } else if b >= 32 { (if a < 0 { -1i32 } else { 0i32 }, None) }
            else { (a >> (b as u32), None) },
        Op::Lt => (if a < b { 1 } else { 0 }, None),
        Op::Gt => (if a > b { 1 } else { 0 }, None),
        Op::Le => (if a <= b { 1 } else { 0 }, None),
        Op::Ge => (if a >= b { 1 } else { 0 }, None),
        Op::Eq => (if a == b { 1 } else { 0 }, None),
        Op::Ne => (if a != b { 1 } else { 0 }, None),
        Op::And => (to_i32(ua & ub), None),
        Op::Or => (to_i32(ua | ub), None),
        Op::Xor => (to_i32(ua ^ ub), None),
    }
}

pub fn wrap_u64(x: u64) -> (r: i32)
    ensures r == wrap(x as int),
{
    i32_of((x % 0x1_0000_0000u64) as u32)
}

pub fn wrap_i64(x: i64) -> (r: i32)
    requires -0x100_0000_0000 < x < 0x100_0000_0000,
    ensures r == wrap(x as int),
{
    let u = (x + 0x100_0000_0000i64) as u64;
    assert((u as int) % 0x1_0000_0000 == (x as int) % 0x1_0000_0000);
    wrap_u64(u)
}

/// Apply a binary operator: wrapping, with division, modulo and shifts guarded.
pub fn apply_op(op: Op, a: i32, b: i32) -> (r: (i32, Option<Msg>))
    returns op_result(op, a, b),
{
    let ua = u32_of(a);
    let ub = u32_of(b);
    match op {
        Op::Add => (wrap_u64(ua as u64 + ub as u64), None),
        Op::Sub => (wrap_i64(ua as i64 - ub as i64), None),
        Op::Mul => {
            assert(ua as u64 * ub as u64 <= 0xFFFF_FFFF * 0xFFFF_FFFF) by (nonlinear_arith)
                requires ua <= 0xFFFF_FFFF, ub <= 0xFFFF_FFFF;
            (wrap_u64(ua as u64 * ub as u64), None)
        }
        Op::Div => {
            if b == 0 {
                (0, Some(Msg::DivideByZero))
            } else {
                let ma: u64 = if a < 0 { (0 - a as i64) as u64 } else { a as u64 };
                let mb: u64 = if b < 0 { (0 - b as i64) as u64 } else { b as u64 };
                let q = ma / mb;
                assert(q <= ma) by (nonlinear_arith) requires mb >= 1, q == ma / mb;
                let v: i64 = if (a < 0) != (b < 0) { 0 - q as i64 } else { q as i64 };
                (wrap_i64(v), None)
            }
        }
        Op::Mod => {
            if b == 0 {
                (0, Some(Msg::ModuloByZero))
            } else {
                let ma: u64 = if a < 0 { (0 - a as i64) as u64 } else { a as u64 };
                let mb: u64 = if b < 0 { (0 - b as i64) as u64 } else { b as u64 };
                let m = ma % mb;
                let v: i64 = if a < 0 { 0 - m as i64 } else { m as i64 };
                (wrap_i64(v), None)
            }
        }
        Op::Shl => {
            if b < 0 {
                (0, Some(Msg::NegativeShift))
            } else if b >= 32 {
                (0, None)
            } else {
                (i32_of(ua << (b as u32)), None)
            }
        }
        Op::Shr => {
            if b < 0 {
                (0, Some(Msg::NegativeShift))
            } else if b >= 32 {
                (if a < 0 { -1i32 } else { 0i32 }, None)
            } else {
                (a >> (b as u32), None)
            }
        }
        Op::Lt => (if a < b { 1 } else { 0 }, None),
        Op::Gt => (if a > b { 1 } else { 0 }, None),
        Op::Le => (if a <= b { 1 } else { 0 }, None),
        Op::Ge => (if a >= b { 1 } else { 0 }, None),
        Op::Eq => (if a == b { 1 } else { 0 }, None),
        Op::Ne => (if a != b { 1 } else { 0 }, None),
        Op::And => (i32_of(ua & ub), None),
        Op::Or => (i32_of(ua | ub), None),
        Op::Xor => (i32_of(ua ^ ub), None),
    }
}

pub open spec fn neg32(v: i32) -> i32 {
    wrap(0 - to_u32(v))
}

pub open spec fn not32(v: i32) -> i32 {
    to_i32(!to_u32(v))
}

pub fn neg_value(v: i32) -> (r: i32)
    returns neg32(v),
{
    wrap_i64(0 - u32_of(v) as i64)
}

pub fn not_value(v: i32) -> (r: i32)
    returns not32(v),
{
    i32_of(!u32_of(v))
}


// --- the evaluation state ------------------------------------------------------

/// What an evaluation reads: the text, the counter, the mode, and the names.
pub struct Env {
    pub s: Seq<u8>,
    pub pc: i32,
    pub compat: bool,
    pub lc: u8,
    pub strict: bool,
    pub syms: Symbols,
    pub module: Seq<u8>,
}

/// What an evaluation changes: the position, diagnostics, unresolved names.
pub struct St {
    pub pos: int,
    pub diags: Seq<(Msg, Option<Seq<u8>>)>,
    pub undef: Seq<Seq<u8>>,
}

/// A name resolves as a qualified local label first, then as written.
pub open spec fn resolve(syms: Symbols, module: Seq<u8>, lc: u8, n: Seq<u8>) -> Option<i32> {
    match syms.value_of(qualified(n, lc, module)) {
        Some(v) => Some(v),
        None => syms.value_of(n),
    }
}

pub open spec fn at_pos(st: St, p: int) -> St {
    St { pos: p, ..st }
}

pub open spec fn with_err(st: St, m: Msg) -> St {
    St { diags: st.diags.push((m, None)), ..st }
}

pub open spec fn byte_at(s: Seq<u8>, p: int) -> Option<u8> {
    if 0 <= p < s.len() { Some(s[p]) } else { None }
}

pub open spec fn is_byte(s: Seq<u8>, p: int, c: u8) -> bool {
    0 <= p < s.len() && s[p] == c
}

pub open spec fn skip_blanks(s: Seq<u8>, p: int) -> int
    decreases s.len() - p,
{
    if 0 <= p < s.len() && is_blank(s[p]) { skip_blanks(s, p + 1) } else { p }
}

pub proof fn lemma_skip_blanks(s: Seq<u8>, p: int)
    ensures
        skip_blanks(s, p) >= p,
        0 <= p <= s.len() ==> skip_blanks(s, p) <= s.len(),
    decreases s.len() - p,
{
    if 0 <= p < s.len() && is_blank(s[p]) { lemma_skip_blanks(s, p + 1); }
}

/// `*` is multiplication when the next byte that is not blank is a letter,
/// digit, `(`, `$` or `@`; otherwise it is the counter.
pub open spec fn star_mul(s: Seq<u8>, p: int) -> bool {
    let q = skip_blanks(s, p + 1);
    0 <= q < s.len() && (is_alnum(s[q]) || s[q] == 0x28 || s[q] == 0x24 || s[q] == 0x40)
}

/// The binary operator spelled at `p`, with its length.
pub open spec fn binop_at(s: Seq<u8>, p: int) -> Option<(Op, int)> {
    if !(0 <= p < s.len()) {
        None
    } else {
        let a = s[p];
        let b = byte_at(s, p + 1);
        if a == 0x3C && b == Some(0x3Cu8) { Some((Op::Shl, 2)) }
        else if a == 0x3E && b == Some(0x3Eu8) { Some((Op::Shr, 2)) }
        else if a == 0x3C && b == Some(0x3Du8) { Some((Op::Le, 2)) }
        else if a == 0x3E && b == Some(0x3Du8) { Some((Op::Ge, 2)) }
        else if a == 0x3D && b == Some(0x3Du8) { Some((Op::Eq, 2)) }
        else if a == 0x21 && b == Some(0x3Du8) { Some((Op::Ne, 2)) }
        else if a == 0x3C { Some((Op::Lt, 1)) }
        else if a == 0x3E { Some((Op::Gt, 1)) }
        else if a == 0x3D { Some((Op::Eq, 1)) }
        else if a == 0x2B { Some((Op::Add, 1)) }
        else if a == 0x2D { Some((Op::Sub, 1)) }
        else if a == 0x2F { Some((Op::Div, 1)) }
        else if a == 0x26 { Some((Op::And, 1)) }
        else if a == 0x7C { Some((Op::Or, 1)) }
        else if a == 0x5E { Some((Op::Xor, 1)) }
        else if a == 0x25 { Some((Op::Mod, 1)) }
        else if a == 0x2A && star_mul(s, p) { Some((Op::Mul, 1)) }
        else { None }
    }
}

/// Skip blanks, then look at the operator there without consuming it.
pub open spec fn peek_binop(e: Env, st: St) -> (St, Option<(Op, int)>) {
    let p = skip_blanks(e.s, st.pos);
    (at_pos(st, p), binop_at(e.s, p))
}

pub open spec fn non_unary(e: Env, st: St) -> St {
    if e.strict && 0 <= st.pos < e.s.len() { with_err(st, Msg::NonUnary) } else { st }
}

pub open spec fn apply_st(op: Op, a: i32, b: i32, st: St) -> (i32, St) {
    let (v, m) = op_result(op, a, b);
    (v, match m { Some(m) => with_err(st, m), None => st })
}

// --- leaves: constants and names ------------------------------------------------

/// The number of digits in `base` from `p` on.
pub open spec fn digits_from(s: Seq<u8>, p: int, base: int) -> int
    decreases s.len() - p,
{
    if 0 <= p < s.len() && is_digit_in(s[p], base) { 1 + digits_from(s, p + 1, base) } else { 0 }
}

/// The first `n` digits from `p`, read in `base` modulo 2^32.
pub open spec fn fold_digits(s: Seq<u8>, p: int, n: int, base: int) -> u32
    decreases n,
{
    if n <= 0 { 0 } else { ((fold_digits(s, p, n - 1, base) * base + digit_value(s[p + n - 1])) % 0x1_0000_0000) as u32 }
}

pub proof fn lemma_digits_from(s: Seq<u8>, p: int, base: int, k: int)
    requires 0 <= p, 0 <= k,
    ensures
        0 <= digits_from(s, p, base),
        p <= s.len() ==> p + digits_from(s, p, base) <= s.len(),
        k < digits_from(s, p, base) ==> is_digit_in(s[p + k], base),
        p + digits_from(s, p, base) < s.len() ==> !is_digit_in(s[p + digits_from(s, p, base)], base),
    decreases s.len() - p,
{
    if 0 <= p < s.len() && is_digit_in(s[p], base) {
        lemma_digits_from(s, p + 1, base, if k > 0 { k - 1 } else { 0 });
    }
}

/// Digits in `base` after a prefix: `%` and `@` with no digit are diagnosed.
pub open spec fn read_radix(e: Env, st: St, base: int) -> (i32, St) {
    let n = digits_from(e.s, st.pos, base);
    let v = to_i32(fold_digits(e.s, st.pos, n, base));
    let st2 = at_pos(st, st.pos + n);
    (v, if n == 0 { with_err(st2, Msg::InvalidToken) } else { st2 })
}

/// One past the run of letters and digits starting at `p`.
pub open spec fn alnum_end(s: Seq<u8>, p: int) -> int
    decreases s.len() - p,
{
    if 0 <= p < s.len() && is_alnum(s[p]) { alnum_end(s, p + 1) } else { p }
}

pub proof fn lemma_alnum_end(s: Seq<u8>, p: int)
    requires 0 <= p <= s.len(),
    ensures p <= alnum_end(s, p) <= s.len(),
        forall|k: int| p <= k < alnum_end(s, p) ==> is_alnum(#[trigger] s[k]),
        alnum_end(s, p) < s.len() ==> !is_alnum(s[alnum_end(s, p)]),
    decreases s.len() - p,
{
    if p < s.len() && is_alnum(s[p]) { lemma_alnum_end(s, p + 1); }
}

pub open spec fn lower(c: u8) -> u8 {
    if 0x41 <= c <= 0x5A { (c + 32) as u8 } else { c }
}

/// The radix a suffix letter selects, if it is one.
pub open spec fn suffix_base(c: u8) -> Option<int> {
    let l = lower(c);
    if l == 0x68 { Some(16) } else if l == 0x62 { Some(2) } else if l == 0x71 || l == 0x6F { Some(8) }
    else if l == 0x64 { Some(10) } else { None }
}

pub open spec fn all_digits_in(s: Seq<u8>, p: int, n: int, base: int) -> bool {
    forall|k: int| p <= k < p + n ==> is_digit_in(#[trigger] s[k], base)
}

/// A constant beginning with a digit: an optional radix suffix (h, b, q/o, d)
/// applies when every other character is a digit in that radix; otherwise
/// only the leading decimal digits are taken.
pub open spec fn read_number_at(e: Env, st: St) -> (i32, St) {
    let start = st.pos;
    let end = alnum_end(e.s, start);
    let last = if end > start { e.s[end - 1] } else { 0x30u8 };
    let (base, body) = match suffix_base(last) {
        Some(b) => (b, end - start - 1),
        None => (10, end - start),
    };
    if body > 0 && all_digits_in(e.s, start, body, base) {
        (to_i32(fold_digits(e.s, start, body, base)), at_pos(st, end))
    } else {
        let n = digits_from(e.s, start, 10);
        (to_i32(fold_digits(e.s, start, n, 10)), at_pos(st, start + n))
    }
}

/// A quoted character: exactly one, the closing quote optional.
pub open spec fn read_char(e: Env, st: St) -> (i32, St) {
    let p = st.pos + 1;
    if 0 <= p < e.s.len() {
        let v = e.s[p] as i32;
        let q = p + 1;
        (v, at_pos(st, if is_byte(e.s, q, 0x27) { q + 1 } else { q }))
    } else {
        (0, with_err(at_pos(st, p), Msg::PrematureChar))
    }
}

pub open spec fn is_sym_char(c: u8, lc: u8) -> bool {
    is_alnum(c) || c == 0x5F || c == 0x2E || c == lc
}

/// One past the run of symbol characters starting at `p`.
pub open spec fn sym_end(s: Seq<u8>, p: int, lc: u8) -> int
    decreases s.len() - p,
{
    if 0 <= p < s.len() && is_sym_char(s[p], lc) { sym_end(s, p + 1, lc) } else { p }
}

pub proof fn lemma_sym_end(s: Seq<u8>, p: int, lc: u8)
    requires 0 <= p <= s.len(),
    ensures p <= sym_end(s, p, lc) <= s.len(),
    decreases s.len() - p,
{
    if p < s.len() && is_sym_char(s[p], lc) { lemma_sym_end(s, p + 1, lc); }
}

/// A name: its value, or the undefined sentinel with the name recorded.
pub open spec fn read_symbol(e: Env, st: St) -> (i32, St) {
    let end = sym_end(e.s, st.pos, e.lc);
    let name = e.s.subrange(st.pos, end);
    match resolve(e.syms, e.module, e.lc, name) {
        Some(v) => (v, at_pos(st, end)),
        None => (UNDEFINED, St { pos: end, undef: st.undef.push(name), ..st }),
    }
}


// --- the grammar ------------------------------------------------------------------
//
// Each function below takes the state at its start and gives its result and
// the state after it. `value` is a chain of unary operators and a primary;
// `expr` climbs precedence; `acc_loop` is the compatibility mode's
// accumulator, which applies each operator as soon as its right-hand value
// is read. A step that would not advance ends its loop.

pub open spec fn in_range(e: Env, st: St) -> bool {
    0 <= st.pos <= e.s.len()
}

pub open spec fn eval_value(e: Env, st: St) -> (Option<i32>, St)
    decreases e.s.len() - st.pos, 2int,
{
    if !in_range(e, st) {
        (None, st)
    } else {
        proof { lemma_skip_blanks(e.s, st.pos); }
        let p = skip_blanks(e.s, st.pos);
        if is_byte(e.s, p, 0x2D) {
            match eval_value(e, at_pos(st, p + 1)) {
                (Some(v), st2) => (Some(neg32(v)), st2),
                (None, st2) => (None, st2),
            }
        } else if is_byte(e.s, p, 0x2B) && !e.compat {
            eval_value(e, at_pos(st, p + 1))
        } else if is_byte(e.s, p, 0x7E) {
            match eval_value(e, at_pos(st, p + 1)) {
                (Some(v), st2) => (Some(not32(v)), st2),
                (None, st2) => (None, st2),
            }
        } else if is_byte(e.s, p, 0x21) {
            match eval_value(e, at_pos(st, p + 1)) {
                (Some(v), st2) => (Some(if v == 0 { 1i32 } else { 0i32 }), st2),
                (None, st2) => (None, st2),
            }
        } else {
            eval_primary(e, at_pos(st, p))
        }
    }
}

pub open spec fn eval_primary(e: Env, st: St) -> (Option<i32>, St)
    decreases e.s.len() - st.pos, 1int,
{
    if !in_range(e, st) {
        (None, st)
    } else {
        proof { lemma_skip_blanks(e.s, st.pos); }
        let p = skip_blanks(e.s, st.pos);
        let st1 = at_pos(st, p);
        if p >= e.s.len() {
            (None, st1)
        } else {
            let c = e.s[p];
            if c == 0x28 {
                let (v, st2) = if e.compat {
                    eval_acc_loop(e, at_pos(st, p + 1), 0, true, true)
                } else {
                    eval_expr(e, at_pos(st, p + 1), 1)
                };
                let q = skip_blanks(e.s, st2.pos);
                if is_byte(e.s, q, 0x29) {
                    (Some(v), at_pos(st2, q + 1))
                } else {
                    (Some(v), with_err(at_pos(st2, q), Msg::ParenImbalance))
                }
            } else if c == 0x24 {
                if p + 1 < e.s.len() && is_hex_digit(e.s[p + 1]) {
                    let (v, st2) = read_radix(e, at_pos(st, p + 1), 16);
                    (Some(v), st2)
                } else {
                    (Some(e.pc), at_pos(st, p + 1))
                }
            } else if c == 0x25 {
                let q = p + 1;
                let st2 = at_pos(st, q);
                if is_byte(e.s, q, 0x30) || is_byte(e.s, q, 0x31) {
                    let (v, st3) = read_radix(e, st2, 2);
                    (Some(v), st3)
                } else if e.compat {
                    if q < e.s.len() {
                        eval_primary(e, st2)
                    } else {
                        let (v, st3) = read_radix(e, st2, 2);
                        (Some(v), st3)
                    }
                } else {
                    (Some(0i32), with_err(st2, Msg::NoBinaryDigit))
                }
            } else if c == 0x40 {
                let (v, st2) = read_radix(e, at_pos(st, p + 1), 8);
                (Some(v), st2)
            } else if c == 0x2A && !star_mul(e.s, p) {
                (Some(e.pc), at_pos(st, p + 1))
            } else if c == 0x27 {
                let (v, st2) = read_char(e, st1);
                (Some(v), st2)
            } else if is_digit(c) {
                let (v, st2) = read_number_at(e, st1);
                (Some(v), st2)
            } else if is_alpha(c) || c == 0x5F || c == e.lc {
                let (v, st2) = read_symbol(e, st1);
                (Some(v), st2)
            } else {
                (None, st1)
            }
        }
    }
}

pub open spec fn eval_expr(e: Env, st: St, min: int) -> (i32, St)
    decreases e.s.len() - st.pos, 5int,
{
    if !in_range(e, st) {
        (0, st)
    } else {
        match eval_value(e, st) {
            (None, st1) => (0, non_unary(e, st1)),
            (Some(v), st1) => if st1.pos < st.pos || st1.pos > e.s.len() {
                (v, st1)
            } else {
                eval_expr_loop(e, st1, v, min)
            },
        }
    }
}

pub open spec fn eval_expr_loop(e: Env, st: St, lhs: i32, min: int) -> (i32, St)
    decreases e.s.len() - st.pos, 4int,
{
    if !in_range(e, st) {
        (lhs, st)
    } else {
        proof { lemma_skip_blanks(e.s, st.pos); }
        let save = st.pos;
        let (st1, ob) = peek_binop(e, st);
        match ob {
            None => (lhs, st1),
            Some((op, n)) => if prec(op) < min {
                (lhs, st1)
            } else {
                match eval_value_then(e, at_pos(st1, st1.pos + n), prec(op) + 1) {
                    (Some(rhs), st2) => {
                        let (v, st3) = apply_st(op, lhs, rhs, st2);
                        if st3.pos <= save || st3.pos > e.s.len() {
                            (v, st3)
                        } else {
                            eval_expr_loop(e, st3, v, min)
                        }
                    },
                    (None, st2) => (lhs, at_pos(st2, save)),
                }
            },
        }
    }
}

pub open spec fn eval_value_then(e: Env, st: St, min: int) -> (Option<i32>, St)
    decreases e.s.len() - st.pos, 5int,
{
    if !in_range(e, st) {
        (None, st)
    } else {
        let save = st.pos;
        match eval_value(e, st) {
            (None, st1) => (None, at_pos(st1, save)),
            (Some(v), st1) => if st1.pos < st.pos || st1.pos > e.s.len() {
                (Some(v), st1)
            } else {
                let (r, st2) = eval_vt_loop(e, st1, v, min);
                (Some(r), st2)
            },
        }
    }
}

pub open spec fn eval_vt_loop(e: Env, st: St, lhs: i32, min: int) -> (i32, St)
    decreases e.s.len() - st.pos, 4int,
{
    if !in_range(e, st) {
        (lhs, st)
    } else {
        proof { lemma_skip_blanks(e.s, st.pos); }
        let mark = st.pos;
        let (st1, ob) = peek_binop(e, st);
        match ob {
            None => (lhs, st1),
            Some((op, n)) => if prec(op) < min {
                (lhs, st1)
            } else {
                match eval_value_then(e, at_pos(st1, st1.pos + n), prec(op) + 1) {
                    (Some(rhs), st2) => {
                        let (v, st3) = apply_st(op, lhs, rhs, st2);
                        if st3.pos <= mark || st3.pos > e.s.len() {
                            (v, st3)
                        } else {
                            eval_vt_loop(e, st3, v, min)
                        }
                    },
                    (None, st2) => (lhs, at_pos(st2, mark)),
                }
            },
        }
    }
}

pub open spec fn eval_acc_loop(e: Env, st: St, acc: i32, first: bool, in_paren: bool) -> (i32, St)
    decreases e.s.len() - st.pos, 4int,
{
    if !in_range(e, st) {
        (acc, st)
    } else {
        proof { lemma_skip_blanks(e.s, st.pos); }
        let p = skip_blanks(e.s, st.pos);
        let st1 = at_pos(st, p);
        if p >= e.s.len() {
            (acc, st1)
        } else if in_paren && e.s[p] == 0x29 {
            (acc, st1)
        } else if first {
            match eval_value(e, st1) {
                (Some(v), st2) => if st2.pos <= st.pos || st2.pos > e.s.len() {
                    (v, st2)
                } else {
                    eval_acc_loop(e, st2, v, false, in_paren)
                },
                (None, st2) => eval_acc_rest(e, non_unary(e, at_pos(st2, p)), acc, in_paren),
            }
        } else {
            eval_acc_rest(e, st1, acc, in_paren)
        }
    }
}

pub open spec fn eval_acc_rest(e: Env, st: St, acc: i32, in_paren: bool) -> (i32, St)
    decreases e.s.len() - st.pos, 3int,
{
    if !in_range(e, st) {
        (acc, st)
    } else {
        proof { lemma_skip_blanks(e.s, st.pos); }
        let save = st.pos;
        let (st1, ob) = peek_binop(e, st);
        match ob {
            Some((op, n)) => match eval_value(e, at_pos(st1, st1.pos + n)) {
                (Some(rhs), st2) => {
                    let (v, st3) = apply_st(op, acc, rhs, st2);
                    if st3.pos <= save || st3.pos > e.s.len() {
                        (v, st3)
                    } else {
                        eval_acc_loop(e, st3, v, false, in_paren)
                    }
                },
                (None, st2) => (acc, at_pos(st2, save)),
            },
            None => {
                let q = st1.pos;
                if is_byte(e.s, q, 0x7E) || is_byte(e.s, q, 0x21) {
                    match eval_value(e, at_pos(st1, q + 1)) {
                        (Some(v), st2) => {
                            let a2 = if is_byte(e.s, q, 0x7E) { not32(v) } else if v == 0 { 1i32 } else { 0i32 };
                            if st2.pos <= save || st2.pos > e.s.len() {
                                (a2, st2)
                            } else {
                                eval_acc_loop(e, st2, a2, false, in_paren)
                            }
                        },
                        (None, st2) => (acc, st2),
                    }
                } else {
                    match eval_value(e, st1) {
                        (Some(v), st2) => if st2.pos <= save || st2.pos > e.s.len() {
                            (v, st2)
                        } else {
                            eval_acc_loop(e, st2, v, false, in_paren)
                        },
                        (None, st2) => (acc, st2),
                    }
                }
            },
        }
    }
}

/// The whole evaluation: precedence climbing by default, the accumulator in
/// compatibility mode.
pub open spec fn evaluate(e: Env) -> (i32, St) {
    let st0 = St { pos: 0, diags: Seq::empty(), undef: Seq::empty() };
    if e.compat { eval_acc_loop(e, st0, 0, true, false) } else { eval_expr(e, st0, 1) }
}


// --- what the operators compute ----------------------------------------------------

proof fn lemma_congruent_sum(x: int, y: int)
    requires (x - y) % 0x1_0000_0000 == 0,
    ensures (wrap(x) - y) % 0x1_0000_0000 == 0,
{
    lemma_wrap_congruent(x);
    let m = 0x1_0000_0000int;
    assert(((wrap(x) - x) + (x - y)) % m == 0) by (nonlinear_arith)
        requires (wrap(x) - x) % m == 0, (x - y) % m == 0, m == 0x1_0000_0000int;
}

#[verifier::spinoff_prover]
proof fn lemma_add_sub_wrap(a: i32, b: i32)
    ensures
        (op_result(Op::Add, a, b).0 - (a + b)) % 0x1_0000_0000 == 0,
        (op_result(Op::Sub, a, b).0 - (a - b)) % 0x1_0000_0000 == 0,
{
    let ua = to_u32(a) as int;
    let ub = to_u32(b) as int;
    let m = 0x1_0000_0000int;
    assert(((ua + ub) - (a + b)) % m == 0) by (nonlinear_arith)
        requires ua == a || ua == a + m, ub == b || ub == b + m, m == 0x1_0000_0000int;
    assert(((ua - ub) - (a - b)) % m == 0) by (nonlinear_arith)
        requires ua == a || ua == a + m, ub == b || ub == b + m, m == 0x1_0000_0000int;
    lemma_congruent_sum(ua + ub, a + b);
    lemma_congruent_sum(ua - ub, a - b);
}

#[verifier::spinoff_prover]
proof fn lemma_mul_wrap(a: i32, b: i32)
    ensures (op_result(Op::Mul, a, b).0 - a * b) % 0x1_0000_0000 == 0,
{
    let ua = to_u32(a) as int;
    let ub = to_u32(b) as int;
    let m = 0x1_0000_0000int;
    assert((ua * ub - a * b) % m == 0) by (nonlinear_arith)
        requires ua == a || ua == a + m, ub == b || ub == b + m, m == 0x1_0000_0000int;
    lemma_congruent_sum(ua * ub, a * b);
}

/// Addition, subtraction and multiplication wrap at 32 bits: each result is
/// the exact one modulo 2^32, as a signed 32-bit value, and raises nothing;
/// the bitwise operators act on the 32-bit patterns.
pub proof fn lemma_wrapping_arithmetic(a: i32, b: i32)
    ensures
        (op_result(Op::Add, a, b).0 - (a + b)) % 0x1_0000_0000 == 0,
        (op_result(Op::Sub, a, b).0 - (a - b)) % 0x1_0000_0000 == 0,
        (op_result(Op::Mul, a, b).0 - a * b) % 0x1_0000_0000 == 0,
        to_u32(op_result(Op::And, a, b).0) == to_u32(a) & to_u32(b),
        to_u32(op_result(Op::Or, a, b).0) == to_u32(a) | to_u32(b),
        to_u32(op_result(Op::Xor, a, b).0) == to_u32(a) ^ to_u32(b),
        op_result(Op::Add, a, b).1 is None && op_result(Op::Sub, a, b).1 is None && op_result(Op::Mul, a, b).1 is None,
{
    lemma_add_sub_wrap(a, b);
    lemma_mul_wrap(a, b);
    lemma_u32_round_trip(to_u32(a) & to_u32(b));
    lemma_u32_round_trip(to_u32(a) | to_u32(b));
    lemma_u32_round_trip(to_u32(a) ^ to_u32(b));
}

proof fn lemma_u32_round_trip(u: u32)
    ensures to_u32(to_i32(u)) == u,
{
}

proof fn lemma_wrap_congruent(x: int)
    ensures (wrap(x) - x) % 0x1_0000_0000 == 0,
{
    let m = 0x1_0000_0000int;
    let r = x % m;
    assert(0 <= r < m);
    assert((r - x) % m == 0) by (nonlinear_arith) requires r == x % m, m == 0x1_0000_0000int;
    assert(wrap(x) == r || wrap(x) == r - m);
    assert((r - m - x) % m == 0) by (nonlinear_arith) requires (r - x) % m == 0, m == 0x1_0000_0000int;
}

// --- how operators group -------------------------------------------------------------

/// A single decimal digit's value.
pub open spec fn digit_of(c: u8) -> i32 {
    (c - 0x30) as i32
}

proof fn lemma_digit_operand(e: Env, st: St)
    requires 0 <= st.pos < e.s.len(), is_digit(e.s[st.pos]),
        st.pos + 1 == e.s.len() || !is_alnum(e.s[st.pos + 1]),
    ensures eval_value(e, st) == (Some(digit_of(e.s[st.pos])), at_pos(st, st.pos + 1)),
{
    let s = e.s;
    let p = st.pos;
    assert(skip_blanks(s, p) == p);
    assert(at_pos(st, p) == st);
    assert(alnum_end(s, p + 1) == p + 1);
    assert(alnum_end(s, p) == p + 1);
    assert(suffix_base(s[p]) is None);
    assert(all_digits_in(s, p, 1, 10));
    assert(fold_digits(s, p, 0, 10) == 0);
    assert(fold_digits(s, p, 1, 10) == (s[p] - 0x30) as u32);
    assert(read_number_at(e, st) == (digit_of(s[p]), at_pos(st, p + 1)));
    assert(eval_primary(e, st) == (Some(digit_of(s[p])), at_pos(st, p + 1)));
}

proof fn lemma_end_of_text(e: Env, st: St, v: i32, min: int)
    requires st.pos == e.s.len(),
    ensures eval_vt_loop(e, st, v, min) == (v, st), eval_expr_loop(e, st, v, min) == (v, st),
{
    assert(skip_blanks(e.s, st.pos) == st.pos);
    assert(at_pos(st, st.pos) == st);
}

proof fn lemma_last_operand(e: Env, st: St, m: int)
    requires st.pos + 1 == e.s.len(), st.pos >= 0, is_digit(e.s[st.pos]),
    ensures eval_value_then(e, st, m) == (Some(digit_of(e.s[st.pos])), at_pos(st, e.s.len() as int)),
{
    lemma_digit_operand(e, st);
    lemma_end_of_text(e, at_pos(st, e.s.len() as int), digit_of(e.s[st.pos]), m);
}

proof fn lemma_vt_takes(e: Env, st: St, lhs: i32, m: int, op: Op, n: int, rhs: i32, st2: St)
    requires 0 <= st.pos < e.s.len(), skip_blanks(e.s, st.pos) == st.pos, binop_at(e.s, st.pos) == Some((op, n)),
        prec(op) >= m, eval_value_then(e, at_pos(st, st.pos + n), prec(op) + 1) == (Some(rhs), st2),
        st2.pos == e.s.len(),
    ensures eval_vt_loop(e, st, lhs, m) == apply_st(op, lhs, rhs, st2),
        eval_expr_loop(e, st, lhs, m) == apply_st(op, lhs, rhs, st2),
{
    assert(at_pos(st, st.pos) == st);
    let (v, st3) = apply_st(op, lhs, rhs, st2);
    lemma_end_of_text(e, st3, v, m);
}

proof fn lemma_vt_stops(e: Env, st: St, lhs: i32, m: int, op: Op, n: int)
    requires 0 <= st.pos < e.s.len(), skip_blanks(e.s, st.pos) == st.pos, binop_at(e.s, st.pos) == Some((op, n)),
        prec(op) < m,
    ensures eval_vt_loop(e, st, lhs, m) == (lhs, st),
{
    assert(at_pos(st, st.pos) == st);
}

/// `x o1 y o2 z` with single digits and operators of one or two bytes, by
/// how the two operators bind.
#[verifier::spinoff_prover]
proof fn lemma_three_digits(e: Env, o1: Op, n1: int, o2: Op, n2: int)
    requires !e.compat, 1 <= n1 <= 2, 1 <= n2 <= 2, e.s.len() == 3 + n1 + n2,
        is_digit(e.s[0]), is_digit(e.s[1 + n1]), is_digit(e.s[2 + n1 + n2]),
        !is_alnum(e.s[1]), !is_alnum(e.s[2 + n1]), !is_blank(e.s[1]), !is_blank(e.s[2 + n1]),
        binop_at(e.s, 1) == Some((o1, n1)), binop_at(e.s, 2 + n1) == Some((o2, n2)),
    ensures evaluate(e).0 == if prec(o2) > prec(o1) {
            op_result(o1, digit_of(e.s[0]), op_result(o2, digit_of(e.s[1 + n1]), digit_of(e.s[2 + n1 + n2])).0).0
        } else {
            op_result(o2, op_result(o1, digit_of(e.s[0]), digit_of(e.s[1 + n1])).0, digit_of(e.s[2 + n1 + n2])).0
        },
{
    let s = e.s;
    let py = 1 + n1;
    let p2 = 2 + n1;
    let pz = 2 + n1 + n2;
    let x = digit_of(s[0]);
    let y = digit_of(s[py]);
    let z = digit_of(s[pz]);
    let st0 = St { pos: 0, diags: Seq::empty(), undef: Seq::empty() };
    let st1 = at_pos(st0, 1);
    let sty = at_pos(st0, py);
    let st2 = at_pos(st0, p2);
    let stz = at_pos(st0, pz);
    let stend = at_pos(st0, pz + 1);
    lemma_digit_operand(e, st0);
    assert(skip_blanks(s, 1) == 1);
    assert(skip_blanks(s, p2) == p2);
    assert(eval_expr(e, st0, 1) == eval_expr_loop(e, st1, x, 1));
    lemma_last_operand(e, stz, prec(o2) + 1);
    lemma_digit_operand(e, sty);
    if prec(o2) > prec(o1) {
        lemma_vt_takes(e, st2, y, prec(o1) + 1, o2, n2, z, stend);
        let (v2, sa) = apply_st(o2, y, z, stend);
        assert(eval_value_then(e, sty, prec(o1) + 1) == (Some(v2), sa));
        lemma_vt_takes(e, st1, x, 1, o1, n1, v2, sa);
    } else {
        lemma_vt_stops(e, st2, y, prec(o1) + 1, o2, n2);
        assert(eval_value_then(e, sty, prec(o1) + 1) == (Some(y), st2));
        let (v1, sa) = apply_st(o1, x, y, st2);
        assert(sa.pos == p2);
        lemma_last_operand(e, at_pos(sa, pz), prec(o2) + 1);
        lemma_vt_takes(e, sa, v1, 1, o2, n2, z, at_pos(sa, pz + 1));
        assert(eval_expr_loop(e, st1, x, 1) == eval_expr_loop(e, sa, v1, 1));
    }
}

/// How operators group in the default mode, shown on any three digits:
/// `*` `/` `%` before `+` `-`, those before `<<` `>>`, those before the
/// comparisons `<` `>` `<=` `>=`, those before `==` `!=`, those before `&`,
/// `&` before `^`, `^` before `|`; operators of one strength group from
/// left to right.
pub proof fn lemma_operator_grouping(e: Env, x: u8, y: u8, z: u8)
    requires !e.compat, is_digit(x), is_digit(y), is_digit(z),
    ensures
        e.s == seq![x, 0x2Bu8, y, 0x2Au8, z] ==> evaluate(e).0
            == op_result(Op::Add, digit_of(x), op_result(Op::Mul, digit_of(y), digit_of(z)).0).0,
        e.s == seq![x, 0x2Du8, y, 0x2Fu8, z] ==> evaluate(e).0
            == op_result(Op::Sub, digit_of(x), op_result(Op::Div, digit_of(y), digit_of(z)).0).0,
        e.s == seq![x, 0x2Bu8, y, 0x25u8, z] ==> evaluate(e).0
            == op_result(Op::Add, digit_of(x), op_result(Op::Mod, digit_of(y), digit_of(z)).0).0,
        e.s == seq![x, 0x3Cu8, 0x3Cu8, y, 0x2Bu8, z] ==> evaluate(e).0
            == op_result(Op::Shl, digit_of(x), op_result(Op::Add, digit_of(y), digit_of(z)).0).0,
        e.s == seq![x, 0x3Eu8, 0x3Eu8, y, 0x2Du8, z] ==> evaluate(e).0
            == op_result(Op::Shr, digit_of(x), op_result(Op::Sub, digit_of(y), digit_of(z)).0).0,
        e.s == seq![x, 0x3Cu8, y, 0x3Cu8, 0x3Cu8, z] ==> evaluate(e).0
            == op_result(Op::Lt, digit_of(x), op_result(Op::Shl, digit_of(y), digit_of(z)).0).0,
        e.s == seq![x, 0x3Eu8, 0x3Du8, y, 0x3Eu8, 0x3Eu8, z] ==> evaluate(e).0
            == op_result(Op::Ge, digit_of(x), op_result(Op::Shr, digit_of(y), digit_of(z)).0).0,
        e.s == seq![x, 0x3Cu8, y, 0x2Bu8, z] ==> evaluate(e).0
            == op_result(Op::Lt, digit_of(x), op_result(Op::Add, digit_of(y), digit_of(z)).0).0,
        e.s == seq![x, 0x3Du8, y, 0x3Cu8, z] ==> evaluate(e).0
            == op_result(Op::Eq, digit_of(x), op_result(Op::Lt, digit_of(y), digit_of(z)).0).0,
        e.s == seq![x, 0x21u8, 0x3Du8, y, 0x3Eu8, z] ==> evaluate(e).0
            == op_result(Op::Ne, digit_of(x), op_result(Op::Gt, digit_of(y), digit_of(z)).0).0,
        e.s == seq![x, 0x3Du8, 0x3Du8, y, 0x3Cu8, 0x3Du8, z] ==> evaluate(e).0
            == op_result(Op::Eq, digit_of(x), op_result(Op::Le, digit_of(y), digit_of(z)).0).0,
        e.s == seq![x, 0x26u8, y, 0x3Du8, z] ==> evaluate(e).0
            == op_result(Op::And, digit_of(x), op_result(Op::Eq, digit_of(y), digit_of(z)).0).0,
        e.s == seq![x, 0x26u8, y, 0x21u8, 0x3Du8, z] ==> evaluate(e).0
            == op_result(Op::And, digit_of(x), op_result(Op::Ne, digit_of(y), digit_of(z)).0).0,
        e.s == seq![x, 0x5Eu8, y, 0x26u8, z] ==> evaluate(e).0
            == op_result(Op::Xor, digit_of(x), op_result(Op::And, digit_of(y), digit_of(z)).0).0,
        e.s == seq![x, 0x7Cu8, y, 0x5Eu8, z] ==> evaluate(e).0
            == op_result(Op::Or, digit_of(x), op_result(Op::Xor, digit_of(y), digit_of(z)).0).0,
        e.s == seq![x, 0x7Cu8, y, 0x26u8, z] ==> evaluate(e).0
            == op_result(Op::Or, digit_of(x), op_result(Op::And, digit_of(y), digit_of(z)).0).0,
        e.s == seq![x, 0x26u8, y, 0x7Cu8, z] ==> evaluate(e).0
            == op_result(Op::Or, op_result(Op::And, digit_of(x), digit_of(y)).0, digit_of(z)).0,
        e.s == seq![x, 0x2Du8, y, 0x2Bu8, z] ==> evaluate(e).0
            == op_result(Op::Add, op_result(Op::Sub, digit_of(x), digit_of(y)).0, digit_of(z)).0,
        e.s == seq![x, 0x2Fu8, y, 0x2Au8, z] ==> evaluate(e).0
            == op_result(Op::Mul, op_result(Op::Div, digit_of(x), digit_of(y)).0, digit_of(z)).0,
{
    let s = e.s;
    if s == seq![x, 0x2Bu8, y, 0x2Au8, z] {
        assert(star_mul(s, 3)) by { assert(skip_blanks(s, 4) == 4); }
        lemma_three_digits(e, Op::Add, 1, Op::Mul, 1);
    }
    if s == seq![x, 0x2Du8, y, 0x2Fu8, z] { lemma_three_digits(e, Op::Sub, 1, Op::Div, 1); }
    if s == seq![x, 0x2Bu8, y, 0x25u8, z] { lemma_three_digits(e, Op::Add, 1, Op::Mod, 1); }
    if s == seq![x, 0x3Cu8, 0x3Cu8, y, 0x2Bu8, z] { lemma_three_digits(e, Op::Shl, 2, Op::Add, 1); }
    if s == seq![x, 0x3Eu8, 0x3Eu8, y, 0x2Du8, z] { lemma_three_digits(e, Op::Shr, 2, Op::Sub, 1); }
    if s == seq![x, 0x3Cu8, y, 0x3Cu8, 0x3Cu8, z] { lemma_three_digits(e, Op::Lt, 1, Op::Shl, 2); }
    if s == seq![x, 0x3Eu8, 0x3Du8, y, 0x3Eu8, 0x3Eu8, z] { lemma_three_digits(e, Op::Ge, 2, Op::Shr, 2); }
    if s == seq![x, 0x3Cu8, y, 0x2Bu8, z] { lemma_three_digits(e, Op::Lt, 1, Op::Add, 1); }
    if s == seq![x, 0x3Du8, y, 0x3Cu8, z] { lemma_three_digits(e, Op::Eq, 1, Op::Lt, 1); }
    if s == seq![x, 0x21u8, 0x3Du8, y, 0x3Eu8, z] { lemma_three_digits(e, Op::Ne, 2, Op::Gt, 1); }
    if s == seq![x, 0x3Du8, 0x3Du8, y, 0x3Cu8, 0x3Du8, z] { lemma_three_digits(e, Op::Eq, 2, Op::Le, 2); }
    if s == seq![x, 0x26u8, y, 0x3Du8, z] { lemma_three_digits(e, Op::And, 1, Op::Eq, 1); }
    if s == seq![x, 0x26u8, y, 0x21u8, 0x3Du8, z] { lemma_three_digits(e, Op::And, 1, Op::Ne, 2); }
    if s == seq![x, 0x5Eu8, y, 0x26u8, z] { lemma_three_digits(e, Op::Xor, 1, Op::And, 1); }
    if s == seq![x, 0x7Cu8, y, 0x5Eu8, z] { lemma_three_digits(e, Op::Or, 1, Op::Xor, 1); }
    if s == seq![x, 0x7Cu8, y, 0x26u8, z] { lemma_three_digits(e, Op::Or, 1, Op::And, 1); }
    if s == seq![x, 0x26u8, y, 0x7Cu8, z] { lemma_three_digits(e, Op::And, 1, Op::Or, 1); }
    if s == seq![x, 0x2Du8, y, 0x2Bu8, z] { lemma_three_digits(e, Op::Sub, 1, Op::Add, 1); }
    if s == seq![x, 0x2Fu8, y, 0x2Au8, z] {
        assert(star_mul(s, 3)) by { assert(skip_blanks(s, 4) == 4); }
        lemma_three_digits(e, Op::Div, 1, Op::Mul, 1);
    }
}

proof fn lemma_acc_step(e: Env, st: St, acc: i32, op: Op)
    requires e.compat, 0 <= st.pos, st.pos + 2 <= e.s.len(), !is_blank(e.s[st.pos]),
        binop_at(e.s, st.pos) == Some((op, 1int)), is_digit(e.s[st.pos + 1]),
        st.pos + 2 == e.s.len() || !is_alnum(e.s[st.pos + 2]),
    ensures eval_acc_rest(e, st, acc, false) == eval_acc_loop(e,
        apply_st(op, acc, digit_of(e.s[st.pos + 1]), at_pos(st, st.pos + 2)).1,
        apply_st(op, acc, digit_of(e.s[st.pos + 1]), at_pos(st, st.pos + 2)).0, false, false),
{
    assert(skip_blanks(e.s, st.pos) == st.pos);
    assert(at_pos(st, st.pos) == st);
    lemma_digit_operand(e, at_pos(st, st.pos + 1));
}

/// `x o1 y o2 z` in the compatibility mode, with single digits and one-byte
/// operators.
#[verifier::spinoff_prover]
proof fn lemma_three_digits_compat(e: Env, o1: Op, o2: Op)
    requires e.compat, e.s.len() == 5, is_digit(e.s[0]), is_digit(e.s[2]), is_digit(e.s[4]),
        !is_alnum(e.s[1]), !is_alnum(e.s[3]), !is_blank(e.s[1]), !is_blank(e.s[3]),
        binop_at(e.s, 1) == Some((o1, 1int)), binop_at(e.s, 3) == Some((o2, 1int)),
    ensures evaluate(e).0
        == op_result(o2, op_result(o1, digit_of(e.s[0]), digit_of(e.s[2])).0, digit_of(e.s[4])).0,
{
    let s = e.s;
    let st0 = St { pos: 0, diags: Seq::empty(), undef: Seq::empty() };
    lemma_digit_operand(e, st0);
    assert(skip_blanks(s, 0) == 0);
    assert(at_pos(st0, 0) == st0);
    let st1 = at_pos(st0, 1);
    assert(skip_blanks(s, 1) == 1);
    assert(eval_acc_loop(e, st0, 0, true, false) == eval_acc_loop(e, st1, digit_of(s[0]), false, false));
    assert(eval_acc_loop(e, st1, digit_of(s[0]), false, false) == eval_acc_rest(e, st1, digit_of(s[0]), false));
    lemma_acc_step(e, st1, digit_of(s[0]), o1);
    let (v1, sa) = apply_st(o1, digit_of(s[0]), digit_of(s[2]), at_pos(st1, 3));
    assert(sa.pos == 3);
    assert(skip_blanks(s, 3) == 3);
    assert(eval_acc_loop(e, sa, v1, false, false) == eval_acc_rest(e, sa, v1, false));
    lemma_acc_step(e, sa, v1, o2);
    let (v2, sb) = apply_st(o2, v1, digit_of(s[4]), at_pos(sa, 5));
    assert(skip_blanks(s, 5) == 5);
    assert(eval_acc_loop(e, sb, v2, false, false) == (v2, at_pos(sb, 5)));
}

/// The compatibility mode applies operators strictly from left to right,
/// whatever they are: on any three digits, `x|y&z` is `(x|y)&z` and
/// `x+y*z` is `(x+y)*z`.
pub proof fn lemma_compat_left_to_right(e: Env, x: u8, y: u8, z: u8)
    requires e.compat, is_digit(x), is_digit(y), is_digit(z),
    ensures
        e.s == seq![x, 0x7Cu8, y, 0x26u8, z] ==> evaluate(e).0
            == op_result(Op::And, op_result(Op::Or, digit_of(x), digit_of(y)).0, digit_of(z)).0,
        e.s == seq![x, 0x2Bu8, y, 0x2Au8, z] ==> evaluate(e).0
            == op_result(Op::Mul, op_result(Op::Add, digit_of(x), digit_of(y)).0, digit_of(z)).0,
        e.s == seq![x, 0x2Du8, y, 0x2Fu8, z] ==> evaluate(e).0
            == op_result(Op::Div, op_result(Op::Sub, digit_of(x), digit_of(y)).0, digit_of(z)).0,
{
    let s = e.s;
    if s == seq![x, 0x7Cu8, y, 0x26u8, z] { lemma_three_digits_compat(e, Op::Or, Op::And); }
    if s == seq![x, 0x2Bu8, y, 0x2Au8, z] {
        assert(star_mul(s, 3)) by { assert(skip_blanks(s, 4) == 4); }
        lemma_three_digits_compat(e, Op::Add, Op::Mul);
    }
    if s == seq![x, 0x2Du8, y, 0x2Fu8, z] { lemma_three_digits_compat(e, Op::Sub, Op::Div); }
}

/// The value of a hexadecimal digit, upper or lower case.
pub open spec fn hex_value(c: u8) -> int {
    if 0x30 <= c <= 0x39 { c - 0x30 } else if 0x41 <= c <= 0x46 { c - 0x37 } else { c - 0x57 }
}

proof fn lemma_whole_text(e: Env, v: i32)
    requires !e.compat,
        eval_value(e, St { pos: 0, diags: Seq::empty(), undef: Seq::empty() })
            == (Some(v), at_pos(St { pos: 0, diags: Seq::empty(), undef: Seq::empty() }, e.s.len() as int)),
    ensures evaluate(e).0 == v,
{
    let st0 = St { pos: 0, diags: Seq::empty(), undef: Seq::empty() };
    lemma_end_of_text(e, at_pos(st0, e.s.len() as int), v, 1);
}

/// How two-digit constants read, in each radix form: plain decimal; a
/// suffix `h`, `b`, `q` or `o` for hexadecimal, binary or octal; a prefix
/// `$`, `%` or `@` for the same.
proof fn lemma_radix_plain_decimal(e: Env, a: u8, b: u8)
    requires !e.compat, is_digit(a) && is_digit(b) && e.s == seq![a, b],
    ensures evaluate(e).0 == 10 * (a - 0x30) + (b - 0x30),
{
    let s = e.s;
    let st0 = St { pos: 0, diags: Seq::empty(), undef: Seq::empty() };
    assert(at_pos(st0, 0) == st0);
    assert(skip_blanks(s, 0) == 0);
    assert(alnum_end(s, 2) == 2);
    assert(alnum_end(s, 1) == 2);
    assert(alnum_end(s, 0) == 2);
    assert(suffix_base(b) is None);
    assert(fold_digits(s, 0, 0, 10) == 0);
    assert(fold_digits(s, 0, 1, 10) == (a - 0x30) as u32);
    assert(read_number_at(e, st0) == ((10 * (a - 0x30) + (b - 0x30)) as i32, at_pos(st0, 2)));
    assert(eval_primary(e, st0) == (Some((10 * (a - 0x30) + (b - 0x30)) as i32), at_pos(st0, s.len() as int)));
    assert(eval_value(e, st0) == (Some((10 * (a - 0x30) + (b - 0x30)) as i32), at_pos(st0, s.len() as int)));
    lemma_whole_text(e, (10 * (a - 0x30) + (b - 0x30)) as i32);
}

proof fn lemma_radix_hex_suffix(e: Env, a: u8, b: u8)
    requires !e.compat, is_digit(a) && is_hex_digit(b) && (e.s == seq![a, b, 0x68u8] || e.s == seq![a, b, 0x48u8]),
    ensures evaluate(e).0 == 16 * (a - 0x30) + hex_value(b),
{
    let s = e.s;
    let st0 = St { pos: 0, diags: Seq::empty(), undef: Seq::empty() };
    assert(at_pos(st0, 0) == st0);
    assert(skip_blanks(s, 0) == 0);
    assert(alnum_end(s, 3) == 3);
    assert(alnum_end(s, 2) == 3);
    assert(alnum_end(s, 1) == 3);
    assert(alnum_end(s, 0) == 3);
    assert(suffix_base(s[2]) == Some(16int));
    assert(all_digits_in(s, 0, 2, 16));
    assert(fold_digits(s, 0, 0, 16) == 0);
    assert(fold_digits(s, 0, 1, 16) == (a - 0x30) as u32);
    assert(read_number_at(e, st0) == ((16 * (a - 0x30) + hex_value(b)) as i32, at_pos(st0, 3)));
    assert(eval_primary(e, st0) == (Some((16 * (a - 0x30) + hex_value(b)) as i32), at_pos(st0, s.len() as int)));
    assert(eval_value(e, st0) == (Some((16 * (a - 0x30) + hex_value(b)) as i32), at_pos(st0, s.len() as int)));
    lemma_whole_text(e, (16 * (a - 0x30) + hex_value(b)) as i32);
}

proof fn lemma_radix_binary_suffix(e: Env, a: u8, b: u8)
    requires !e.compat, 0x30 <= a <= 0x31 && 0x30 <= b <= 0x31 && e.s == seq![a, b, 0x62u8],
    ensures evaluate(e).0 == 2 * (a - 0x30) + (b - 0x30),
{
    let s = e.s;
    let st0 = St { pos: 0, diags: Seq::empty(), undef: Seq::empty() };
    assert(at_pos(st0, 0) == st0);
    assert(skip_blanks(s, 0) == 0);
    assert(alnum_end(s, 3) == 3);
    assert(alnum_end(s, 2) == 3);
    assert(alnum_end(s, 1) == 3);
    assert(alnum_end(s, 0) == 3);
    assert(suffix_base(s[2]) == Some(2int));
    assert(all_digits_in(s, 0, 2, 2));
    assert(fold_digits(s, 0, 0, 2) == 0);
    assert(fold_digits(s, 0, 1, 2) == (a - 0x30) as u32);
    assert(read_number_at(e, st0) == ((2 * (a - 0x30) + (b - 0x30)) as i32, at_pos(st0, 3)));
    assert(eval_primary(e, st0) == (Some((2 * (a - 0x30) + (b - 0x30)) as i32), at_pos(st0, s.len() as int)));
    assert(eval_value(e, st0) == (Some((2 * (a - 0x30) + (b - 0x30)) as i32), at_pos(st0, s.len() as int)));
    lemma_whole_text(e, (2 * (a - 0x30) + (b - 0x30)) as i32);
}

proof fn lemma_radix_octal_suffix(e: Env, a: u8, b: u8)
    requires !e.compat, 0x30 <= a <= 0x37 && 0x30 <= b <= 0x37 && (e.s == seq![a, b, 0x71u8] || e.s == seq![a, b, 0x6Fu8]),
    ensures evaluate(e).0 == 8 * (a - 0x30) + (b - 0x30),
{
    let s = e.s;
    let st0 = St { pos: 0, diags: Seq::empty(), undef: Seq::empty() };
    assert(at_pos(st0, 0) == st0);
    assert(skip_blanks(s, 0) == 0);
    assert(alnum_end(s, 3) == 3);
    assert(alnum_end(s, 2) == 3);
    assert(alnum_end(s, 1) == 3);
    assert(alnum_end(s, 0) == 3);
    assert(suffix_base(s[2]) == Some(8int));
    assert(all_digits_in(s, 0, 2, 8));
    assert(fold_digits(s, 0, 0, 8) == 0);
    assert(fold_digits(s, 0, 1, 8) == (a - 0x30) as u32);
    assert(read_number_at(e, st0) == ((8 * (a - 0x30) + (b - 0x30)) as i32, at_pos(st0, 3)));
    assert(eval_primary(e, st0) == (Some((8 * (a - 0x30) + (b - 0x30)) as i32), at_pos(st0, s.len() as int)));
    assert(eval_value(e, st0) == (Some((8 * (a - 0x30) + (b - 0x30)) as i32), at_pos(st0, s.len() as int)));
    lemma_whole_text(e, (8 * (a - 0x30) + (b - 0x30)) as i32);
}

proof fn lemma_radix_hex_prefix(e: Env, a: u8, b: u8)
    requires !e.compat, is_hex_digit(a) && is_hex_digit(b) && e.s == seq![0x24u8, a, b],
    ensures evaluate(e).0 == 16 * hex_value(a) + hex_value(b),
{
    let s = e.s;
    let st0 = St { pos: 0, diags: Seq::empty(), undef: Seq::empty() };
    assert(at_pos(st0, 0) == st0);
    assert(skip_blanks(s, 0) == 0);
    assert(digits_from(s, 3, 16) == 0);
    assert(digits_from(s, 2, 16) == 1);
    assert(digits_from(s, 1, 16) == 2);
    assert(fold_digits(s, 1, 0, 16) == 0);
    assert(fold_digits(s, 1, 1, 16) == hex_value(a) as u32);
    assert(read_radix(e, at_pos(st0, 1), 16) == ((16 * hex_value(a) + hex_value(b)) as i32, at_pos(st0, 3)));
    assert(eval_primary(e, st0) == (Some((16 * hex_value(a) + hex_value(b)) as i32), at_pos(st0, s.len() as int)));
    assert(eval_value(e, st0) == (Some((16 * hex_value(a) + hex_value(b)) as i32), at_pos(st0, s.len() as int)));
    lemma_whole_text(e, (16 * hex_value(a) + hex_value(b)) as i32);
}

proof fn lemma_radix_binary_prefix(e: Env, a: u8, b: u8)
    requires !e.compat, 0x30 <= a <= 0x31 && 0x30 <= b <= 0x31 && e.s == seq![0x25u8, a, b],
    ensures evaluate(e).0 == 2 * (a - 0x30) + (b - 0x30),
{
    let s = e.s;
    let st0 = St { pos: 0, diags: Seq::empty(), undef: Seq::empty() };
    assert(at_pos(st0, 0) == st0);
    assert(skip_blanks(s, 0) == 0);
    assert(digits_from(s, 3, 2) == 0);
    assert(digits_from(s, 2, 2) == 1);
    assert(digits_from(s, 1, 2) == 2);
    assert(fold_digits(s, 1, 0, 2) == 0);
    assert(fold_digits(s, 1, 1, 2) == (a - 0x30) as u32);
    assert(read_radix(e, at_pos(st0, 1), 2) == ((2 * (a - 0x30) + (b - 0x30)) as i32, at_pos(st0, 3)));
    assert(eval_primary(e, st0) == (Some((2 * (a - 0x30) + (b - 0x30)) as i32), at_pos(st0, s.len() as int)));
    assert(eval_value(e, st0) == (Some((2 * (a - 0x30) + (b - 0x30)) as i32), at_pos(st0, s.len() as int)));
    lemma_whole_text(e, (2 * (a - 0x30) + (b - 0x30)) as i32);
}

proof fn lemma_radix_octal_prefix(e: Env, a: u8, b: u8)
    requires !e.compat, 0x30 <= a <= 0x37 && 0x30 <= b <= 0x37 && e.s == seq![0x40u8, a, b],
    ensures evaluate(e).0 == 8 * (a - 0x30) + (b - 0x30),
{
    let s = e.s;
    let st0 = St { pos: 0, diags: Seq::empty(), undef: Seq::empty() };
    assert(at_pos(st0, 0) == st0);
    assert(skip_blanks(s, 0) == 0);
    assert(digits_from(s, 3, 8) == 0);
    assert(digits_from(s, 2, 8) == 1);
    assert(digits_from(s, 1, 8) == 2);
    assert(fold_digits(s, 1, 0, 8) == 0);
    assert(fold_digits(s, 1, 1, 8) == (a - 0x30) as u32);
    assert(read_radix(e, at_pos(st0, 1), 8) == ((8 * (a - 0x30) + (b - 0x30)) as i32, at_pos(st0, 3)));
    assert(eval_primary(e, st0) == (Some((8 * (a - 0x30) + (b - 0x30)) as i32), at_pos(st0, s.len() as int)));
    assert(eval_value(e, st0) == (Some((8 * (a - 0x30) + (b - 0x30)) as i32), at_pos(st0, s.len() as int)));
    lemma_whole_text(e, (8 * (a - 0x30) + (b - 0x30)) as i32);
}

pub proof fn lemma_radix_forms(e: Env, a: u8, b: u8)
    requires !e.compat,
    ensures
        is_digit(a) && is_digit(b) && e.s == seq![a, b] ==> evaluate(e).0 == 10 * (a - 0x30) + (b - 0x30),
        is_digit(a) && is_hex_digit(b) && (e.s == seq![a, b, 0x68u8] || e.s == seq![a, b, 0x48u8])
            ==> evaluate(e).0 == 16 * (a - 0x30) + hex_value(b),
        0x30 <= a <= 0x31 && 0x30 <= b <= 0x31 && e.s == seq![a, b, 0x62u8] ==> evaluate(e).0 == 2 * (a - 0x30) + (b - 0x30),
        0x30 <= a <= 0x37 && 0x30 <= b <= 0x37 && (e.s == seq![a, b, 0x71u8] || e.s == seq![a, b, 0x6Fu8])
            ==> evaluate(e).0 == 8 * (a - 0x30) + (b - 0x30),
        is_hex_digit(a) && is_hex_digit(b) && e.s == seq![0x24u8, a, b] ==> evaluate(e).0 == 16 * hex_value(a) + hex_value(b),
        0x30 <= a <= 0x31 && 0x30 <= b <= 0x31 && e.s == seq![0x25u8, a, b] ==> evaluate(e).0 == 2 * (a - 0x30) + (b - 0x30),
        0x30 <= a <= 0x37 && 0x30 <= b <= 0x37 && e.s == seq![0x40u8, a, b] ==> evaluate(e).0 == 8 * (a - 0x30) + (b - 0x30),
{
    if is_digit(a) && is_digit(b) && e.s == seq![a, b] { lemma_radix_plain_decimal(e, a, b); }
    if is_digit(a) && is_hex_digit(b) && (e.s == seq![a, b, 0x68u8] || e.s == seq![a, b, 0x48u8]) { lemma_radix_hex_suffix(e, a, b); }
    if 0x30 <= a <= 0x31 && 0x30 <= b <= 0x31 && e.s == seq![a, b, 0x62u8] { lemma_radix_binary_suffix(e, a, b); }
    if 0x30 <= a <= 0x37 && 0x30 <= b <= 0x37 && (e.s == seq![a, b, 0x71u8] || e.s == seq![a, b, 0x6Fu8]) { lemma_radix_octal_suffix(e, a, b); }
    if is_hex_digit(a) && is_hex_digit(b) && e.s == seq![0x24u8, a, b] { lemma_radix_hex_prefix(e, a, b); }
    if 0x30 <= a <= 0x31 && 0x30 <= b <= 0x31 && e.s == seq![0x25u8, a, b] { lemma_radix_binary_prefix(e, a, b); }
    if 0x30 <= a <= 0x37 && 0x30 <= b <= 0x37 && e.s == seq![0x40u8, a, b] { lemma_radix_octal_prefix(e, a, b); }
}

// --- the evaluator ------------------------------------------------------------------

pub struct Eval<'a> {
    s: &'a [u8],
    pos: usize,
    pc: i32,
    compat: bool,
    local_char: u8,
    syms: &'a Symbols,
    module: &'a [u8],
    diags: Vec<Diag>,
    undefined: Vec<Vec<u8>>,
    /// Report an operator where a unary one was expected (the `-a` bit 0x08).
    check_non_unary: bool,
}

impl<'a> Eval<'a> {
    pub closed spec fn env(&self) -> Env {
        Env {
            s: self.s@,
            pc: self.pc,
            compat: self.compat,
            lc: self.local_char,
            strict: self.check_non_unary,
            syms: *self.syms,
            module: self.module@,
        }
    }

    pub closed spec fn st(&self) -> St {
        St { pos: self.pos as int, diags: diags_view(self.diags@), undef: names_view(self.undefined@) }
    }

    pub closed spec fn wf(&self) -> bool {
        self.pos <= self.s.len()
    }

    fn peek(&self) -> (r: Option<u8>)
        returns byte_at(self.s@, self.pos as int),
    {
        if self.pos < self.s.len() { Some(self.s[self.pos]) } else { None }
    }

    fn skip_ws(&mut self)
        requires old(self).wf(),
        ensures final(self).wf(), final(self).env() == old(self).env(),
            final(self).st() == at_pos(old(self).st(), skip_blanks(old(self).s@, old(self).pos as int)),
    {
        proof { lemma_skip_blanks(self.s@, self.pos as int); }
        while self.pos < self.s.len() && is_blank_byte(self.s[self.pos])
            invariant
                self.pos <= self.s@.len(),
                self.env() == old(self).env(),
                self.diags@ == old(self).diags@,
                self.undefined@ == old(self).undefined@,
                skip_blanks(self.s@, self.pos as int) == skip_blanks(old(self).s@, old(self).pos as int),
            decreases self.s.len() - self.pos,
        {
            self.pos += 1;
        }
    }

    fn err(&mut self, m: Msg)
        ensures final(self).env() == old(self).env(), final(self).pos == old(self).pos,
            final(self).st() == with_err(old(self).st(), m),
    {
        let ghost before = self.diags@;
        self.diags.push(Diag { msg: m, detail: None });
        assert(diags_view(self.diags@) =~= diags_view(before).push((m, None)));
    }

    fn non_unary_at_start(&mut self)
        ensures final(self).env() == old(self).env(), final(self).pos == old(self).pos,
            final(self).st() == non_unary(old(self).env(), old(self).st()),
    {
        if self.check_non_unary && self.pos < self.s.len() {
            self.err(Msg::NonUnary);
        }
    }

    fn star_is_multiply(&self, p: usize) -> (r: bool)
        requires p < self.s.len(),
        returns star_mul(self.s@, p as int),
    {
        proof { lemma_skip_blanks(self.s@, p + 1); }
        let mut i = p + 1;
        while i < self.s.len() && is_blank_byte(self.s[i])
            invariant p + 1 <= i <= self.s@.len(),
                skip_blanks(self.s@, i as int) == skip_blanks(self.s@, p + 1),
            decreases self.s.len() - i,
        {
            i += 1;
        }
        if i < self.s.len() {
            let c = self.s[i];
            is_alnum_byte(c) || c == 0x28 || c == 0x24 || c == 0x40
        } else {
            false
        }
    }

    fn binop_here(&self, p: usize) -> (r: Option<(Op, usize)>)
        requires p <= self.s@.len(),
        ensures
            r matches Some((op, n)) ==> binop_at(self.s@, p as int) == Some((op, n as int)) && p + n <= self.s@.len(),
            r is None ==> binop_at(self.s@, p as int) is None,
    {
        if p >= self.s.len() {
            return None;
        }
        let a = self.s[p];
        let b: Option<u8> = if p + 1 < self.s.len() { Some(self.s[p + 1]) } else { None };
        if a == 0x3C && b == Some(0x3Cu8) { Some((Op::Shl, 2)) }
        else if a == 0x3E && b == Some(0x3Eu8) { Some((Op::Shr, 2)) }
        else if a == 0x3C && b == Some(0x3Du8) { Some((Op::Le, 2)) }
        else if a == 0x3E && b == Some(0x3Du8) { Some((Op::Ge, 2)) }
        else if a == 0x3D && b == Some(0x3Du8) { Some((Op::Eq, 2)) }
        else if a == 0x21 && b == Some(0x3Du8) { Some((Op::Ne, 2)) }
        else if a == 0x3C { Some((Op::Lt, 1)) }
        else if a == 0x3E { Some((Op::Gt, 1)) }
        else if a == 0x3D { Some((Op::Eq, 1)) }
        else if a == 0x2B { Some((Op::Add, 1)) }
        else if a == 0x2D { Some((Op::Sub, 1)) }
        else if a == 0x2F { Some((Op::Div, 1)) }
        else if a == 0x26 { Some((Op::And, 1)) }
        else if a == 0x7C { Some((Op::Or, 1)) }
        else if a == 0x5E { Some((Op::Xor, 1)) }
        else if a == 0x25 { Some((Op::Mod, 1)) }
        else if a == 0x2A && self.star_is_multiply(p) { Some((Op::Mul, 1)) }
        else { None }
    }

    fn peek_binop(&mut self) -> (r: Option<(Op, usize)>)
        requires old(self).wf(),
        ensures final(self).wf(), final(self).env() == old(self).env(),
            final(self).st() == peek_binop(old(self).env(), old(self).st()).0,
            r matches Some((op, n)) ==> peek_binop(old(self).env(), old(self).st()).1 == Some((op, n as int))
                && final(self).pos + n <= final(self).s@.len(),
            r is None ==> peek_binop(old(self).env(), old(self).st()).1 is None,
    {
        self.skip_ws();
        self.binop_here(self.pos)
    }

    fn apply(&mut self, op: Op, a: i32, b: i32) -> (r: i32)
        ensures final(self).env() == old(self).env(), final(self).pos == old(self).pos,
            (r, final(self).st()) == apply_st(op, a, b, old(self).st()),
    {
        let (v, m) = apply_op(op, a, b);
        match m {
            Some(m) => self.err(m),
            None => {}
        }
        v
    }

    fn lookup(&self, n: &[u8]) -> (r: Option<i32>)
        returns resolve(*self.syms, self.module@, self.local_char, n@),
    {
        let (q, _) = Symbols::qualify(n, self.local_char, self.module);
        match self.syms.value(&q) {
            Some(v) => Some(v),
            None => self.syms.value(n),
        }
    }

    fn radix(&mut self, base: u32) -> (r: i32)
        requires old(self).wf(), 2 <= base <= 16,
        ensures final(self).wf(), final(self).env() == old(self).env(),
            (r, final(self).st()) == read_radix(old(self).env(), old(self).st(), base as int),
    {
        let start = self.pos;
        proof { lemma_digits_from(self.s@, start as int, base as int, 0); }
        let mut v: u32 = 0;
        while self.pos < self.s.len()
            invariant
                start <= self.pos <= start + digits_from(self.s@, start as int, base as int) <= self.s@.len(),
                2 <= base <= 16,
                self.env() == old(self).env(),
                self.diags@ == old(self).diags@,
                self.undefined@ == old(self).undefined@,
                v == fold_digits(self.s@, start as int, self.pos - start, base as int),
            ensures
                self.pos == start + digits_from(self.s@, start as int, base as int),
                v == fold_digits(self.s@, start as int, self.pos - start, base as int),
                self.env() == old(self).env(),
                self.diags@ == old(self).diags@,
                self.undefined@ == old(self).undefined@,
            decreases self.s.len() - self.pos,
        {
            proof { lemma_digits_from(self.s@, start as int, base as int, self.pos - start); }
            match digit_in(self.s[self.pos], base) {
                Some(d) => {
                    assert(v as u64 * base as u64 <= 0xFFFF_FFFF * 16) by (nonlinear_arith)
                        requires v <= 0xFFFF_FFFF, base <= 16;
                    v = ((v as u64 * base as u64 + d as u64) % 0x1_0000_0000u64) as u32;
                    self.pos += 1;
                }
                None => {
                    break;
                }
            }
        }
        if self.pos == start {
            self.err(Msg::InvalidToken);
        }
        i32_of(v)
    }

    fn number(&mut self) -> (r: i32)
        requires old(self).wf(), old(self).pos < old(self).s.len(), is_digit(old(self).s@[old(self).pos as int]),
        ensures final(self).wf(), final(self).env() == old(self).env(),
            (r, final(self).st()) == read_number_at(old(self).env(), old(self).st()),
    {
        let start = self.pos;
        proof { lemma_alnum_end(self.s@, start as int); }
        let mut end = start;
        while end < self.s.len() && is_alnum_byte(self.s[end])
            invariant start <= end <= self.s@.len(),
                alnum_end(self.s@, end as int) == alnum_end(self.s@, start as int),
            decreases self.s.len() - end,
        {
            end += 1;
        }
        let last: u8 = if end > start { self.s[end - 1] } else { 0x30 };
        let l: u8 = if 0x41 <= last && last <= 0x5A { last + 32 } else { last };
        let (base, body): (u32, usize) = if l == 0x68 {
            (16, end - start - 1)
        } else if l == 0x62 {
            (2, end - start - 1)
        } else if l == 0x71 || l == 0x6F {
            (8, end - start - 1)
        } else if l == 0x64 {
            (10, end - start - 1)
        } else {
            (10, end - start)
        };
        // Every body character a digit in the chosen radix?
        let mut ok = true;
        let mut k: usize = 0;
        while ok && k < body
            invariant k <= body, start + body <= self.s.len(), 2 <= base <= 16,
                ok == all_digits_in(self.s@, start as int, k as int, base as int),
            decreases body - k,
        {
            if digit_in(self.s[start + k], base).is_none() {
                ok = false;
            }
            k += 1;
        }
        proof {
            if !ok {
                let j = choose|j: int| start <= j < start + k && !is_digit_in(#[trigger] self.s@[j], base as int);
                assert(start <= j < start + body);
            }
        }
        let ok = ok && body > 0;
        assert(ok == (body > 0 && all_digits_in(self.s@, start as int, body as int, base as int)));
        if ok {
            let mut v: u32 = 0;
            let mut i: usize = 0;
            while i < body
                invariant i <= body, start + body <= self.s.len(), 2 <= base <= 16,
                    all_digits_in(self.s@, start as int, body as int, base as int),
                    v == fold_digits(self.s@, start as int, i as int, base as int),
                decreases body - i,
            {
                let d = digit_in(self.s[start + i], base).unwrap();
                assert(v as u64 * base as u64 <= 0xFFFF_FFFF * 16) by (nonlinear_arith)
                    requires v <= 0xFFFF_FFFF, base <= 16;
                v = ((v as u64 * base as u64 + d as u64) % 0x1_0000_0000u64) as u32;
                i += 1;
            }
            self.pos = end;
            i32_of(v)
        } else {
            self.pos = start;
            let r = self.radix_silent();
            r
        }
    }

    /// Leading decimal digits, with no diagnostic when there are none.
    fn radix_silent(&mut self) -> (r: i32)
        requires old(self).wf(),
        ensures final(self).wf(), final(self).env() == old(self).env(),
            final(self).diags@ == old(self).diags@, final(self).undefined@ == old(self).undefined@,
            final(self).pos == old(self).pos + digits_from(old(self).s@, old(self).pos as int, 10),
            r == to_i32(fold_digits(old(self).s@, old(self).pos as int, digits_from(old(self).s@, old(self).pos as int, 10), 10)),
    {
        let start = self.pos;
        proof { lemma_digits_from(self.s@, start as int, 10, 0); }
        let mut v: u32 = 0;
        while self.pos < self.s.len()
            invariant
                start <= self.pos <= start + digits_from(self.s@, start as int, 10) <= self.s@.len(),
                self.env() == old(self).env(),
                self.diags@ == old(self).diags@,
                self.undefined@ == old(self).undefined@,
                v == fold_digits(self.s@, start as int, self.pos - start, 10),
            ensures
                self.pos == start + digits_from(self.s@, start as int, 10),
                v == fold_digits(self.s@, start as int, self.pos - start, 10),
                self.env() == old(self).env(),
                self.diags@ == old(self).diags@,
                self.undefined@ == old(self).undefined@,
            decreases self.s.len() - self.pos,
        {
            proof { lemma_digits_from(self.s@, start as int, 10, self.pos - start); }
            match digit_in(self.s[self.pos], 10) {
                Some(d) => {
                    assert(v as u64 * 10 <= 0xFFFF_FFFF * 10) by (nonlinear_arith)
                        requires v <= 0xFFFF_FFFF;
                    v = ((v as u64 * 10 + d as u64) % 0x1_0000_0000u64) as u32;
                    self.pos += 1;
                }
                None => {
                    break;
                }
            }
        }
        i32_of(v)
    }

    fn char_const(&mut self) -> (r: i32)
        requires old(self).wf(), old(self).pos < old(self).s.len(),
        ensures final(self).wf(), final(self).env() == old(self).env(),
            (r, final(self).st()) == read_char(old(self).env(), old(self).st()),
    {
        self.pos += 1;
        if self.pos < self.s.len() {
            let v = self.s[self.pos] as i32;
            self.pos += 1;
            if self.pos < self.s.len() && self.s[self.pos] == 0x27 {
                self.pos += 1;
            }
            v
        } else {
            self.err(Msg::PrematureChar);
            0
        }
    }

    fn symbol(&mut self) -> (r: i32)
        requires old(self).wf(),
        ensures final(self).wf(), final(self).env() == old(self).env(),
            (r, final(self).st()) == read_symbol(old(self).env(), old(self).st()),
    {
        let start = self.pos;
        proof { lemma_sym_end(self.s@, start as int, self.local_char); }
        while self.pos < self.s.len()
            && (is_alnum_byte(self.s[self.pos]) || self.s[self.pos] == 0x5F || self.s[self.pos] == 0x2E
                || self.s[self.pos] == self.local_char)
            invariant start <= self.pos <= self.s@.len(),
                self.env() == old(self).env(),
                self.diags@ == old(self).diags@,
                self.undefined@ == old(self).undefined@,
                sym_end(self.s@, self.pos as int, self.local_char) == sym_end(self.s@, start as int, self.local_char),
            decreases self.s.len() - self.pos,
        {
            self.pos += 1;
        }
        let name = slice_vec(self.s, start, self.pos);
        match self.lookup(&name) {
            Some(v) => v,
            None => {
                let ghost before = self.undefined@;
                self.undefined.push(name);
                assert(names_view(self.undefined@) =~= names_view(before).push(self.s@.subrange(start as int, self.pos as int)));
                UNDEFINED
            }
        }
    }

    fn value(&mut self) -> (r: Option<i32>)
        requires old(self).wf(),
        ensures final(self).wf(), final(self).env() == old(self).env(),
            (r, final(self).st()) == eval_value(old(self).env(), old(self).st()),
        decreases old(self).s@.len() - old(self).pos, 2int,
    {
        proof { lemma_skip_blanks(self.s@, self.pos as int); }
        self.skip_ws();
        let c = self.peek();
        if c == Some(0x2Du8) {
            self.pos += 1;
            match self.value() {
                Some(v) => Some(neg_value(v)),
                None => None,
            }
        } else if c == Some(0x2Bu8) && !self.compat {
            self.pos += 1;
            self.value()
        } else if c == Some(0x7Eu8) {
            self.pos += 1;
            match self.value() {
                Some(v) => Some(not_value(v)),
                None => None,
            }
        } else if c == Some(0x21u8) {
            self.pos += 1;
            match self.value() {
                Some(v) => Some(if v == 0 { 1 } else { 0 }),
                None => None,
            }
        } else {
            self.primary()
        }
    }

    fn primary(&mut self) -> (r: Option<i32>)
        requires old(self).wf(),
        ensures final(self).wf(), final(self).env() == old(self).env(),
            (r, final(self).st()) == eval_primary(old(self).env(), old(self).st()),
        decreases old(self).s@.len() - old(self).pos, 1int,
    {
        proof { lemma_skip_blanks(self.s@, self.pos as int); }
        self.skip_ws();
        if self.pos >= self.s.len() {
            return None;
        }
        let p = self.pos;
        let c = self.s[p];
        if c == 0x28 {
            self.pos += 1;
            let v = if self.compat { self.acc_loop(0, true, true) } else { self.expr(1) };
            self.skip_ws();
            if self.pos < self.s.len() && self.s[self.pos] == 0x29 {
                self.pos += 1;
            } else {
                self.err(Msg::ParenImbalance);
            }
            Some(v)
        } else if c == 0x24 {
            if p + 1 < self.s.len() && is_hex_byte(self.s[p + 1]) {
                self.pos += 1;
                Some(self.radix(16))
            } else {
                self.pos += 1;
                Some(self.pc)
            }
        } else if c == 0x25 {
            self.pos += 1;
            let q = self.pos;
            if q < self.s.len() && (self.s[q] == 0x30 || self.s[q] == 0x31) {
                Some(self.radix(2))
            } else if self.compat {
                if q < self.s.len() {
                    self.primary()
                } else {
                    Some(self.radix(2))
                }
            } else {
                self.err(Msg::NoBinaryDigit);
                Some(0)
            }
        } else if c == 0x40 {
            self.pos += 1;
            Some(self.radix(8))
        } else if c == 0x2A && !self.star_is_multiply(p) {
            self.pos += 1;
            Some(self.pc)
        } else if c == 0x27 {
            Some(self.char_const())
        } else if is_digit_byte(c) {
            Some(self.number())
        } else if is_alpha_byte(c) || c == 0x5F || c == self.local_char {
            Some(self.symbol())
        } else {
            None
        }
    }

    fn expr(&mut self, min: u8) -> (r: i32)
        requires old(self).wf(), min <= 9,
        ensures final(self).wf(), final(self).env() == old(self).env(),
            (r, final(self).st()) == eval_expr(old(self).env(), old(self).st(), min as int),
        decreases old(self).s@.len() - old(self).pos, 5int,
    {
        let start = self.pos;
        match self.value() {
            None => {
                self.non_unary_at_start();
                0
            }
            Some(v) => {
                if self.pos < start {
                    v
                } else {
                    self.expr_loop(v, min)
                }
            }
        }
    }

    fn expr_loop(&mut self, lhs: i32, min: u8) -> (r: i32)
        requires old(self).wf(), min <= 9,
        ensures final(self).wf(), final(self).env() == old(self).env(),
            (r, final(self).st()) == eval_expr_loop(old(self).env(), old(self).st(), lhs, min as int),
        decreases old(self).s@.len() - old(self).pos, 4int,
    {
        proof { lemma_skip_blanks(self.s@, self.pos as int); }
        let save = self.pos;
        match self.peek_binop() {
            None => lhs,
            Some((op, n)) => {
                if op.prec() < min {
                    lhs
                } else {
                    self.pos += n;
                    match self.value_then(op.prec() + 1) {
                        Some(rhs) => {
                            let v = self.apply(op, lhs, rhs);
                            if self.pos <= save {
                                v
                            } else {
                                self.expr_loop(v, min)
                            }
                        }
                        None => {
                            self.pos = save;
                            lhs
                        }
                    }
                }
            }
        }
    }

    fn value_then(&mut self, min: u8) -> (r: Option<i32>)
        requires old(self).wf(), min <= 9,
        ensures final(self).wf(), final(self).env() == old(self).env(),
            (r, final(self).st()) == eval_value_then(old(self).env(), old(self).st(), min as int),
        decreases old(self).s@.len() - old(self).pos, 5int,
    {
        let save = self.pos;
        match self.value() {
            None => {
                self.pos = save;
                None
            }
            Some(v) => {
                if self.pos < save {
                    Some(v)
                } else {
                    Some(self.vt_loop(v, min))
                }
            }
        }
    }

    fn vt_loop(&mut self, lhs: i32, min: u8) -> (r: i32)
        requires old(self).wf(), min <= 9,
        ensures final(self).wf(), final(self).env() == old(self).env(),
            (r, final(self).st()) == eval_vt_loop(old(self).env(), old(self).st(), lhs, min as int),
        decreases old(self).s@.len() - old(self).pos, 4int,
    {
        proof { lemma_skip_blanks(self.s@, self.pos as int); }
        let mark = self.pos;
        match self.peek_binop() {
            None => lhs,
            Some((op, n)) => {
                if op.prec() < min {
                    lhs
                } else {
                    self.pos += n;
                    match self.value_then(op.prec() + 1) {
                        Some(rhs) => {
                            let v = self.apply(op, lhs, rhs);
                            if self.pos <= mark {
                                v
                            } else {
                                self.vt_loop(v, min)
                            }
                        }
                        None => {
                            self.pos = mark;
                            lhs
                        }
                    }
                }
            }
        }
    }

    fn acc_loop(&mut self, acc: i32, first: bool, in_paren: bool) -> (r: i32)
        requires old(self).wf(),
        ensures final(self).wf(), final(self).env() == old(self).env(),
            (r, final(self).st()) == eval_acc_loop(old(self).env(), old(self).st(), acc, first, in_paren),
        decreases old(self).s@.len() - old(self).pos, 4int,
    {
        proof { lemma_skip_blanks(self.s@, self.pos as int); }
        let start = self.pos;
        self.skip_ws();
        if self.pos >= self.s.len() {
            return acc;
        }
        if in_paren && self.s[self.pos] == 0x29 {
            return acc;
        }
        if first {
            let p = self.pos;
            match self.value() {
                Some(v) => {
                    if self.pos <= start {
                        v
                    } else {
                        self.acc_loop(v, false, in_paren)
                    }
                }
                None => {
                    self.pos = p;
                    self.non_unary_at_start();
                    self.acc_rest(acc, in_paren)
                }
            }
        } else {
            self.acc_rest(acc, in_paren)
        }
    }

    fn acc_rest(&mut self, acc: i32, in_paren: bool) -> (r: i32)
        requires old(self).wf(),
        ensures final(self).wf(), final(self).env() == old(self).env(),
            (r, final(self).st()) == eval_acc_rest(old(self).env(), old(self).st(), acc, in_paren),
        decreases old(self).s@.len() - old(self).pos, 3int,
    {
        proof { lemma_skip_blanks(self.s@, self.pos as int); }
        let save = self.pos;
        match self.peek_binop() {
            Some((op, n)) => {
                self.pos += n;
                match self.value() {
                    Some(rhs) => {
                        let v = self.apply(op, acc, rhs);
                        if self.pos <= save {
                            v
                        } else {
                            self.acc_loop(v, false, in_paren)
                        }
                    }
                    None => {
                        self.pos = save;
                        acc
                    }
                }
            }
            None => {
                let q = self.pos;
                let c = self.peek();
                if c == Some(0x7Eu8) || c == Some(0x21u8) {
                    self.pos += 1;
                    match self.value() {
                        Some(v) => {
                            let a2 = if c == Some(0x7Eu8) { not_value(v) } else if v == 0 { 1 } else { 0 };
                            if self.pos <= save {
                                a2
                            } else {
                                self.acc_loop(a2, false, in_paren)
                            }
                        }
                        None => acc,
                    }
                } else {
                    match self.value() {
                        Some(v) => {
                            if self.pos <= save {
                                v
                            } else {
                                self.acc_loop(v, false, in_paren)
                            }
                        }
                        None => acc,
                    }
                }
            }
        }
    }
}


/// Evaluate `text`. `pc` is the counter at the start of the statement, which
/// is what both `$` and `*` yield; names resolve through `syms`, a name with
/// the local-label character first as `<module>.<name>`.
pub fn eval(text: &[u8], pc: i32, compat: bool, local_char: u8, syms: &Symbols, module: &[u8]) -> (r: Outcome)
    ensures
        ({
            let (v, st) = evaluate(Env { s: text@, pc, compat, lc: local_char, strict: false, syms: *syms, module: module@ });
            &&& r.value == v
            &&& diags_view(r.diags@) == st.diags
            &&& names_view(r.undefined@) == st.undef
        }),
{
    assert(0u32 & 0x08u32 == 0) by (bit_vector);
    eval_strict(text, pc, compat, local_char, 0, syms, module)
}

/// As `eval`, with the strict-check mask: bit 0x08 reports an operator where
/// a value was expected at the start.
pub fn eval_strict(text: &[u8], pc: i32, compat: bool, local_char: u8, strict: u32, syms: &Symbols, module: &[u8]) -> (r: Outcome)
    ensures
        ({
            let (v, st) = evaluate(Env { s: text@, pc, compat, lc: local_char, strict: strict & 0x08 != 0, syms: *syms, module: module@ });
            &&& r.value == v
            &&& diags_view(r.diags@) == st.diags
            &&& names_view(r.undefined@) == st.undef
        }),
{
    let mut e = Eval {
        s: text,
        pos: 0,
        pc,
        compat,
        local_char,
        syms,
        module,
        diags: Vec::new(),
        undefined: Vec::new(),
        check_non_unary: strict & 0x08 != 0,
    };
    assert(diags_view(e.diags@) =~= Seq::<(Msg, Option<Seq<u8>>)>::empty());
    assert(names_view(e.undefined@) =~= Seq::<Seq<u8>>::empty());
    assert(e.st() == St { pos: 0, diags: Seq::empty(), undef: Seq::empty() });
    assert(e.env() == Env { s: text@, pc, compat, lc: local_char, strict: strict & 0x08 != 0, syms: *syms, module: module@ });
    let value = if compat { e.acc_loop(0, true, false) } else { e.expr(1) };
    Outcome { value, diags: e.diags, undefined: e.undefined }
}

} // verus!
