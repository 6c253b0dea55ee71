//! Byte-level text: character classes, case folding, trimming, splitting into
//! fields and reading numbers. Source, tables and options are handled as
//! bytes throughout; only ASCII carries meaning.

use vstd::prelude::*;

verus! {

pub open spec fn is_digit(c: u8) -> bool {
    0x30 <= c <= 0x39
}

pub open spec fn is_upper(c: u8) -> bool {
    0x41 <= c <= 0x5A
}

pub open spec fn is_lower(c: u8) -> bool {
    0x61 <= c <= 0x7A
}

pub open spec fn is_alpha(c: u8) -> bool {
    is_upper(c) || is_lower(c)
}

pub open spec fn is_alnum(c: u8) -> bool {
    is_alpha(c) || is_digit(c)
}

pub open spec fn is_hex_digit(c: u8) -> bool {
    is_digit(c) || (0x41 <= c <= 0x46) || (0x61 <= c <= 0x66)
}

/// Space or tab: the separators inside a source statement.
pub open spec fn is_blank(c: u8) -> bool {
    c == 0x20 || c == 0x09
}

/// ASCII white space: space, tab, line feed, vertical tab, form feed, return.
pub open spec fn is_ws(c: u8) -> bool {
    c == 0x20 || c == 0x09 || c == 0x0A || c == 0x0B || c == 0x0C || c == 0x0D
}

pub open spec fn upper(c: u8) -> u8 {
    if is_lower(c) { (c - 32) as u8 } else { c }
}

pub open spec fn upper_seq(s: Seq<u8>) -> Seq<u8> {
    s.map_values(|c: u8| upper(c))
}

/// The value of a digit in base 2 to 16, letters read case-insensitively.
pub open spec fn digit_value(c: u8) -> int {
    if is_digit(c) {
        c - 0x30
    } else if 0x41 <= c <= 0x5A {
        c - 0x41 + 10
    } else if 0x61 <= c <= 0x7A {
        c - 0x61 + 10
    } else {
        99
    }
}

pub open spec fn is_digit_in(c: u8, base: int) -> bool {
    digit_value(c) < base
}

pub fn is_digit_byte(c: u8) -> (r: bool)
    returns is_digit(c),
{
    0x30 <= c && c <= 0x39
}

pub fn is_upper_byte(c: u8) -> (r: bool)
    returns is_upper(c),
{
    0x41 <= c && c <= 0x5A
}

pub fn is_alpha_byte(c: u8) -> (r: bool)
    returns is_alpha(c),
{
    (0x41 <= c && c <= 0x5A) || (0x61 <= c && c <= 0x7A)
}

pub fn is_alnum_byte(c: u8) -> (r: bool)
    returns is_alnum(c),
{
    is_alpha_byte(c) || is_digit_byte(c)
}

pub fn is_hex_byte(c: u8) -> (r: bool)
    returns is_hex_digit(c),
{
    is_digit_byte(c) || (0x41 <= c && c <= 0x46) || (0x61 <= c && c <= 0x66)
}

pub fn is_blank_byte(c: u8) -> (r: bool)
    returns is_blank(c),
{
    c == 0x20 || c == 0x09
}

pub fn is_ws_byte(c: u8) -> (r: bool)
    returns is_ws(c),
{
    c == 0x20 || c == 0x09 || c == 0x0A || c == 0x0B || c == 0x0C || c == 0x0D
}

pub fn upper_byte(c: u8) -> (r: u8)
    returns upper(c),
{
    if 0x61 <= c && c <= 0x7A { c - 32 } else { c }
}

/// The digit's value in `base`, or `None` when it is not a digit there.
pub fn digit_in(c: u8, base: u32) -> (r: Option<u32>)
    requires 2 <= base <= 16,
    ensures
        r is Some <==> is_digit_in(c, base as int),
        r matches Some(d) ==> d == digit_value(c) && d < base,
{
    let v: u32 = if 0x30 <= c && c <= 0x39 {
        (c - 0x30) as u32
    } else if 0x41 <= c && c <= 0x5A {
        (c - 0x41 + 10) as u32
    } else if 0x61 <= c && c <= 0x7A {
        (c - 0x61 + 10) as u32
    } else {
        99
    };
    if v < base { Some(v) } else { None }
}

/// A copy of `s` with every lower-case letter raised.
pub fn to_upper(s: &[u8]) -> (r: Vec<u8>)
    ensures r@ == upper_seq(s@),
{
    let mut out: Vec<u8> = Vec::new();
    let mut i: usize = 0;
    while i < s.len()
        invariant
            i <= s.len(),
            out@ == upper_seq(s@.subrange(0, i as int)),
        decreases s.len() - i,
    {
        out.push(upper_byte(s[i]));
        assert(upper_seq(s@.subrange(0, i + 1)) =~= upper_seq(s@.subrange(0, i as int)).push(upper(s@[i as int])));
        i += 1;
    }
    assert(s@.subrange(0, s@.len() as int) =~= s@);
    out
}

pub fn bytes_eq(a: &[u8], b: &[u8]) -> (r: bool)
    returns a@ == b@,
{
    if a.len() != b.len() {
        return false;
    }
    let mut i: usize = 0;
    while i < a.len()
        invariant
            a.len() == b.len(),
            i <= a.len(),
            a@.subrange(0, i as int) == b@.subrange(0, i as int),
        decreases a.len() - i,
    {
        if a[i] != b[i] {
            return false;
        }
        assert(a@.subrange(0, i + 1) =~= a@.subrange(0, i as int).push(a@[i as int]));
        assert(b@.subrange(0, i + 1) =~= b@.subrange(0, i as int).push(b@[i as int]));
        i += 1;
    }
    assert(a@ =~= a@.subrange(0, i as int));
    assert(b@ =~= b@.subrange(0, i as int));
    true
}

/// `a` is a prefix of `b`.
pub fn starts_with(b: &[u8], a: &[u8]) -> (r: bool)
    returns a@.len() <= b@.len() && b@.subrange(0, a@.len() as int) == a@,
{
    if a.len() > b.len() {
        return false;
    }
    let mut i: usize = 0;
    while i < a.len()
        invariant
            a.len() <= b.len(),
            i <= a.len(),
            a@.subrange(0, i as int) == b@.subrange(0, i as int),
        decreases a.len() - i,
    {
        if a[i] != b[i] {
            assert(b@.subrange(0, a@.len() as int)[i as int] != a@[i as int]);
            return false;
        }
        assert(a@.subrange(0, i + 1) =~= a@.subrange(0, i as int).push(a@[i as int]));
        assert(b@.subrange(0, i + 1) =~= b@.subrange(0, i as int).push(b@[i as int]));
        i += 1;
    }
    assert(a@ =~= a@.subrange(0, i as int));
    true
}

/// A copy of `s[lo..hi]`.
pub fn slice_vec(s: &[u8], lo: usize, hi: usize) -> (r: Vec<u8>)
    requires lo <= hi <= s.len(),
    ensures r@ == s@.subrange(lo as int, hi as int),
{
    let mut out: Vec<u8> = Vec::new();
    let mut i: usize = lo;
    while i < hi
        invariant
            lo <= i <= hi <= s.len(),
            out@ == s@.subrange(lo as int, i as int),
        decreases hi - i,
    {
        out.push(s[i]);
        assert(s@.subrange(lo as int, i + 1) =~= s@.subrange(lo as int, i as int).push(s@[i as int]));
        i += 1;
    }
    out
}

/// Append all of `b` to `out`.
pub fn push_all(out: &mut Vec<u8>, b: &[u8])
    ensures final(out)@ == old(out)@ + b@,
{
    let mut i: usize = 0;
    while i < b.len()
        invariant
            i <= b.len(),
            out@ == old(out)@ + b@.subrange(0, i as int),
        decreases b.len() - i,
    {
        out.push(b[i]);
        assert(b@.subrange(0, i + 1) =~= b@.subrange(0, i as int).push(b@[i as int]));
        assert(old(out)@ + b@.subrange(0, i + 1) =~= (old(out)@ + b@.subrange(0, i as int)).push(b@[i as int]));
        i += 1;
    }
    assert(b@ =~= b@.subrange(0, b@.len() as int));
}

// --- trimming -----------------------------------------------------------------

/// Index of the first byte that is not white space, from `i` on.
pub open spec fn skip_ws_from(s: Seq<u8>, i: int) -> int
    decreases s.len() - i,
{
    if i < 0 || i >= s.len() { if i < 0 { 0 } else { i } }
    else if is_ws(s[i]) { skip_ws_from(s, i + 1) }
    else { i }
}

/// One past the last byte that is not white space, looking below `j`.
pub open spec fn trim_end_at(s: Seq<u8>, j: int) -> int
    decreases j,
{
    if j <= 0 { 0 }
    else if j > s.len() { trim_end_at(s, s.len() as int) }
    else if is_ws(s[j - 1]) { trim_end_at(s, j - 1) }
    else { j }
}

pub open spec fn trim_start(s: Seq<u8>) -> Seq<u8> {
    s.subrange(skip_ws_from(s, 0), s.len() as int)
}

pub open spec fn trim_end(s: Seq<u8>) -> Seq<u8> {
    s.subrange(0, trim_end_at(s, s.len() as int))
}

pub open spec fn trim(s: Seq<u8>) -> Seq<u8> {
    trim_end(trim_start(s))
}

pub proof fn lemma_skip_ws_bounds(s: Seq<u8>, i: int)
    requires 0 <= i <= s.len(),
    ensures
        i <= skip_ws_from(s, i) <= s.len(),
        forall|k: int| i <= k < skip_ws_from(s, i) ==> is_ws(#[trigger] s[k]),
        skip_ws_from(s, i) < s.len() ==> !is_ws(s[skip_ws_from(s, i)]),
    decreases s.len() - i,
{
    if i < s.len() && is_ws(s[i]) {
        lemma_skip_ws_bounds(s, i + 1);
    }
}

pub proof fn lemma_trim_end_bounds(s: Seq<u8>, j: int)
    requires 0 <= j <= s.len(),
    ensures
        0 <= trim_end_at(s, j) <= j,
        forall|k: int| trim_end_at(s, j) <= k < j ==> is_ws(#[trigger] s[k]),
        trim_end_at(s, j) > 0 ==> !is_ws(s[trim_end_at(s, j) - 1]),
    decreases j,
{
    if j > 0 && is_ws(s[j - 1]) {
        lemma_trim_end_bounds(s, j - 1);
    }
}

pub fn skip_ws(s: &[u8], i: usize) -> (r: usize)
    requires i <= s.len(),
    ensures r == skip_ws_from(s@, i as int), i <= r <= s.len(),
{
    proof { lemma_skip_ws_bounds(s@, i as int); }
    let mut k = i;
    while k < s.len() && is_ws_byte(s[k])
        invariant
            i <= k <= s.len(),
            skip_ws_from(s@, k as int) == skip_ws_from(s@, i as int),
        decreases s.len() - k,
    {
        k += 1;
    }
    k
}

pub fn trim_end_index(s: &[u8], j: usize) -> (r: usize)
    requires j <= s.len(),
    ensures r == trim_end_at(s@, j as int), r <= j,
{
    proof { lemma_trim_end_bounds(s@, j as int); }
    let mut k = j;
    while k > 0 && is_ws_byte(s[k - 1])
        invariant
            k <= j <= s.len(),
            trim_end_at(s@, k as int) == trim_end_at(s@, j as int),
        decreases k,
    {
        k -= 1;
    }
    k
}

/// `s` without leading and trailing white space.
pub fn trim_bytes(s: &[u8]) -> (r: Vec<u8>)
    ensures r@ == trim(s@),
{
    let a = skip_ws(s, 0);
    let t = slice_vec(s, a, s.len());
    let b = trim_end_index(&t, t.len());
    slice_vec(&t, 0, b)
}

/// `s` without leading white space.
pub fn trim_start_bytes(s: &[u8]) -> (r: Vec<u8>)
    ensures r@ == trim_start(s@),
{
    let a = skip_ws(s, 0);
    slice_vec(s, a, s.len())
}

// --- fields -------------------------------------------------------------------

/// One past the end of the run of non-white-space bytes starting at `i`.
pub open spec fn field_end(s: Seq<u8>, i: int) -> int
    decreases s.len() - i,
{
    if i < 0 || i >= s.len() { if i < 0 { 0 } else { i } }
    else if is_ws(s[i]) { i }
    else { field_end(s, i + 1) }
}

pub proof fn lemma_field_end_bounds(s: Seq<u8>, i: int)
    requires 0 <= i <= s.len(),
    ensures
        i <= field_end(s, i) <= s.len(),
        forall|k: int| i <= k < field_end(s, i) ==> !is_ws(#[trigger] s[k]),
        field_end(s, i) < s.len() ==> is_ws(s[field_end(s, i)]),
    decreases s.len() - i,
{
    if i < s.len() && !is_ws(s[i]) {
        lemma_field_end_bounds(s, i + 1);
    }
}

/// The white-space separated fields of `s[i..]`, in order.
pub open spec fn fields_from(s: Seq<u8>, i: int) -> Seq<Seq<u8>>
    decreases s.len() - i,
{
    if i < 0 || i >= s.len() {
        Seq::empty()
    } else {
        let a = skip_ws_from(s, i);
        if a >= s.len() || a < i {
            Seq::empty()
        } else {
            let b = field_end(s, a);
            if b <= a || b > s.len() {
                Seq::empty()
            } else {
                seq![s.subrange(a, b)] + fields_from(s, b)
            }
        }
    }
}

pub open spec fn fields(s: Seq<u8>) -> Seq<Seq<u8>> {
    fields_from(s, 0)
}

/// The white-space separated fields of `s`.
pub fn split_fields(s: &[u8]) -> (r: Vec<Vec<u8>>)
    ensures r@.map_values(|v: Vec<u8>| v@) == fields(s@),
{
    let mut out: Vec<Vec<u8>> = Vec::new();
    let mut i: usize = 0;
    while i < s.len()
        invariant
            i <= s.len(),
            out@.map_values(|v: Vec<u8>| v@) + fields_from(s@, i as int) == fields(s@),
        decreases s.len() - i,
    {
        proof { lemma_skip_ws_bounds(s@, i as int); }
        let a = skip_ws(s, i);
        if a >= s.len() {
            assert(fields_from(s@, i as int) =~= Seq::<Seq<u8>>::empty());
            assert(fields_from(s@, s@.len() as int) =~= Seq::<Seq<u8>>::empty());
            i = s.len();
            continue;
        }
        proof { lemma_field_end_bounds(s@, a as int); }
        let mut b = a;
        while b < s.len() && !is_ws_byte(s[b])
            invariant
                a <= b <= s.len(),
                field_end(s@, b as int) == field_end(s@, a as int),
            decreases s.len() - b,
        {
            b += 1;
        }
        let f = slice_vec(s, a, b);
        let ghost before = out@.map_values(|v: Vec<u8>| v@);
        out.push(f);
        assert(out@.map_values(|v: Vec<u8>| v@) =~= before.push(s@.subrange(a as int, b as int)));
        assert(fields_from(s@, i as int) == seq![s@.subrange(a as int, b as int)] + fields_from(s@, b as int));
        assert(before.push(s@.subrange(a as int, b as int)) + fields_from(s@, b as int)
            =~= before + (seq![s@.subrange(a as int, b as int)] + fields_from(s@, b as int)));
        i = b;
    }
    assert(fields_from(s@, i as int) =~= Seq::<Seq<u8>>::empty());
    assert(out@.map_values(|v: Vec<u8>| v@) + Seq::<Seq<u8>>::empty() =~= out@.map_values(|v: Vec<u8>| v@));
    out
}

// --- numbers ------------------------------------------------------------------

pub open spec fn sat_step(v: int, base: int, d: int) -> int {
    if v * base + d > 0xFFFF_FFFF { 0xFFFF_FFFF } else { v * base + d }
}

/// How many leading bytes of `s` are digits in `base`.
pub open spec fn digit_run(s: Seq<u8>, base: int) -> int
    decreases s.len(),
{
    if s.len() == 0 || !is_digit_in(s[0], base) { 0 } else { 1 + digit_run(s.drop_first(), base) }
}

/// The saturating value of the first `n` digits of `s` in `base`.
pub open spec fn sat_value(s: Seq<u8>, n: int, base: int) -> int
    decreases n,
{
    if n <= 0 { 0 } else { sat_step(sat_value(s, n - 1, base), base, digit_value(s[n - 1])) }
}

/// A leading run of digits in `base`, saturating at `u32::MAX`; 0 for none.
pub open spec fn sat_number(s: Seq<u8>, base: int) -> int {
    sat_value(s, digit_run(s, base), base)
}

pub proof fn lemma_digit_run(s: Seq<u8>, base: int, k: int)
    requires 0 <= k,
    ensures
        0 <= digit_run(s, base) <= s.len(),
        k < digit_run(s, base) ==> is_digit_in(s[k], base),
        digit_run(s, base) < s.len() ==> !is_digit_in(s[digit_run(s, base)], base),
    decreases s.len(),
{
    if s.len() > 0 && is_digit_in(s[0], base) {
        let t = s.drop_first();
        if k > 0 {
            lemma_digit_run(t, base, k - 1);
            if k < digit_run(s, base) {
                assert(s[k] == t[k - 1]);
            }
        } else {
            lemma_digit_run(t, base, 0);
        }
        if digit_run(s, base) < s.len() {
            assert(s[digit_run(s, base)] == t[digit_run(t, base)]);
        }
    }
}

pub proof fn lemma_sat_value_bounds(s: Seq<u8>, n: int, base: int)
    requires 2 <= base <= 16, forall|k: int| 0 <= k < n ==> is_digit_in(#[trigger] s[k], base),
    ensures 0 <= sat_value(s, n, base) <= 0xFFFF_FFFF,
    decreases n,
{
    if n > 0 {
        lemma_sat_value_bounds(s, n - 1, base);
    }
}

/// Read the leading digits of `s` in `base`, saturating; 0 when there are none.
pub fn read_number(s: &[u8], base: u32) -> (r: u32)
    requires 2 <= base <= 16,
    ensures r == sat_number(s@, base as int),
{
    proof { lemma_digit_run(s@, base as int, 0); }
    let mut v: u32 = 0;
    let mut i: usize = 0;
    while i < s.len()
        invariant
            2 <= base <= 16,
            i <= digit_run(s@, base as int) <= s.len(),
            v == sat_value(s@, i as int, base as int),
        ensures
            v == sat_value(s@, digit_run(s@, base as int), base as int),
        decreases s.len() - i,
    {
        match digit_in(s[i], base) {
            Some(d) => {
                proof {
                    if i == digit_run(s@, base as int) {
                        lemma_digit_run(s@, base as int, i as int);
                    }
                }
                assert(v as u64 * base as u64 <= 0xFFFF_FFFF * 16) by (nonlinear_arith)
                    requires v <= 0xFFFF_FFFF, base <= 16;
                let next: u64 = v as u64 * base as u64 + d as u64;
                v = if next > 0xFFFF_FFFF { 0xFFFF_FFFF } else { next as u32 };
                i += 1;
            }
            None => {
                proof { lemma_digit_run(s@, base as int, i as int); }
                break;
            }
        }
    }
    proof { lemma_digit_run(s@, base as int, i as int); }
    v
}

/// Every byte of `s` is a hex digit, and there is at least one.
pub open spec fn all_hex(s: Seq<u8>) -> bool {
    s.len() > 0 && forall|k: int| 0 <= k < s.len() ==> is_hex_digit(#[trigger] s[k])
}

pub fn is_all_hex(s: &[u8]) -> (r: bool)
    returns all_hex(s@),
{
    if s.len() == 0 {
        return false;
    }
    let mut i: usize = 0;
    while i < s.len()
        invariant
            i <= s.len(),
            forall|k: int| 0 <= k < i ==> is_hex_digit(#[trigger] s@[k]),
        decreases s.len() - i,
    {
        if !is_hex_byte(s[i]) {
            return false;
        }
        i += 1;
    }
    true
}

/// Every byte of `s` is a decimal digit, and there is at least one.
pub open spec fn all_dec(s: Seq<u8>) -> bool {
    s.len() > 0 && forall|k: int| 0 <= k < s.len() ==> is_digit(#[trigger] s[k])
}

pub fn is_all_dec(s: &[u8]) -> (r: bool)
    returns all_dec(s@),
{
    if s.len() == 0 {
        return false;
    }
    let mut i: usize = 0;
    while i < s.len()
        invariant
            i <= s.len(),
            forall|k: int| 0 <= k < i ==> is_digit(#[trigger] s@[k]),
        decreases s.len() - i,
    {
        if !is_digit_byte(s[i]) {
            return false;
        }
        i += 1;
    }
    true
}

} // verus!
