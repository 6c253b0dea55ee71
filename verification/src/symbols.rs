//! The symbol table: names in definition order, found by exact name or, with
//! case folding on, by name ignoring case.

use vstd::prelude::*;
use crate::limits::{MAX_LABEL, MAX_SYMBOLS};
use crate::text::{upper_seq, to_upper, bytes_eq, push_all, slice_vec};

verus! {

#[derive(Clone, Copy, PartialEq, Eq, Debug, Structural)]
pub enum Segment {
    Null,
    Code,
    Bit,
    Extd,
    Data,
}

pub open spec fn segment_letter(s: Segment) -> u8 {
    match s {
        Segment::Null => 0x4E,
        Segment::Code => 0x43,
        Segment::Bit => 0x42,
        Segment::Extd => 0x58,
        Segment::Data => 0x44,
    }
}

impl Segment {
    /// The letter shown in the label table and the symbol file.
    pub fn letter(self) -> (r: u8)
        returns segment_letter(self),
    {
        match self {
            Segment::Null => 0x4E,
            Segment::Code => 0x43,
            Segment::Bit => 0x42,
            Segment::Extd => 0x58,
            Segment::Data => 0x44,
        }
    }
}

#[derive(Clone, Debug)]
pub struct Symbol {
    pub name: Vec<u8>,
    pub value: i32,
    pub segment: Segment,
    pub local: bool,
    pub exported: bool,
}

pub struct Symbols {
    /// In definition order.
    pub list: Vec<Symbol>,
    pub ignore_case: bool,
    pub overflowed: bool,
}

/// The name under which a symbol is found.
pub open spec fn symbol_key(ignore_case: bool, name: Seq<u8>) -> Seq<u8> {
    if ignore_case { upper_seq(name) } else { name }
}

/// The index of the symbol found under `name`, if any: the first whose key
/// matches.
pub open spec fn find_symbol(list: Seq<Symbol>, ignore_case: bool, name: Seq<u8>) -> Option<int>
    decreases list.len(),
{
    if list.len() == 0 {
        None
    } else {
        match find_symbol(list.drop_last(), ignore_case, name) {
            Some(i) => Some(i),
            None => if symbol_key(ignore_case, list.last().name@) == symbol_key(ignore_case, name) {
                Some(list.len() - 1)
            } else {
                None
            },
        }
    }
}

pub proof fn lemma_find_symbol(list: Seq<Symbol>, ic: bool, name: Seq<u8>)
    ensures
        find_symbol(list, ic, name) matches Some(i) ==> 0 <= i < list.len()
            && symbol_key(ic, list[i].name@) == symbol_key(ic, name)
            && forall|j: int| 0 <= j < i ==> symbol_key(ic, #[trigger] list[j].name@) != symbol_key(ic, name),
        find_symbol(list, ic, name) is None ==>
            forall|j: int| 0 <= j < list.len() ==> symbol_key(ic, #[trigger] list[j].name@) != symbol_key(ic, name),
    decreases list.len(),
{
    if list.len() > 0 {
        lemma_find_symbol(list.drop_last(), ic, name);
        assert forall|j: int| 0 <= j < list.len() - 1 implies #[trigger] list[j] == list.drop_last()[j] by {}
    }
}

pub proof fn lemma_find_symbol_push(list: Seq<Symbol>, ic: bool, name: Seq<u8>, s: Symbol)
    ensures
        find_symbol(list.push(s), ic, name) == (match find_symbol(list, ic, name) {
            Some(i) => Some(i),
            None => if symbol_key(ic, s.name@) == symbol_key(ic, name) { Some(list.len() as int) } else { None },
        }),
{
    assert(list.push(s).drop_last() =~= list);
}

pub proof fn lemma_find_symbol_update(list: Seq<Symbol>, ic: bool, name: Seq<u8>, k: int, s: Symbol)
    requires 0 <= k < list.len(), s.name@ == list[k].name@,
    ensures find_symbol(list.update(k, s), ic, name) == find_symbol(list, ic, name),
    decreases list.len(),
{
    if k == list.len() - 1 {
        assert(list.update(k, s).drop_last() =~= list.drop_last());
    } else {
        assert(list.update(k, s).drop_last() =~= list.drop_last().update(k, s));
        lemma_find_symbol_update(list.drop_last(), ic, name, k, s);
    }
}

proof fn lemma_find_by_key(list: Seq<Symbol>, ignore_case: bool, a: Seq<u8>, b: Seq<u8>)
    requires symbol_key(ignore_case, a) == symbol_key(ignore_case, b),
    ensures find_symbol(list, ignore_case, a) == find_symbol(list, ignore_case, b),
    decreases list.len(),
{
    if list.len() > 0 { lemma_find_by_key(list.drop_last(), ignore_case, a, b); }
}

/// With case folding on (`-i`), looking a name up does not depend on the
/// case of its letters: two spellings that differ only in case find the same
/// symbol, and every name finds what its upper-case spelling finds. With it
/// off, a lookup finds only a symbol defined under exactly that name.
pub proof fn lemma_lookup_case(s: Symbols, a: Seq<u8>, b: Seq<u8>)
    ensures
        s.ignore_case && upper_seq(a) == upper_seq(b) ==> s.lookup(a) == s.lookup(b),
        s.ignore_case ==> s.lookup(a) == s.lookup(upper_seq(a)),
        !s.ignore_case && s.lookup(a) is Some ==> s.lookup(a)->0.name@ == a,
{
    if s.ignore_case {
        if upper_seq(a) == upper_seq(b) { lemma_find_by_key(s.list@, true, a, b); }
        assert(upper_seq(upper_seq(a)) =~= upper_seq(a));
        lemma_find_by_key(s.list@, true, a, upper_seq(a));
    } else {
        lemma_find_symbol(s.list@, false, a);
    }
}

impl Symbols {
    /// No two symbols share a key, and the capacity is respected.
    pub open spec fn wf(&self) -> bool {
        &&& self.list@.len() <= MAX_SYMBOLS
        &&& forall|i: int, j: int| 0 <= i < j < self.list@.len() ==>
            symbol_key(self.ignore_case, #[trigger] self.list@[i].name@)
                != symbol_key(self.ignore_case, #[trigger] self.list@[j].name@)
    }

    /// The symbol found under `name`.
    pub open spec fn lookup(&self, name: Seq<u8>) -> Option<Symbol> {
        match find_symbol(self.list@, self.ignore_case, name) {
            Some(i) => Some(self.list@[i]),
            None => None,
        }
    }

    /// The value found under `name`.
    pub open spec fn value_of(&self, name: Seq<u8>) -> Option<i32> {
        match self.lookup(name) {
            Some(s) => Some(s.value),
            None => None,
        }
    }

    pub fn new(ignore_case: bool) -> (r: Symbols)
        ensures r.wf(), r.list@.len() == 0, r.ignore_case == ignore_case, !r.overflowed,
    {
        Symbols { list: Vec::new(), ignore_case, overflowed: false }
    }

    fn key(&self, name: &[u8]) -> (r: Vec<u8>)
        ensures r@ == symbol_key(self.ignore_case, name@),
    {
        if self.ignore_case { to_upper(name) } else { slice_vec(name, 0, name.len()) }
    }

    fn position(&self, name: &[u8]) -> (r: Option<usize>)
        ensures
            r matches Some(i) ==> i < self.list@.len() && find_symbol(self.list@, self.ignore_case, name@) == Some(i as int),
            r is None ==> find_symbol(self.list@, self.ignore_case, name@) is None,
    {
        let k = self.key(name);
        let mut i: usize = 0;
        while i < self.list.len()
            invariant
                i <= self.list@.len(),
                k@ == symbol_key(self.ignore_case, name@),
                find_symbol(self.list@.subrange(0, i as int), self.ignore_case, name@) is None,
            decreases self.list.len() - i,
        {
            let ki = self.key(&self.list[i].name);
            proof {
                lemma_find_symbol_push(self.list@.subrange(0, i as int), self.ignore_case, name@, self.list@[i as int]);
                assert(self.list@.subrange(0, i as int).push(self.list@[i as int]) =~= self.list@.subrange(0, i + 1));
            }
            if bytes_eq(&ki, &k) {
                proof {
                    assert(find_symbol(self.list@.subrange(0, i + 1), self.ignore_case, name@) == Some(i as int));
                    self.lemma_prefix_find(i as int + 1, i as int, name@);
                }
                return Some(i);
            }
            i += 1;
        }
        assert(self.list@.subrange(0, i as int) =~= self.list@);
        None
    }

    proof fn lemma_prefix_find(&self, n: int, k: int, name: Seq<u8>)
        requires 0 <= n <= self.list@.len(),
            find_symbol(self.list@.subrange(0, n), self.ignore_case, name) == Some(k),
        ensures find_symbol(self.list@, self.ignore_case, name) == Some(k),
        decreases self.list@.len() - n,
    {
        if n < self.list@.len() {
            lemma_find_symbol_push(self.list@.subrange(0, n), self.ignore_case, name, self.list@[n]);
            assert(self.list@.subrange(0, n).push(self.list@[n]) =~= self.list@.subrange(0, n + 1));
            self.lemma_prefix_find(n + 1, k, name);
        } else {
            assert(self.list@.subrange(0, n) =~= self.list@);
        }
    }

    /// A name longer than the label limit is cut to it; the flag reports that.
    pub fn truncate(name: &[u8]) -> (r: (Vec<u8>, bool))
        ensures
            r.1 == (name@.len() > MAX_LABEL),
            r.0@ == if r.1 { name@.subrange(0, MAX_LABEL as int) } else { name@ },
    {
        if name.len() > MAX_LABEL {
            (slice_vec(name, 0, MAX_LABEL), true)
        } else {
            (slice_vec(name, 0, name.len()), false)
        }
    }

    /// A name beginning with the local-label character is stored as
    /// `<module>.<name>`; the flag reports a local label.
    pub fn qualify(name: &[u8], local_char: u8, module: &[u8]) -> (r: (Vec<u8>, bool))
        ensures
            r.1 == (name@.len() > 0 && name@[0] == local_char),
            r.0@ == qualified(name@, local_char, module@),
    {
        if name.len() > 0 && name[0] == local_char {
            let mut out = slice_vec(module, 0, module.len());
            out.push(0x2E);
            push_all(&mut out, name);
            (out, true)
        } else {
            (slice_vec(name, 0, name.len()), false)
        }
    }

    pub fn get(&self, name: &[u8]) -> (r: Option<&Symbol>)
        ensures r == (match self.lookup(name@) { Some(s) => Some(&s), None => None::<&Symbol> }),
    {
        match self.position(name) {
            Some(i) => Some(&self.list[i]),
            None => None,
        }
    }

    pub fn value(&self, name: &[u8]) -> (r: Option<i32>)
        ensures r == self.value_of(name@),
    {
        match self.position(name) {
            Some(i) => Some(self.list[i].value),
            None => None,
        }
    }

    pub fn contains(&self, name: &[u8]) -> (r: bool)
        ensures r == (self.lookup(name@) is Some),
    {
        self.position(name).is_some()
    }

    /// Define a symbol. False when the name already exists: the first
    /// definition stands. When the table is full the symbol is dropped and
    /// `overflowed` is set.
    pub fn define(&mut self, name: &[u8], value: i32, segment: Segment, local: bool) -> (r: bool)
        requires old(self).wf(),
        ensures
            final(self).wf(),
            final(self).ignore_case == old(self).ignore_case,
            r == (old(self).lookup(name@) is None),
            !r ==> *final(self) == *old(self),
            r && old(self).list@.len() >= MAX_SYMBOLS ==>
                final(self).list@ == old(self).list@ && final(self).overflowed,
            r && old(self).list@.len() < MAX_SYMBOLS ==> {
                &&& final(self).list@.len() == old(self).list@.len() + 1
                &&& final(self).list@.subrange(0, old(self).list@.len() as int) == old(self).list@
                &&& final(self).list@.last().name@ == name@
                &&& final(self).list@.last().value == value
                &&& final(self).list@.last().segment == segment
                &&& final(self).list@.last().local == local
                &&& !final(self).list@.last().exported
                &&& final(self).overflowed == old(self).overflowed
                &&& final(self).value_of(name@) == Some(value)
                &&& forall|m: Seq<u8>| symbol_key(old(self).ignore_case, m) != symbol_key(old(self).ignore_case, name@)
                    ==> #[trigger] final(self).value_of(m) == old(self).value_of(m)
            },
    {
        if self.position(name).is_some() {
            return false;
        }
        if self.list.len() >= MAX_SYMBOLS {
            self.overflowed = true;
            return true;
        }
        proof { lemma_find_symbol(self.list@, self.ignore_case, name@); }
        let n = slice_vec(name, 0, name.len());
        assert(name@.subrange(0, name@.len() as int) =~= name@);
        let ghost before = self.list@;
        self.list.push(Symbol { name: n, value, segment, local, exported: false });
        assert(self.list@.subrange(0, before.len() as int) =~= before);
        assert forall|i: int, j: int| 0 <= i < j < self.list@.len() implies
            symbol_key(self.ignore_case, #[trigger] self.list@[i].name@)
                != symbol_key(self.ignore_case, #[trigger] self.list@[j].name@) by {
            if j == before.len() {
                assert(self.list@[i] == before[i]);
                assert(symbol_key(self.ignore_case, before[i].name@) != symbol_key(self.ignore_case, name@));
            } else {
                assert(self.list@[i] == before[i]);
                assert(self.list@[j] == before[j]);
            }
        }
        proof {
            lemma_find_symbol_push(before, self.ignore_case, name@, self.list@.last());
            assert(before.push(self.list@.last()) =~= self.list@);
            assert forall|m: Seq<u8>| symbol_key(self.ignore_case, m) != symbol_key(self.ignore_case, name@)
                implies #[trigger] self.value_of(m) == old(self).value_of(m) by {
                lemma_find_symbol_push(before, self.ignore_case, m, self.list@.last());
                lemma_find_symbol(before, self.ignore_case, m);
            }
        }
        true
    }

    /// Re-assign an existing symbol; false (and no change) when there is none.
    pub fn set(&mut self, name: &[u8], value: i32) -> (r: bool)
        requires old(self).wf(),
        ensures
            final(self).wf(),
            r == (old(self).lookup(name@) is Some),
            final(self).ignore_case == old(self).ignore_case,
            final(self).overflowed == old(self).overflowed,
            !r ==> final(self).list@ == old(self).list@,
            r ==> final(self).list@ == old(self).list@.update(
                find_symbol(old(self).list@, old(self).ignore_case, name@)->0,
                Symbol { value, ..old(self).list@[find_symbol(old(self).list@, old(self).ignore_case, name@)->0] }),
    {
        match self.position(name) {
            Some(i) => {
                proof { lemma_find_symbol(self.list@, self.ignore_case, name@); }
                let ghost k = i as int;
                let ghost before = self.list@;
                self.list[i].value = value;
                assert(self.list@ =~= before.update(k, Symbol { value, ..before[k] }));
                proof { lemma_find_symbol_update(before, self.ignore_case, name@, k, self.list@[k]); }
                true
            }
            None => false,
        }
    }

    /// Overwrite the value of an existing symbol; nothing when there is none.
    pub fn redefine(&mut self, name: &[u8], value: i32)
        requires old(self).wf(),
        ensures
            final(self).wf(),
            final(self).ignore_case == old(self).ignore_case,
            final(self).overflowed == old(self).overflowed,
            old(self).lookup(name@) is None ==> final(self).list@ == old(self).list@,
            old(self).lookup(name@) is Some ==> final(self).list@ == old(self).list@.update(
                find_symbol(old(self).list@, old(self).ignore_case, name@)->0,
                Symbol { value, ..old(self).list@[find_symbol(old(self).list@, old(self).ignore_case, name@)->0] }),
    {
        let _ = self.set(name, value);
    }

    /// Mark an existing symbol for the export file.
    pub fn export(&mut self, name: &[u8])
        requires old(self).wf(),
        ensures
            final(self).wf(),
            final(self).ignore_case == old(self).ignore_case,
            final(self).overflowed == old(self).overflowed,
            old(self).lookup(name@) is None ==> final(self).list@ == old(self).list@,
            old(self).lookup(name@) is Some ==> final(self).list@ == old(self).list@.update(
                find_symbol(old(self).list@, old(self).ignore_case, name@)->0,
                Symbol { exported: true, ..old(self).list@[find_symbol(old(self).list@, old(self).ignore_case, name@)->0] }),
    {
        match self.position(name) {
            Some(i) => {
                let ghost k = i as int;
                let ghost before = self.list@;
                self.list[i].exported = true;
                assert(self.list@ =~= before.update(k, Symbol { exported: true, ..before[k] }));
            }
            None => {}
        }
    }
}

pub open spec fn qualified(name: Seq<u8>, local_char: u8, module: Seq<u8>) -> Seq<u8> {
    if name.len() > 0 && name[0] == local_char { module + seq![0x2Eu8] + name } else { name }
}

} // verus!
