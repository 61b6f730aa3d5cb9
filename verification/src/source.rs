//! The capability contract that every source handed to the merge operator
//! satisfies, and an in-memory source over a sorted run of entries.
//!
//! A source is modelled by the map from its remaining keys to their values;
//! sortedness of the underlying run shows up only through the contract of
//! `key`, which returns the smallest remaining key.
use vstd::prelude::*;

use crate::order::{lex_le, lex_lt, lemma_lex_le_antisym, lemma_lex_le_refl};

verus! {

/// Reported by a source whose underlying read failed (an I/O, decode or
/// corruption fault), and passed through by the merge operator.
#[derive(Clone, Copy, PartialEq, Eq, Structural, Debug)]
pub struct SourceError;

/// The map holds at least one key.
pub open spec fn map_nonempty(m: Map<Seq<u8>, Seq<u8>>) -> bool {
    exists|k: Seq<u8>| m.dom().contains(k)
}

/// `k` is in the map and sorts at or before every key of the map.
pub open spec fn is_min_key(m: Map<Seq<u8>, Seq<u8>>, k: Seq<u8>) -> bool {
    m.dom().contains(k) && forall|k2: Seq<u8>| m.dom().contains(k2) ==> lex_le(k, k2)
}

/// The map has a smallest key.
pub open spec fn has_min_key(m: Map<Seq<u8>, Seq<u8>>) -> bool {
    exists|k: Seq<u8>| is_min_key(m, k)
}

pub proof fn lemma_min_key_unique(m: Map<Seq<u8>, Seq<u8>>, k1: Seq<u8>, k2: Seq<u8>)
    requires
        is_min_key(m, k1),
        is_min_key(m, k2),
    ensures
        k1 == k2,
{
    lemma_lex_le_antisym(k1, k2);
}

/// What the merge operator asks of every source it owns, and what it offers
/// itself, so a merge can serve as a source of an enclosing merge.
///
/// Policies fixed here: advancing an exhausted source is a no-op that reports
/// success, and a source whose advance failed reports exhausted from then on.
pub trait StorageIterator: Sized {
    /// The implementor's well-formedness condition; constructors establish it
    /// and every method preserves it.
    spec fn inv(&self) -> bool;

    /// The entries the source has not yet emitted, keyed by their byte key.
    spec fn model(&self) -> Map<Seq<u8>, Seq<u8>>;

    /// True while the source still holds data.
    fn is_valid(&self) -> (b: bool)
        requires
            self.inv(),
        ensures
            b == map_nonempty(self.model()),
    ;

    /// The smallest remaining key; the empty key once the source is exhausted.
    fn key(&self) -> (k: Vec<u8>)
        requires
            self.inv(),
        ensures
            map_nonempty(self.model()) ==> is_min_key(self.model(), k@),
            !map_nonempty(self.model()) ==> k@ == Seq::<u8>::empty(),
    ;

    /// The value paired with the smallest remaining key; the empty value once
    /// the source is exhausted.
    fn value(&self) -> (v: Vec<u8>)
        requires
            self.inv(),
        ensures
            forall|k: Seq<u8>| is_min_key(self.model(), k) ==> v@ == self.model()[k],
            !map_nonempty(self.model()) ==> v@ == Seq::<u8>::empty(),
    ;

    /// Discards the smallest remaining entry. On failure the source is
    /// exhausted; on an already-exhausted source this is a no-op.
    fn next(&mut self) -> (r: Result<(), SourceError>)
        requires
            old(self).inv(),
        ensures
            final(self).inv(),
            !map_nonempty(old(self).model()) ==> r is Ok && final(self).model()
                == old(self).model(),
            map_nonempty(old(self).model()) && r is Ok ==> forall|k: Seq<u8>|
                is_min_key(old(self).model(), k) ==> final(self).model() == old(
                    self,
                ).model().remove(k),
            r is Err ==> !map_nonempty(final(self).model()),
    ;
}

/// Copies a byte string.
pub fn clone_bytes(a: &Vec<u8>) -> (r: Vec<u8>)
    ensures
        r@ == a@,
{
    let mut out: Vec<u8> = Vec::new();
    let mut i: usize = 0;
    while i < a.len()
        invariant
            i <= a@.len(),
            out@ == a@.take(i as int),
        decreases a@.len() - i,
    {
        out.push(a[i]);
        proof {
            assert(out@ =~= a@.take(i as int + 1));
        }
        i = i + 1;
    }
    proof {
        assert(a@.take(a@.len() as int) =~= a@);
    }
    out
}

/// One key-value entry of an in-memory run.
pub struct Entry {
    pub key: Vec<u8>,
    pub value: Vec<u8>,
}

/// The keys of the run ascend strictly: sorted, with no duplicates.
pub open spec fn entries_sorted(s: Seq<Entry>) -> bool {
    forall|i: int, j: int| 0 <= i < j < s.len() ==> lex_lt(s[i].key@, s[j].key@)
}

/// The map of the entries of `s` from position `i` on.
pub open spec fn kv_map_from(s: Seq<Entry>, i: int) -> Map<Seq<u8>, Seq<u8>>
    decreases s.len() - i,
{
    if i < 0 || i >= s.len() {
        Map::empty()
    } else {
        kv_map_from(s, i + 1).insert(s[i].key@, s[i].value@)
    }
}

pub proof fn lemma_kv_map_dom(s: Seq<Entry>, i: int, k: Seq<u8>)
    requires
        0 <= i,
    ensures
        kv_map_from(s, i).dom().contains(k) <==> exists|j: int|
            i <= j < s.len() && 0 <= j && s[j].key@ == k,
    decreases s.len() - i,
{
    if 0 <= i < s.len() {
        lemma_kv_map_dom(s, i + 1, k);
        if s[i].key@ == k {
            assert(i <= i < s.len() && 0 <= i && s[i].key@ == k);
        }
    }
}

pub proof fn lemma_kv_map_at(s: Seq<Entry>, i: int, j: int)
    requires
        entries_sorted(s),
        0 <= i <= j < s.len(),
    ensures
        kv_map_from(s, i).dom().contains(s[j].key@),
        kv_map_from(s, i)[s[j].key@] == s[j].value@,
    decreases s.len() - i,
{
    lemma_kv_map_dom(s, i, s[j].key@);
    if i < j {
        lemma_kv_map_at(s, i + 1, j);
        assert(lex_lt(s[i].key@, s[j].key@));
    }
}

pub proof fn lemma_kv_map_min(s: Seq<Entry>, i: int)
    requires
        entries_sorted(s),
        0 <= i < s.len(),
    ensures
        is_min_key(kv_map_from(s, i), s[i].key@),
    decreases s.len() - i,
{
    lemma_kv_map_at(s, i, i);
    assert forall|k2: Seq<u8>| kv_map_from(s, i).dom().contains(k2) implies lex_le(
        s[i].key@,
        k2,
    ) by {
        lemma_kv_map_dom(s, i, k2);
        let j = choose|j: int| i <= j < s.len() && 0 <= j && s[j].key@ == k2;
        if j == i {
            lemma_lex_le_refl(s[i].key@);
        } else {
            assert(lex_lt(s[i].key@, s[j].key@));
        }
    }
}

pub proof fn lemma_kv_map_step(s: Seq<Entry>, i: int)
    requires
        entries_sorted(s),
        0 <= i < s.len(),
    ensures
        kv_map_from(s, i + 1) == kv_map_from(s, i).remove(s[i].key@),
{
    lemma_kv_map_dom(s, i + 1, s[i].key@);
    assert(!kv_map_from(s, i + 1).dom().contains(s[i].key@)) by {
        if exists|j: int| i + 1 <= j < s.len() && 0 <= j && s[j].key@ == s[i].key@ {
            let j = choose|j: int| i + 1 <= j < s.len() && 0 <= j && s[j].key@ == s[i].key@;
            assert(lex_lt(s[i].key@, s[j].key@));
        }
    }
    assert(kv_map_from(s, i + 1) =~= kv_map_from(s, i).remove(s[i].key@));
}

/// A source over an in-memory sorted run, optionally primed to fail at a
/// given position so failure propagation can be exercised.
pub struct MemIterator {
    entries: Vec<Entry>,
    pos: usize,
    fail_at: Option<usize>,
}

impl MemIterator {
    /// Builds a source over a strictly ascending run of entries.
    pub fn new(entries: Vec<Entry>) -> (r: Self)
        requires
            entries_sorted(entries@),
        ensures
            r.inv(),
            r.model() == kv_map_from(entries@, 0),
    {
        MemIterator { entries, pos: 0, fail_at: None }
    }

    /// Like `new`, but the advance that leaves position `fail_at` reports a
    /// read failure.
    pub fn new_failing(entries: Vec<Entry>, fail_at: usize) -> (r: Self)
        requires
            entries_sorted(entries@),
        ensures
            r.inv(),
            r.model() == kv_map_from(entries@, 0),
    {
        MemIterator { entries, pos: 0, fail_at: Some(fail_at) }
    }
}

impl StorageIterator for MemIterator {
    closed spec fn inv(&self) -> bool {
        self.pos <= self.entries@.len() && entries_sorted(self.entries@)
    }

    closed spec fn model(&self) -> Map<Seq<u8>, Seq<u8>> {
        kv_map_from(self.entries@, self.pos as int)
    }

    fn is_valid(&self) -> (b: bool)
    {
        proof {
            if self.pos < self.entries@.len() {
                lemma_kv_map_at(self.entries@, self.pos as int, self.pos as int);
            }
        }
        self.pos < self.entries.len()
    }

    fn key(&self) -> (k: Vec<u8>)
    {
        proof {
            if self.pos < self.entries@.len() {
                lemma_kv_map_min(self.entries@, self.pos as int);
            }
        }
        if self.pos < self.entries.len() {
            clone_bytes(&self.entries[self.pos].key)
        } else {
            Vec::new()
        }
    }

    fn value(&self) -> (v: Vec<u8>)
    {
        proof {
            if self.pos < self.entries@.len() {
                lemma_kv_map_min(self.entries@, self.pos as int);
                assert forall|k: Seq<u8>| is_min_key(self.model(), k) implies self.model()[k]
                    == self.entries@[self.pos as int].value@ by {
                    lemma_min_key_unique(self.model(), k, self.entries@[self.pos as int].key@);
                    lemma_kv_map_at(self.entries@, self.pos as int, self.pos as int);
                }
            }
        }
        if self.pos < self.entries.len() {
            clone_bytes(&self.entries[self.pos].value)
        } else {
            Vec::new()
        }
    }

    fn next(&mut self) -> (r: Result<(), SourceError>)
    {
        if self.pos >= self.entries.len() {
            return Ok(());
        }
        proof {
            lemma_kv_map_at(self.entries@, self.pos as int, self.pos as int);
            assert(map_nonempty(self.model()));
        }
        let failing = match self.fail_at {
            Some(f) => f == self.pos,
            None => false,
        };
        if failing {
            self.pos = self.entries.len();
            proof {
                assert(!map_nonempty(self.model()));
            }
            return Err(SourceError);
        }
        let ghost old_pos = self.pos as int;
        self.pos = self.pos + 1;
        proof {
            lemma_kv_map_min(self.entries@, old_pos);
            lemma_kv_map_step(self.entries@, old_pos);
            assert forall|k: Seq<u8>| is_min_key(kv_map_from(self.entries@, old_pos), k) implies
                self.model() == kv_map_from(self.entries@, old_pos).remove(k) by {
                lemma_min_key_unique(
                    kv_map_from(self.entries@, old_pos),
                    k,
                    self.entries@[old_pos].key@,
                );
            }
        }
        Ok(())
    }
}

} // verus!
