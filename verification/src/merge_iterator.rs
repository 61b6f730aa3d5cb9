//! The k-way merge operator: combines several independently sorted sources
//! into one sorted, deduplicated stream.
//!
//! The operator's model is the merged map of its sources: each key present in
//! any source maps to the value held by the source with the smallest priority
//! index ("lower index wins"). Advancing removes the smallest merged key, so
//! the emitted stream is exactly the sorted union of the sources' entries with
//! shadowed duplicates skipped.
use vstd::prelude::*;

use crate::order::{
    lemma_lex_le_refl, lemma_lex_le_total, lemma_lex_lt_le_trans, lemma_pair_lt_key_widen,
    lemma_pair_lt_trans, lex_le, lex_lt, pair_lt,
};
use crate::source::{
    has_min_key, is_min_key, lemma_min_key_unique, map_nonempty, SourceError, StorageIterator,
};
use vstd::relations::total_ordering;
use vstd::set_lib::lemma_set_subset_finite;

verus! {

/// The per-source views of an operator state: priority index to source model.
pub type SourceMaps = Map<nat, Map<Seq<u8>, Seq<u8>>>;

/// Some source holds key `k`.
pub open spec fn sm_has(sm: SourceMaps, k: Seq<u8>) -> bool {
    exists|p: nat| #[trigger] sm.dom().contains(p) && sm[p].dom().contains(k)
}

/// Source `p` holds `k` and no source with a smaller priority index does.
pub open spec fn sm_wins(sm: SourceMaps, p: nat, k: Seq<u8>) -> bool {
    &&& sm.dom().contains(p)
    &&& sm[p].dom().contains(k)
    &&& forall|q: nat| #[trigger] sm.dom().contains(q) && sm[q].dom().contains(k) ==> p <= q
}

/// The value that wins for key `k`: the one held by the smallest-index holder.
pub open spec fn sm_val(sm: SourceMaps, k: Seq<u8>) -> Seq<u8> {
    sm[choose|p: nat| sm_wins(sm, p, k)][k]
}

/// The merged view of a family of sources.
pub open spec fn merged(sm: SourceMaps) -> Map<Seq<u8>, Seq<u8>> {
    Map::new(|k: Seq<u8>| sm_has(sm, k), |k: Seq<u8>| sm_val(sm, k))
}

/// A finite, inhabited set of naturals has a least element.
proof fn lemma_nat_set_min(s: Set<nat>, w: nat)
    requires
        s.finite(),
        s.contains(w),
    ensures
        exists|m: nat| s.contains(m) && forall|x: nat| s.contains(x) ==> m <= x,
{
    let r = |a: nat, b: nat| a <= b;
    assert(total_ordering(r));
    if s.len() == 0 {
        s.lemma_len0_is_empty();
    }
    s.find_unique_minimal_ensures(r);
    let m = s.find_unique_minimal(r);
    assert(s.contains(m) && forall|x: nat| s.contains(x) ==> m <= x) by {
        assert forall|x: nat| s.contains(x) implies m <= x by {
            assert(r(m, x) || r(x, m));
            if r(x, m) {
                assert(r(m, x));
            }
        }
    }
}

pub proof fn lemma_winner_exists(sm: SourceMaps, k: Seq<u8>)
    requires
        sm.dom().finite(),
        sm_has(sm, k),
    ensures
        exists|p: nat| sm_wins(sm, p, k),
{
    let holders = Set::new(|p: nat| sm.dom().contains(p) && sm[p].dom().contains(k));
    assert(holders.subset_of(sm.dom()));
    lemma_set_subset_finite(sm.dom(), holders);
    let p0 = choose|p: nat| #[trigger] sm.dom().contains(p) && sm[p].dom().contains(k);
    assert(holders.contains(p0));
    lemma_nat_set_min(holders, p0);
    let m = choose|m: nat| holders.contains(m) && forall|x: nat| holders.contains(x) ==> m <= x;
    assert(sm_wins(sm, m, k)) by {
        assert forall|q: nat| #[trigger] sm.dom().contains(q) && sm[q].dom().contains(k) implies m
            <= q by {
            assert(holders.contains(q));
        }
    }
}

pub proof fn lemma_winner_val(sm: SourceMaps, p: nat, k: Seq<u8>)
    requires
        sm_wins(sm, p, k),
    ensures
        sm_val(sm, k) == sm[p][k],
{
    let pw = choose|pw: nat| sm_wins(sm, pw, k);
    assert(sm_wins(sm, pw, k));
    assert(pw <= p && p <= pw);
}

/// Emptying key `k` out of a source that was not its winner leaves the merged
/// view unchanged: the entry was shadowed.
pub proof fn lemma_merged_unshadow(sm: SourceMaps, p: nat, k: Seq<u8>)
    requires
        sm.dom().finite(),
        sm.dom().contains(p),
        exists|q: nat|
            #[trigger] sm.dom().contains(q) && sm[q].dom().contains(k) && q < p,
    ensures
        merged(sm.insert(p, sm[p].remove(k))) == merged(sm),
{
    let sm2 = sm.insert(p, sm[p].remove(k));
    let q0 = choose|q: nat| #[trigger] sm.dom().contains(q) && sm[q].dom().contains(k) && q < p;
    assert forall|k2: Seq<u8>| #[trigger] sm_has(sm2, k2) == sm_has(sm, k2) by {
        if sm_has(sm2, k2) {
            let h = choose|h: nat| #[trigger] sm2.dom().contains(h) && sm2[h].dom().contains(k2);
            if h == p {
                assert(sm.dom().contains(p) && sm[p].dom().contains(k2));
            } else {
                assert(sm.dom().contains(h) && sm[h].dom().contains(k2));
            }
        }
        if sm_has(sm, k2) {
            let h = choose|h: nat| #[trigger] sm.dom().contains(h) && sm[h].dom().contains(k2);
            if h == p {
                if k2 == k {
                    assert(sm2.dom().contains(q0) && sm2[q0].dom().contains(k2));
                } else {
                    assert(sm2.dom().contains(p) && sm2[p].dom().contains(k2));
                }
            } else {
                assert(sm2.dom().contains(h) && sm2[h].dom().contains(k2));
            }
        }
    }
    assert forall|k2: Seq<u8>| sm_has(sm, k2) implies #[trigger] sm_val(sm2, k2) == sm_val(
        sm,
        k2,
    ) by {
        lemma_winner_exists(sm, k2);
        let w = choose|w: nat| sm_wins(sm, w, k2);
        assert(sm_wins(sm, w, k2));
        if k2 == k {
            assert(w <= q0);
            assert(w != p);
        }
        assert(sm_wins(sm2, w, k2)) by {
            assert(sm2.dom().contains(w));
            assert(sm2[w].dom().contains(k2));
            assert forall|q: nat|
                #[trigger] sm2.dom().contains(q) && sm2[q].dom().contains(k2) implies w <= q by {
                if q == p {
                    assert(sm.dom().contains(q) && sm[q].dom().contains(k2));
                } else {
                    assert(sm.dom().contains(q) && sm[q].dom().contains(k2));
                }
            }
        }
        lemma_winner_val(sm, w, k2);
        lemma_winner_val(sm2, w, k2);
        assert(sm2[w][k2] == sm[w][k2]);
    }
    assert(merged(sm2) =~= merged(sm));
}

/// A source with nothing left contributes nothing to the merged view.
pub proof fn lemma_merged_drop_empty(sm: SourceMaps, p: nat)
    requires
        sm.dom().finite(),
        forall|k: Seq<u8>| !(#[trigger] sm[p].dom().contains(k)),
    ensures
        merged(sm.remove(p)) == merged(sm),
{
    let sm2 = sm.remove(p);
    assert forall|k2: Seq<u8>| #[trigger] sm_has(sm2, k2) == sm_has(sm, k2) by {
        if sm_has(sm2, k2) {
            let h = choose|h: nat| #[trigger] sm2.dom().contains(h) && sm2[h].dom().contains(k2);
            assert(sm.dom().contains(h) && sm[h].dom().contains(k2));
        }
        if sm_has(sm, k2) {
            let h = choose|h: nat| #[trigger] sm.dom().contains(h) && sm[h].dom().contains(k2);
            assert(h != p);
            assert(sm2.dom().contains(h) && sm2[h].dom().contains(k2));
        }
    }
    assert forall|k2: Seq<u8>| sm_has(sm, k2) implies #[trigger] sm_val(sm2, k2) == sm_val(
        sm,
        k2,
    ) by {
        lemma_winner_exists(sm, k2);
        let w = choose|w: nat| sm_wins(sm, w, k2);
        assert(sm_wins(sm, w, k2));
        assert(w != p);
        assert(sm_wins(sm2, w, k2)) by {
            assert forall|q: nat|
                #[trigger] sm2.dom().contains(q) && sm2[q].dom().contains(k2) implies w <= q by {
                assert(sm.dom().contains(q) && sm[q].dom().contains(k2));
            }
        }
        lemma_winner_val(sm, w, k2);
        lemma_winner_val(sm2, w, k2);
    }
    assert(merged(sm2) =~= merged(sm));
}

/// Emptying key `k` out of its only holder removes exactly `k` from the
/// merged view.
pub proof fn lemma_merged_remove_sole(sm: SourceMaps, p: nat, k: Seq<u8>)
    requires
        sm.dom().finite(),
        sm.dom().contains(p),
        sm[p].dom().contains(k),
        forall|q: nat| #[trigger] sm.dom().contains(q) && sm[q].dom().contains(k) ==> q == p,
    ensures
        merged(sm.insert(p, sm[p].remove(k))) == merged(sm).remove(k),
{
    let sm2 = sm.insert(p, sm[p].remove(k));
    assert forall|k2: Seq<u8>| #[trigger] sm_has(sm2, k2) == (sm_has(sm, k2) && k2 != k) by {
        if sm_has(sm2, k2) {
            let h = choose|h: nat| #[trigger] sm2.dom().contains(h) && sm2[h].dom().contains(k2);
            if h == p {
                assert(sm.dom().contains(p) && sm[p].dom().contains(k2));
            } else {
                assert(sm.dom().contains(h) && sm[h].dom().contains(k2));
                if k2 == k {
                    assert(h == p);
                }
            }
        }
        if sm_has(sm, k2) && k2 != k {
            let h = choose|h: nat| #[trigger] sm.dom().contains(h) && sm[h].dom().contains(k2);
            if h == p {
                assert(sm2.dom().contains(p) && sm2[p].dom().contains(k2));
            } else {
                assert(sm2.dom().contains(h) && sm2[h].dom().contains(k2));
            }
        }
    }
    assert forall|k2: Seq<u8>| sm_has(sm, k2) && k2 != k implies #[trigger] sm_val(sm2, k2)
        == sm_val(sm, k2) by {
        lemma_winner_exists(sm, k2);
        let w = choose|w: nat| sm_wins(sm, w, k2);
        assert(sm_wins(sm, w, k2));
        assert(sm_wins(sm2, w, k2)) by {
            assert(sm2.dom().contains(w));
            assert(sm2[w].dom().contains(k2));
            assert forall|q: nat|
                #[trigger] sm2.dom().contains(q) && sm2[q].dom().contains(k2) implies w <= q by {
                assert(sm.dom().contains(q) && sm[q].dom().contains(k2));
            }
        }
        lemma_winner_val(sm, w, k2);
        lemma_winner_val(sm2, w, k2);
    }
    assert(merged(sm2) =~= merged(sm).remove(k));
}

/// A queue slot: a source paired with the priority index it was handed in at.
struct HeapWrapper<I: StorageIterator>(usize, Box<I>);

/// The per-source views of a run of queue slots, keyed by priority index.
spec fn qmap<I: StorageIterator>(s: Seq<HeapWrapper<I>>) -> SourceMaps
    decreases s.len(),
{
    if s.len() == 0 {
        Map::empty()
    } else {
        qmap(s.drop_last()).insert(s.last().0 as nat, s.last().1.model())
    }
}

/// Every slot holds a well-formed source with data left.
spec fn entries_wf<I: StorageIterator>(s: Seq<HeapWrapper<I>>) -> bool {
    forall|i: int|
        0 <= i < s.len() ==> ((#[trigger] s[i].1).inv() && map_nonempty(s[i].1.model()))
}

/// No two slots share a priority index.
spec fn pris_distinct<I: StorageIterator>(s: Seq<HeapWrapper<I>>) -> bool {
    forall|i: int, j: int| 0 <= i < j < s.len() ==> (#[trigger] s[i].0) != (#[trigger] s[j].0)
}

/// The pair (kh, ph) sorts strictly before every remaining key of every slot.
spec fn dominates_all<I: StorageIterator>(kh: Seq<u8>, ph: nat, s: Seq<HeapWrapper<I>>) -> bool {
    forall|i: int, k: Seq<u8>|
        0 <= i < s.len() && (#[trigger] s[i].1.model().dom().contains(k)) ==> pair_lt(
            kh,
            ph,
            k,
            s[i].0 as nat,
        )
}

proof fn lemma_qmap_props<I: StorageIterator>(s: Seq<HeapWrapper<I>>)
    requires
        pris_distinct(s),
    ensures
        qmap(s).dom().finite(),
        forall|p: nat| #![trigger qmap(s).dom().contains(p)]
            qmap(s).dom().contains(p) <==> exists|i: int|
                0 <= i < s.len() && (#[trigger] s[i].0) as nat == p,
        forall|i: int| #![trigger s[i].0]
            0 <= i < s.len() ==> qmap(s)[s[i].0 as nat] == s[i].1.model(),
    decreases s.len(),
{
    if s.len() > 0 {
        let s0 = s.drop_last();
        assert(pris_distinct(s0)) by {
            assert forall|i: int, j: int| 0 <= i < j < s0.len() implies (#[trigger] s0[i].0) != (
            #[trigger] s0[j].0) by {
                assert(s0[i] == s[i] && s0[j] == s[j]);
            }
        }
        lemma_qmap_props(s0);
        let pl = s.last().0 as nat;
        assert forall|p: nat| #![trigger qmap(s).dom().contains(p)]
            qmap(s).dom().contains(p) <==> exists|i: int|
                0 <= i < s.len() && (#[trigger] s[i].0) as nat == p by {
            if qmap(s).dom().contains(p) {
                if p == pl {
                    assert((#[trigger] s[s.len() - 1].0) as nat == p);
                } else {
                    let i = choose|i: int| 0 <= i < s0.len() && (#[trigger] s0[i].0) as nat == p;
                    assert((#[trigger] s[i].0) as nat == p);
                }
            }
            if exists|i: int| 0 <= i < s.len() && (#[trigger] s[i].0) as nat == p {
                let i = choose|i: int| 0 <= i < s.len() && (#[trigger] s[i].0) as nat == p;
                if i == s.len() - 1 {
                    assert(qmap(s).dom().contains(p));
                } else {
                    assert(s0[i] == s[i]);
                    assert((#[trigger] s0[i].0) as nat == p);
                    assert(qmap(s0).dom().contains(p));
                }
            }
        }
        assert forall|i: int| #![trigger s[i].0] 0 <= i < s.len() implies qmap(s)[s[i].0 as nat]
            == s[i].1.model() by {
            if i < s.len() - 1 {
                assert(s0[i] == s[i]);
                assert(qmap(s0)[s0[i].0 as nat] == s0[i].1.model());
                assert(s[i].0 != s.last().0);
            }
        }
    }
}

/// Removing slot `i` by swapping in the last slot removes exactly its source
/// from the per-source view.
proof fn lemma_qmap_swap_remove<I: StorageIterator>(s: Seq<HeapWrapper<I>>, i: int)
    requires
        pris_distinct(s),
        0 <= i < s.len(),
    ensures
        pris_distinct(s.update(i, s.last()).drop_last()),
        qmap(s.update(i, s.last()).drop_last()) == qmap(s).remove(s[i].0 as nat),
{
    let s2 = s.update(i, s.last()).drop_last();
    assert forall|j: int| 0 <= j < s2.len() implies #[trigger] s2[j] == (if j == i {
        s.last()
    } else {
        s[j]
    }) by {}
    assert(pris_distinct(s2)) by {
        assert forall|j1: int, j2: int| 0 <= j1 < j2 < s2.len() implies (#[trigger] s2[j1].0) != (
        #[trigger] s2[j2].0) by {
            if j1 == i {
                assert(s2[j1] == s.last() && s2[j2] == s[j2]);
            } else if j2 == i {
                assert(s2[j1] == s[j1] && s2[j2] == s.last());
            } else {
                assert(s2[j1] == s[j1] && s2[j2] == s[j2]);
            }
        }
    }
    lemma_qmap_props(s);
    lemma_qmap_props(s2);
    let pi = s[i].0 as nat;
    assert(qmap(s2) =~= qmap(s).remove(pi)) by {
        assert forall|p: nat| #[trigger] qmap(s2).dom().contains(p) implies qmap(s).remove(
            pi,
        ).dom().contains(p) && qmap(s2)[p] == qmap(s).remove(pi)[p] by {
            let j = choose|j: int| 0 <= j < s2.len() && (#[trigger] s2[j].0) as nat == p;
            let j_orig: int = if j == i {
                s.len() - 1
            } else {
                j
            };
            assert(s2[j] == s[j_orig]);
            assert((#[trigger] s[j_orig].0) as nat == p);
            assert(j_orig != i);
            assert(p != pi);
            assert(qmap(s).dom().contains(p));
            assert(qmap(s2)[p] == s2[j].1.model());
            assert(qmap(s)[p] == s[j_orig].1.model());
        }
        assert forall|p: nat| #[trigger] qmap(s).remove(pi).dom().contains(p) implies qmap(
            s2,
        ).dom().contains(p) by {
            let j = choose|j: int| 0 <= j < s.len() && (#[trigger] s[j].0) as nat == p;
            assert(j != i);
            let j2: int = if j == s.len() - 1 {
                i
            } else {
                j
            };
            if j2 < s2.len() {
                assert(s2[j2] == s[j]);
                assert((#[trigger] s2[j2].0) as nat == p);
            } else {
                assert(j == s.len() - 1 && i == s.len() - 1);
            }
        }
    }
}

/// The family of sources as handed to `create`: position is priority.
pub open spec fn sources_map<I: StorageIterator>(s: Seq<Box<I>>) -> SourceMaps
    decreases s.len(),
{
    if s.len() == 0 {
        Map::empty()
    } else {
        sources_map(s.drop_last()).insert((s.len() - 1) as nat, s.last().model())
    }
}

pub proof fn lemma_sources_map_props<I: StorageIterator>(s: Seq<Box<I>>)
    ensures
        sources_map(s).dom().finite(),
        forall|p: nat| #![trigger sources_map(s).dom().contains(p)]
            sources_map(s).dom().contains(p) <==> p < s.len(),
        forall|i: int| #![trigger s[i]]
            0 <= i < s.len() ==> sources_map(s)[i as nat] == s[i].model(),
    decreases s.len(),
{
    if s.len() > 0 {
        lemma_sources_map_props(s.drop_last());
        assert forall|i: int| #![trigger s[i]] 0 <= i < s.len() implies sources_map(s)[i as nat]
            == s[i].model() by {
            if i < s.len() - 1 {
                assert(s.drop_last()[i] == s[i]);
            }
        }
    }
}

proof fn lemma_union_dom_finite(a: SourceMaps, b: SourceMaps)
    requires
        a.dom().finite(),
        b.dom().finite(),
    ensures
        a.union_prefer_right(b).dom().finite(),
{
    assert(a.union_prefer_right(b).dom() =~= a.dom().union(b.dom()));
}

/// Merge multiple sources of the same type. When the same key occurs in
/// several sources at once, the source with the smaller priority index wins
/// and the others' entries for that key are skipped.
///
/// Policies: advancing an exhausted operator is a no-op that reports success,
/// and after a failed advance the operator releases every source it still
/// owns and reports exhausted from then on.
pub struct MergeIterator<I: StorageIterator> {
    iters: Vec<HeapWrapper<I>>,
    current: Option<HeapWrapper<I>>,
}

impl<I: StorageIterator> MergeIterator<I> {
    /// All owned sources, keyed by priority index.
    spec fn smap(&self) -> SourceMaps {
        match self.current {
            None => qmap(self.iters@),
            Some(h) => qmap(self.iters@).insert(h.0 as nat, h.1.model()),
        }
    }

    spec fn head_model(&self) -> Map<Seq<u8>, Seq<u8>> {
        match self.current {
            None => Map::empty(),
            Some(h) => h.1.model(),
        }
    }

    spec fn head_pri(&self) -> nat {
        match self.current {
            None => 0,
            Some(h) => h.0 as nat,
        }
    }

    /// A head that dominates a run of slots holds the smallest merged key of
    /// the family, and is that key's winning holder.
    proof fn lemma_head_min_parts(s: Seq<HeapWrapper<I>>, hp: nat, hm: Map<Seq<u8>, Seq<u8>>)
        requires
            pris_distinct(s),
            forall|i: int| 0 <= i < s.len() ==> (#[trigger] s[i].0) as nat != hp,
            forall|kh: Seq<u8>| #[trigger] is_min_key(hm, kh) ==> dominates_all(kh, hp, s),
        ensures
            qmap(s).insert(hp, hm).dom().finite(),
            forall|kh: Seq<u8>| #[trigger] is_min_key(hm, kh) ==> is_min_key(
                merged(qmap(s).insert(hp, hm)),
                kh,
            ) && sm_wins(qmap(s).insert(hp, hm), hp, kh),
    {
        lemma_qmap_props(s);
        let sm = qmap(s).insert(hp, hm);
        assert(sm.dom().contains(hp) && sm[hp] == hm);
        assert forall|kh: Seq<u8>| #[trigger] is_min_key(hm, kh) implies is_min_key(
            merged(sm),
            kh,
        ) && sm_wins(sm, hp, kh) by {
            assert(sm_has(sm, kh)) by {
                assert(sm.dom().contains(hp) && sm[hp].dom().contains(kh));
            }
            assert(merged(sm).dom().contains(kh));
            assert forall|q: nat|
                #[trigger] sm.dom().contains(q) && sm[q].dom().contains(kh) implies hp <= q by {
                if q != hp {
                    let i = choose|i: int| 0 <= i < s.len() && (#[trigger] s[i].0) as nat == q;
                    assert(sm[q] == s[i].1.model());
                    assert(pair_lt(kh, hp, kh, q));
                }
            }
            assert(sm_wins(sm, hp, kh));
            assert forall|k2: Seq<u8>| #[trigger] merged(sm).dom().contains(k2) implies lex_le(
                kh,
                k2,
            ) by {
                let q = choose|q: nat| #[trigger] sm.dom().contains(q) && sm[q].dom().contains(k2);
                if q == hp {
                    assert(hm.dom().contains(k2));
                } else {
                    let i = choose|i: int| 0 <= i < s.len() && (#[trigger] s[i].0) as nat == q;
                    assert(sm[q] == s[i].1.model());
                    assert(pair_lt(kh, hp, k2, q));
                    if kh == k2 {
                        lemma_lex_le_refl(kh);
                    }
                }
            }
        }
    }

    /// The slot whose (key, priority) pair is the global minimum.
    fn find_min_index(v: &Vec<HeapWrapper<I>>) -> (mi: usize)
        requires
            entries_wf(v@),
            pris_distinct(v@),
            v@.len() > 0,
        ensures
            mi < v@.len(),
            has_min_key(v@[mi as int].1.model()),
            forall|j: int, k: Seq<u8>, km: Seq<u8>|
                #![trigger v@[j].1.model().dom().contains(k), is_min_key(v@[mi as int].1.model(), km)]
                0 <= j < v@.len() && j != mi && v@[j].1.model().dom().contains(k) && is_min_key(
                    v@[mi as int].1.model(),
                    km,
                ) ==> pair_lt(km, v@[mi as int].0 as nat, k, v@[j].0 as nat),
    {
        let mut mi: usize = 0;
        let e0 = &v[0];
        let mut mk: Vec<u8> = e0.1.key();
        let mut j: usize = 1;
        while j < v.len()
            invariant
                entries_wf(v@),
                pris_distinct(v@),
                v@.len() > 0,
                (mi as int) < (j as int),
                1 <= j <= v@.len(),
                is_min_key(v@[mi as int].1.model(), mk@),
                forall|j2: int, k: Seq<u8>|
                    #![trigger v@[j2].1.model().dom().contains(k)]
                    0 <= j2 < j && j2 != mi && v@[j2].1.model().dom().contains(k) ==> pair_lt(
                        mk@,
                        v@[mi as int].0 as nat,
                        k,
                        v@[j2].0 as nat,
                    ),
            decreases v@.len() - j,
        {
            let ej = &v[j];
            let ck = ej.1.key();
            let is_le = crate::order::key_le(&ck, &mk);
            let is_eq = crate::order::key_eq(&ck, &mk);
            let emi = &v[mi];
            let take_new: bool = if is_eq {
                ej.0 < emi.0
            } else {
                is_le
            };
            proof {
                lemma_lex_le_total(ck@, mk@);
            }
            if take_new {
                proof {
                    let pj = v@[j as int].0 as nat;
                    let pmi = v@[mi as int].0 as nat;
                    assert(pair_lt(ck@, pj, mk@, pmi));
                    assert forall|j2: int, k: Seq<u8>|
                        #![trigger v@[j2].1.model().dom().contains(k)]
                        0 <= j2 < j + 1 && j2 != j && v@[j2].1.model().dom().contains(k)
                            implies pair_lt(ck@, pj, k, v@[j2].0 as nat) by {
                        if j2 == mi {
                            lemma_pair_lt_key_widen(ck@, pj, mk@, pmi, k);
                        } else {
                            lemma_pair_lt_trans(ck@, pj, mk@, pmi, k, v@[j2].0 as nat);
                        }
                    }
                }
                mi = j;
                mk = ck;
            } else {
                proof {
                    let pj = v@[j as int].0 as nat;
                    let pmi = v@[mi as int].0 as nat;
                    assert(pmi != pj);
                    assert(pair_lt(mk@, pmi, ck@, pj));
                    assert forall|k: Seq<u8>|
                        #[trigger] v@[j as int].1.model().dom().contains(k) implies pair_lt(
                        mk@,
                        pmi,
                        k,
                        pj,
                    ) by {
                        lemma_pair_lt_key_widen(mk@, pmi, ck@, pj, k);
                    }
                }
            }
            j = j + 1;
        }
        proof {
            assert forall|j2: int, k: Seq<u8>, km: Seq<u8>|
                #![trigger v@[j2].1.model().dom().contains(k), is_min_key(v@[mi as int].1.model(), km)]
                0 <= j2 < v@.len() && j2 != mi && v@[j2].1.model().dom().contains(k) && is_min_key(
                    v@[mi as int].1.model(),
                    km,
                ) implies pair_lt(km, v@[mi as int].0 as nat, k, v@[j2].0 as nat) by {
                lemma_min_key_unique(v@[mi as int].1.model(), km, mk@);
            }
        }
        mi
    }

    /// Removes and returns the slot with the globally smallest (key, priority)
    /// pair; `None` when the queue is empty.
    fn take_min(v: &mut Vec<HeapWrapper<I>>) -> (r: Option<HeapWrapper<I>>)
        requires
            entries_wf(old(v)@),
            pris_distinct(old(v)@),
        ensures
            entries_wf(final(v)@),
            pris_distinct(final(v)@),
            old(v)@.len() == 0 ==> r is None && final(v)@ == old(v)@,
            old(v)@.len() > 0 ==> r is Some,
            r matches Some(h) ==> h.1.inv() && has_min_key(h.1.model()) && map_nonempty(
                h.1.model(),
            ),
            r matches Some(h) ==> exists|i: int| 0 <= i < old(v)@.len() && old(v)@[i] == h,
            r matches Some(h) ==> forall|i: int|
                0 <= i < final(v)@.len() ==> (#[trigger] final(v)@[i].0) != h.0,
            r matches Some(h) ==> forall|kh: Seq<u8>| #[trigger] is_min_key(h.1.model(), kh)
                ==> dominates_all(kh, h.0 as nat, final(v)@),
            r matches Some(h) ==> qmap(final(v)@) == qmap(old(v)@).remove(h.0 as nat),
    {
        if v.len() == 0 {
            return None;
        }
        let mi = Self::find_min_index(v);
        let ghost s_old = v@;
        let e = v.swap_remove(mi);
        proof {
            lemma_qmap_swap_remove(s_old, mi as int);
            assert(has_min_key(e.1.model()));
            let km0 = choose|km: Seq<u8>| is_min_key(e.1.model(), km);
            assert(map_nonempty(e.1.model())) by {
                assert(e.1.model().dom().contains(km0));
            }
            assert forall|i: int| 0 <= i < v@.len() implies #[trigger] v@[i]
                == (if i == mi as int {
                s_old.last()
            } else {
                s_old[i]
            }) by {}
            assert(entries_wf(v@)) by {
                assert forall|i: int|
                    0 <= i < v@.len() implies ((#[trigger] v@[i].1).inv() && map_nonempty(
                    v@[i].1.model(),
                )) by {
                    if i == mi as int {
                        assert(v@[i] == s_old[s_old.len() - 1]);
                    } else {
                        assert(v@[i] == s_old[i]);
                    }
                }
            }
            assert forall|i: int| 0 <= i < v@.len() implies (#[trigger] v@[i].0) != e.0 by {
                if i == mi as int {
                    assert(v@[i] == s_old[s_old.len() - 1]);
                } else {
                    assert(v@[i] == s_old[i]);
                }
            }
            assert forall|kh: Seq<u8>| #[trigger] is_min_key(e.1.model(), kh) implies dominates_all(
                kh,
                e.0 as nat,
                v@,
            ) by {
                assert forall|i: int, k: Seq<u8>|
                    0 <= i < v@.len() && (#[trigger] v@[i].1.model().dom().contains(k))
                        implies pair_lt(kh, e.0 as nat, k, v@[i].0 as nat) by {
                    let j_orig: int = if i == mi as int {
                        s_old.len() - 1
                    } else {
                        i
                    };
                    assert(v@[i] == s_old[j_orig]);
                    assert(j_orig != mi as int);
                    assert(s_old[j_orig].1.model().dom().contains(k));
                }
            }
            assert(exists|i: int| 0 <= i < s_old.len() && s_old[i] == e) by {
                assert(s_old[mi as int] == e);
            }
        }
        Some(e)
    }

    /// Builds a merge over `iters`, whose position in the vector is its
    /// priority: index 0 is the most authoritative source. Sources that are
    /// already exhausted are discarded. With no live source the operator
    /// starts out exhausted; that is not an error.
    pub fn create(iters: Vec<Box<I>>) -> (r: Self)
        requires
            forall|i: int| 0 <= i < iters@.len() ==> (#[trigger] iters@[i]).inv(),
        ensures
            r.inv(),
            r.model() == merged(sources_map(iters@)),
            iters@.len() == 0 ==> !map_nonempty(r.model()),
            (forall|i: int|
                0 <= i < iters@.len() ==> !map_nonempty((#[trigger] iters@[i]).model()))
                ==> !map_nonempty(r.model()),
    {
        let ghost orig = iters@;
        proof {
            lemma_sources_map_props(orig);
            assert(orig.take(orig.len() as int) =~= orig);
        }
        let mut src = iters;
        let mut q: Vec<HeapWrapper<I>> = Vec::new();
        proof {
            assert(qmap(q@) == Map::<nat, Map<Seq<u8>, Seq<u8>>>::empty());
            assert(sources_map(src@).union_prefer_right(qmap(q@)) =~= sources_map(src@));
        }
        while src.len() > 0
            invariant
                src@ == orig.take(src@.len() as int),
                src@.len() <= orig.len(),
                forall|i: int| 0 <= i < orig.len() ==> (#[trigger] orig[i]).inv(),
                entries_wf(q@),
                pris_distinct(q@),
                forall|i: int| 0 <= i < q@.len() ==> (#[trigger] q@[i].0) as int >= src@.len(),
                merged(sources_map(src@).union_prefer_right(qmap(q@))) == merged(
                    sources_map(orig),
                ),
            decreases src@.len(),
        {
            let ghost src_old = src@;
            let ghost q_old = q@;
            let i = src.len() - 1;
            let b = src.pop().unwrap();
            proof {
                assert(src_old[i as int] == orig[i as int]);
                assert(b == orig[i as int]);
                assert(src@ =~= orig.take(i as int));
                assert(src_old.drop_last() == src@);
                assert(sources_map(src_old) == sources_map(src@).insert(
                    i as nat,
                    b.model(),
                ));
            }
            let valid = b.is_valid();
            proof {
                lemma_sources_map_props(src@);
                lemma_sources_map_props(src_old);
                lemma_qmap_props(q_old);
                lemma_union_dom_finite(sources_map(src_old), qmap(q_old));
                assert(!qmap(q_old).dom().contains(i as nat)) by {
                    if qmap(q_old).dom().contains(i as nat) {
                        let j = choose|j: int|
                            0 <= j < q_old.len() && (#[trigger] q_old[j].0) as nat == i as nat;
                        assert(q_old[j].0 as int >= src_old.len());
                    }
                }
            }
            if valid {
                q.push(HeapWrapper(i, b));
                proof {
                    assert(q@.drop_last() =~= q_old);
                    assert(qmap(q@) == qmap(q_old).insert(i as nat, q@.last().1.model()));
                    assert(sources_map(src@).union_prefer_right(qmap(q@)) =~= sources_map(
                        src_old,
                    ).union_prefer_right(qmap(q_old)));
                }
            } else {
                proof {
                    let sm1 = sources_map(src_old).union_prefer_right(qmap(q_old));
                    assert(sm1.dom().contains(i as nat));
                    assert(sm1[i as nat] == b.model());
                    assert(forall|k: Seq<u8>| !(#[trigger] sm1[i as nat].dom().contains(k)));
                    lemma_merged_drop_empty(sm1, i as nat);
                    assert(sm1.remove(i as nat) =~= sources_map(src@).union_prefer_right(
                        qmap(q_old),
                    ));
                }
            }
        }
        proof {
            assert(src@ =~= Seq::<Box<I>>::empty());
            assert(sources_map(src@).union_prefer_right(qmap(q@)) =~= qmap(q@));
            assert(merged(qmap(q@)) == merged(sources_map(orig)));
        }
        let ghost q_before = q@;
        let current = Self::take_min(&mut q);
        let r = MergeIterator { iters: q, current };
        proof {
            lemma_qmap_props(q_before);
            match &r.current {
                None => {
                    assert(q_before.len() == 0);
                    assert(r.smap() == qmap(q_before));
                },
                Some(h) => {
                    let i = choose|i: int| 0 <= i < q_before.len() && q_before[i] == h;
                    assert(qmap(q_before)[h.0 as nat] == h.1.model());
                    assert(r.smap() =~= qmap(q_before));
                },
            }
            assert(r.model() == merged(sources_map(orig)));
            if map_nonempty(r.model()) {
                let k = choose|k: Seq<u8>| r.model().dom().contains(k);
                assert(sm_has(sources_map(orig), k));
                let p = choose|p: nat|
                    #[trigger] sources_map(orig).dom().contains(p) && sources_map(
                        orig,
                    )[p].dom().contains(k);
                assert(p < orig.len());
                assert(sources_map(orig)[p] == orig[p as int].model());
                assert(map_nonempty(orig[p as int].model()));
            }
        }
        r
    }
}

/// A family with no sources at all merges to nothing.
proof fn lemma_merged_empty_sm(sm: SourceMaps)
    requires
        forall|p: nat| !(#[trigger] sm.dom().contains(p)),
    ensures
        !map_nonempty(merged(sm)),
{
    if map_nonempty(merged(sm)) {
        let k = choose|k: Seq<u8>| #[trigger] merged(sm).dom().contains(k);
        assert(sm_has(sm, k));
        let p = choose|p: nat| #[trigger] sm.dom().contains(p) && sm[p].dom().contains(k);
    }
}

impl<I: StorageIterator> StorageIterator for MergeIterator<I> {
    /// The structural invariant: every queued source is live and well formed,
    /// priority indices are unique, the head strictly precedes every queued
    /// entry in (key, priority) order, and the head is absent only when the
    /// whole operator is exhausted.
    closed spec fn inv(&self) -> bool {
        &&& entries_wf(self.iters@)
        &&& pris_distinct(self.iters@)
        &&& match self.current {
            None => self.iters@.len() == 0,
            Some(h) => {
                &&& h.1.inv()
                &&& has_min_key(h.1.model())
                &&& (forall|i: int|
                    0 <= i < self.iters@.len() ==> (#[trigger] self.iters@[i].0) != h.0)
                &&& (forall|kh: Seq<u8>| #[trigger] is_min_key(h.1.model(), kh) ==> dominates_all(
                    kh,
                    h.0 as nat,
                    self.iters@,
                ))
            },
        }
    }

    /// The merged view of all owned sources.
    closed spec fn model(&self) -> Map<Seq<u8>, Seq<u8>> {
        merged(self.smap())
    }

    fn is_valid(&self) -> bool {
        proof {
            match &self.current {
                Some(h) => {
                    Self::lemma_head_min_parts(self.iters@, h.0 as nat, h.1.model());
                    let kh = choose|kh: Seq<u8>| is_min_key(h.1.model(), kh);
                    assert(is_min_key(merged(self.smap()), kh));
                    assert(self.model().dom().contains(kh));
                },
                None => {
                    assert(qmap(self.iters@) == Map::<nat, Map<Seq<u8>, Seq<u8>>>::empty());
                    lemma_merged_empty_sm(self.smap());
                },
            }
        }
        self.current.is_some()
    }

    fn key(&self) -> Vec<u8> {
        match &self.current {
            Some(h) => {
                let k = h.1.key();
                proof {
                    Self::lemma_head_min_parts(self.iters@, h.0 as nat, h.1.model());
                    let kh = choose|kh: Seq<u8>| is_min_key(h.1.model(), kh);
                    assert(h.1.model().dom().contains(kh));
                    assert(map_nonempty(h.1.model()));
                    assert(is_min_key(h.1.model(), k@));
                    assert(is_min_key(self.model(), k@));
                }
                k
            },
            None => {
                proof {
                    assert(qmap(self.iters@) == Map::<nat, Map<Seq<u8>, Seq<u8>>>::empty());
                    lemma_merged_empty_sm(self.smap());
                }
                Vec::new()
            },
        }
    }

    fn value(&self) -> Vec<u8> {
        match &self.current {
            Some(h) => {
                let v = h.1.value();
                proof {
                    Self::lemma_head_min_parts(self.iters@, h.0 as nat, h.1.model());
                    let kh = choose|kh: Seq<u8>| is_min_key(h.1.model(), kh);
                    assert(is_min_key(h.1.model(), kh));
                    assert(map_nonempty(h.1.model()));
                    assert(v@ == h.1.model()[kh]);
                    assert(is_min_key(self.model(), kh));
                    assert(sm_wins(self.smap(), h.0 as nat, kh));
                    lemma_winner_val(self.smap(), h.0 as nat, kh);
                    assert(self.smap()[h.0 as nat] == h.1.model());
                    assert(self.model()[kh] == sm_val(self.smap(), kh));
                    assert forall|k: Seq<u8>| #[trigger] is_min_key(self.model(), k) implies v@
                        == self.model()[k] by {
                        lemma_min_key_unique(self.model(), k, kh);
                    }
                }
                v
            },
            None => {
                proof {
                    assert(qmap(self.iters@) == Map::<nat, Map<Seq<u8>, Seq<u8>>>::empty());
                    lemma_merged_empty_sm(self.smap());
                }
                Vec::new()
            },
        }
    }

    fn next(&mut self) -> Result<(), SourceError> {
        let ghost sm0 = self.smap();
        let ghost m0 = self.model();
        let cur = self.current.take();
        let mut h = match cur {
            None => {
                proof {
                    assert(self.smap() == sm0);
                    assert(qmap(self.iters@) == Map::<nat, Map<Seq<u8>, Seq<u8>>>::empty());
                    lemma_merged_empty_sm(sm0);
                }
                return Ok(());
            },
            Some(h0) => h0,
        };
        let hk = h.1.key();
        let ghost mh0 = h.1.model();
        let ghost php = h.0 as nat;
        proof {
            assert(old(self).current == Some(h));
            assert(has_min_key(mh0));
            Self::lemma_head_min_parts(self.iters@, php, mh0);
            let kh0 = choose|kh: Seq<u8>| is_min_key(mh0, kh);
            assert(is_min_key(mh0, kh0));
            assert(mh0.dom().contains(kh0));
            assert(map_nonempty(mh0));
            assert(is_min_key(mh0, hk@));
            assert(sm0 == qmap(self.iters@).insert(php, mh0));
            assert(is_min_key(m0, hk@));
            assert(map_nonempty(m0));
            assert(dominates_all(hk@, php, self.iters@));
            assert(qmap(self.iters@).union_prefer_right(qmap(Seq::<HeapWrapper<I>>::empty()))
                =~= qmap(self.iters@));
        }
        // Shadow-skip phase: every queued source whose smallest key equals the
        // head's key holds a shadowed duplicate; advance it past that key.
        let mut kept: Vec<HeapWrapper<I>> = Vec::new();
        while self.iters.len() > 0
            invariant
                self.current is None,
                m0 == old(self).model(),
                merged(sm0) == m0,
                map_nonempty(m0),
                is_min_key(m0, hk@),
                h.1.inv(),
                h.1.model() == mh0,
                php == h.0 as nat,
                is_min_key(mh0, hk@),
                entries_wf(self.iters@),
                pris_distinct(self.iters@),
                entries_wf(kept@),
                pris_distinct(kept@),
                forall|i: int| 0 <= i < self.iters@.len() ==> (#[trigger] self.iters@[i].0) != h.0,
                forall|i: int| 0 <= i < kept@.len() ==> (#[trigger] kept@[i].0) != h.0,
                forall|i: int, j: int|
                    #![trigger self.iters@[i].0, kept@[j].0]
                    0 <= i < self.iters@.len() && 0 <= j < kept@.len() ==> self.iters@[i].0
                        != kept@[j].0,
                dominates_all(hk@, php, self.iters@),
                forall|j: int|
                    0 <= j < kept@.len() ==> !(#[trigger] kept@[j].1.model().dom().contains(hk@)),
                merged(
                    qmap(self.iters@).union_prefer_right(qmap(kept@)).insert(php, mh0),
                ) == merged(sm0),
            decreases self.iters@.len(),
        {
            let ghost it_old = self.iters@;
            let ghost kept_old = kept@;
            let ghost m_before = qmap(it_old).union_prefer_right(qmap(kept_old)).insert(php, mh0);
            let mut e = self.iters.pop().unwrap();
            let ek = e.1.key();
            let ghost me = e.1.model();
            let ghost pe = e.0 as nat;
            proof {
                assert(e == it_old.last());
                assert(self.iters@ == it_old.drop_last());
                assert(qmap(it_old) == qmap(self.iters@).insert(pe, me));
                assert(e.1.inv() && map_nonempty(me));
                assert(is_min_key(me, ek@));
                lemma_qmap_props(it_old);
                lemma_qmap_props(self.iters@);
                lemma_qmap_props(kept_old);
                lemma_union_dom_finite(qmap(it_old), qmap(kept_old));
                assert(!qmap(kept_old).dom().contains(pe)) by {
                    if qmap(kept_old).dom().contains(pe) {
                        let j = choose|j: int|
                            0 <= j < kept_old.len() && (#[trigger] kept_old[j].0) as nat == pe;
                        assert(it_old[it_old.len() - 1].0 != kept_old[j].0);
                    }
                }
                assert(pe != php);
                assert(m_before.dom().contains(pe) && m_before[pe] == me);
                assert(m_before.dom().contains(php) && m_before[php] == mh0);
                assert(m_before.dom().finite());
            }
            if crate::order::key_eq(&ek, &hk) {
                proof {
                    assert(me.dom().contains(hk@));
                    assert(pair_lt(hk@, php, hk@, pe));
                    assert(php < pe);
                    lemma_merged_unshadow(m_before, pe, hk@);
                }
                match e.1.next() {
                    Err(err) => {
                        self.iters = Vec::new();
                        proof {
                            assert(qmap(self.iters@) == Map::<
                                nat,
                                Map<Seq<u8>, Seq<u8>>,
                            >::empty());
                            lemma_merged_empty_sm(self.smap());
                        }
                        return Err(err);
                    },
                    Ok(()) => {},
                }
                proof {
                    assert(e.1.model() == me.remove(hk@));
                }
                let keep_it = e.1.is_valid();
                if keep_it {
                    kept.push(e);
                    proof {
                        assert(kept@.drop_last() =~= kept_old);
                        assert(qmap(kept@) == qmap(kept_old).insert(
                            pe,
                            kept@.last().1.model(),
                        ));
                        assert(qmap(self.iters@).union_prefer_right(qmap(kept@)).insert(php, mh0)
                            =~= m_before.insert(pe, me.remove(hk@)));
                    }
                } else {
                    proof {
                        let m_mid = m_before.insert(pe, me.remove(hk@));
                        assert(forall|k: Seq<u8>|
                            !(#[trigger] m_mid[pe].dom().contains(k)));
                        lemma_merged_drop_empty(m_mid, pe);
                        assert(m_mid.remove(pe) =~= qmap(self.iters@).union_prefer_right(
                            qmap(kept_old),
                        ).insert(php, mh0));
                    }
                }
            } else {
                proof {
                    assert(ek@ != hk@);
                    assert(!me.dom().contains(hk@)) by {
                        if me.dom().contains(hk@) {
                            assert(pair_lt(hk@, php, ek@, pe));
                            assert(lex_le(ek@, hk@));
                            if lex_lt(hk@, ek@) {
                                lemma_lex_lt_le_trans(hk@, ek@, hk@);
                            }
                        }
                    }
                }
                kept.push(e);
                proof {
                    assert(kept@.drop_last() =~= kept_old);
                    assert(qmap(kept@) == qmap(kept_old).insert(pe, kept@.last().1.model()));
                    assert(qmap(self.iters@).union_prefer_right(qmap(kept@)).insert(php, mh0)
                        =~= m_before);
                }
            }
        }
        self.iters = kept;
        let ghost m_skipped = qmap(self.iters@).insert(php, mh0);
        proof {
            assert(qmap(Seq::<HeapWrapper<I>>::empty()).union_prefer_right(qmap(self.iters@))
                =~= qmap(self.iters@));
            assert(m_skipped =~= qmap(Seq::<HeapWrapper<I>>::empty()).union_prefer_right(
                qmap(self.iters@),
            ).insert(php, mh0));
            assert(merged(m_skipped) == merged(sm0));
            lemma_qmap_props(self.iters@);
            assert(m_skipped.dom().finite());
            assert forall|q: nat|
                #[trigger] m_skipped.dom().contains(q) && m_skipped[q].dom().contains(hk@)
                    implies q == php by {
                if q != php {
                    let j = choose|j: int|
                        0 <= j < self.iters@.len() && (#[trigger] self.iters@[j].0) as nat == q;
                    assert(m_skipped[q] == self.iters@[j].1.model());
                }
            }
            lemma_merged_remove_sole(m_skipped, php, hk@);
        }
        // Head-advance phase: move the head past the key it just surfaced.
        match h.1.next() {
            Err(err) => {
                self.iters = Vec::new();
                proof {
                    assert(qmap(self.iters@) == Map::<nat, Map<Seq<u8>, Seq<u8>>>::empty());
                    lemma_merged_empty_sm(self.smap());
                }
                return Err(err);
            },
            Ok(()) => {},
        }
        let ghost mh1 = h.1.model();
        proof {
            assert(mh1 == mh0.remove(hk@));
            assert(m_skipped.insert(php, mh1) == m_skipped.insert(php, m_skipped[php].remove(
                hk@,
            )));
            assert(merged(m_skipped.insert(php, mh1)) == merged(sm0).remove(hk@));
        }
        // Re-selection: the head rejoins the queue if it is still live, and
        // the globally smallest entry becomes the new head.
        let keep_head = h.1.is_valid();
        let ghost q_mid = self.iters@;
        if keep_head {
            self.iters.push(h);
            proof {
                assert(self.iters@.drop_last() =~= q_mid);
                assert(qmap(self.iters@) == qmap(q_mid).insert(php, self.iters@.last().1.model()));
                assert(qmap(self.iters@) =~= m_skipped.insert(php, mh1));
            }
        } else {
            proof {
                let sm2 = m_skipped.insert(php, mh1);
                assert(forall|k: Seq<u8>| !(#[trigger] sm2[php].dom().contains(k)));
                lemma_merged_drop_empty(sm2, php);
                assert(!qmap(q_mid).dom().contains(php)) by {
                    lemma_qmap_props(q_mid);
                    if qmap(q_mid).dom().contains(php) {
                        let j = choose|j: int|
                            0 <= j < q_mid.len() && (#[trigger] q_mid[j].0) as nat == php;
                    }
                }
                assert(sm2.remove(php) =~= qmap(q_mid));
                assert(merged(qmap(self.iters@)) == merged(sm0).remove(hk@));
            }
        }
        let ghost q_before = self.iters@;
        proof {
            assert(merged(qmap(q_before)) == merged(sm0).remove(hk@));
        }
        let newcur = Self::take_min(&mut self.iters);
        self.current = newcur;
        proof {
            lemma_qmap_props(q_before);
            match &self.current {
                None => {
                    assert(q_before.len() == 0);
                    assert(self.smap() == qmap(q_before));
                },
                Some(h2) => {
                    let i = choose|i: int| 0 <= i < q_before.len() && q_before[i] == h2;
                    assert(qmap(q_before)[h2.0 as nat] == h2.1.model());
                    assert(self.smap() =~= qmap(q_before));
                },
            }
            assert(self.model() == merged(sm0).remove(hk@));
            assert forall|k: Seq<u8>| #[trigger] is_min_key(m0, k) implies self.model()
                == m0.remove(k) by {
                lemma_min_key_unique(m0, k, hk@);
            }
        }
        Ok(())
    }
}

/// A key appears in the merged view exactly when some source holds it: the
/// merged key set is the union of the sources' key sets, each key once.
pub proof fn lemma_merged_dom(sm: SourceMaps, k: Seq<u8>)
    ensures
        merged(sm).dom().contains(k) <==> sm_has(sm, k),
{
}

/// When sources share a key, the merged view carries the value of the holder
/// with the smallest priority index: the lower-index source wins, whatever
/// the others hold.
pub proof fn lemma_shared_key_lower_index_wins(sm: SourceMaps, p: nat, k: Seq<u8>)
    requires
        sm.dom().contains(p),
        sm[p].dom().contains(k),
        forall|q: nat| #[trigger] sm.dom().contains(q) && sm[q].dom().contains(k) ==> p <= q,
    ensures
        merged(sm).dom().contains(k),
        merged(sm)[k] == sm[p][k],
{
    assert(sm_has(sm, k)) by {
        assert(sm.dom().contains(p) && sm[p].dom().contains(k));
    }
    assert(sm_wins(sm, p, k));
    lemma_winner_val(sm, p, k);
}

/// For sources with disjoint key sets every entry survives the merge under
/// its own value: the merged view is the union of the sources.
pub proof fn lemma_merged_disjoint_union(sm: SourceMaps, p: nat, k: Seq<u8>)
    requires
        sm.dom().contains(p),
        sm[p].dom().contains(k),
        forall|q: nat| #[trigger] sm.dom().contains(q) && sm[q].dom().contains(k) ==> q == p,
    ensures
        merged(sm).dom().contains(k),
        merged(sm)[k] == sm[p][k],
{
    lemma_shared_key_lower_index_wins(sm, p, k);
}

/// A family of exhausted sources merges to nothing, so an operator built over
/// it is exhausted from the start.
pub proof fn lemma_merged_all_empty(sm: SourceMaps)
    requires
        forall|p: nat| sm.dom().contains(p) ==> !map_nonempty(#[trigger] sm[p]),
    ensures
        !map_nonempty(merged(sm)),
{
    if map_nonempty(merged(sm)) {
        let k = choose|k: Seq<u8>| #[trigger] merged(sm).dom().contains(k);
        assert(sm_has(sm, k));
        let p = choose|p: nat| #[trigger] sm.dom().contains(p) && sm[p].dom().contains(k);
        assert(map_nonempty(sm[p])) by {
            assert(sm[p].dom().contains(k));
        }
    }
}

/// Each advance removes the smallest remaining key, so the keys an operator
/// emits ascend strictly: the output is sorted and holds no duplicate key.
pub proof fn lemma_output_sorted(m1: Map<Seq<u8>, Seq<u8>>, k1: Seq<u8>, k2: Seq<u8>)
    requires
        is_min_key(m1, k1),
        is_min_key(m1.remove(k1), k2),
    ensures
        lex_lt(k1, k2),
{
    assert(m1.dom().contains(k2));
    assert(lex_le(k1, k2));
    assert(k1 != k2);
}

/// The total number of remaining entries across a family of sources.
pub open spec fn total_entries<I: StorageIterator>(s: Seq<Box<I>>) -> nat
    decreases s.len(),
{
    if s.len() == 0 {
        0
    } else {
        total_entries(s.drop_last()) + s.last().model().dom().len()
    }
}

/// No key occurs in two different sources of the family.
pub open spec fn sources_disjoint<I: StorageIterator>(s: Seq<Box<I>>) -> bool {
    forall|i: int, j: int, k: Seq<u8>|
        #![trigger s[i].model().dom().contains(k), s[j].model().dom().contains(k)]
        0 <= i < j < s.len() && s[i].model().dom().contains(k) ==> !s[j].model().dom().contains(
            k,
        )
}

/// For sources with pairwise disjoint key sets nothing is shadowed: the
/// merged view holds as many entries as all the sources together.
pub proof fn lemma_merged_disjoint_len<I: StorageIterator>(s: Seq<Box<I>>)
    requires
        sources_disjoint(s),
        forall|i: int| 0 <= i < s.len() ==> (#[trigger] s[i]).model().dom().finite(),
    ensures
        merged(sources_map(s)).dom().finite(),
        merged(sources_map(s)).dom().len() == total_entries(s),
    decreases s.len(),
{
    lemma_sources_map_props(s);
    if s.len() == 0 {
        lemma_merged_empty_sm(sources_map(s));
        assert(merged(sources_map(s)).dom() =~= Set::<Seq<u8>>::empty());
    } else {
        let s0 = s.drop_last();
        assert(sources_disjoint(s0)) by {
            assert forall|i: int, j: int, k: Seq<u8>|
                #![trigger s0[i].model().dom().contains(k), s0[j].model().dom().contains(k)]
                0 <= i < j < s0.len() && s0[i].model().dom().contains(k)
                    implies !s0[j].model().dom().contains(k) by {
                assert(s0[i] == s[i] && s0[j] == s[j]);
            }
        }
        assert forall|i: int| 0 <= i < s0.len() implies (#[trigger] s0[i]).model().dom().finite()
            by {
            assert(s0[i] == s[i]);
        }
        lemma_merged_disjoint_len(s0);
        lemma_sources_map_props(s0);
        let dd = merged(sources_map(s0)).dom();
        let ll = s.last().model().dom();
        let nn = s.len() - 1;
        assert(merged(sources_map(s)).dom() =~= dd + ll) by {
            assert forall|k: Seq<u8>| #[trigger] merged(sources_map(s)).dom().contains(k)
                implies (dd + ll).contains(k) by {
                let p = choose|p: nat|
                    #[trigger] sources_map(s).dom().contains(p) && sources_map(
                        s,
                    )[p].dom().contains(k);
                if p == nn as nat {
                    assert(sources_map(s)[p] == s[nn].model());
                } else {
                    assert(p < s0.len());
                    assert(sources_map(s)[p] == s[p as int].model());
                    assert(s0[p as int] == s[p as int]);
                    assert(sources_map(s0)[p] == s0[p as int].model());
                    assert(sm_has(sources_map(s0), k)) by {
                        assert(sources_map(s0).dom().contains(p) && sources_map(
                            s0,
                        )[p].dom().contains(k));
                    }
                }
            }
            assert forall|k: Seq<u8>| #[trigger] (dd + ll).contains(k) implies merged(
                sources_map(s),
            ).dom().contains(k) by {
                if dd.contains(k) {
                    let p = choose|p: nat|
                        #[trigger] sources_map(s0).dom().contains(p) && sources_map(
                            s0,
                        )[p].dom().contains(k);
                    assert(s0[p as int] == s[p as int]);
                    assert(sources_map(s)[p] == s[p as int].model());
                    assert(sm_has(sources_map(s), k)) by {
                        assert(sources_map(s).dom().contains(p) && sources_map(
                            s,
                        )[p].dom().contains(k));
                    }
                } else {
                    assert(sm_has(sources_map(s), k)) by {
                        assert(sources_map(s).dom().contains(nn as nat) && sources_map(
                            s,
                        )[nn as nat].dom().contains(k));
                    }
                }
            }
        }
        assert(dd.disjoint(ll)) by {
            assert forall|k: Seq<u8>| dd.contains(k) implies !ll.contains(k) by {
                let p = choose|p: nat|
                    #[trigger] sources_map(s0).dom().contains(p) && sources_map(
                        s0,
                    )[p].dom().contains(k);
                assert(s0[p as int] == s[p as int]);
                assert(s[p as int].model().dom().contains(k));
            }
        }
        vstd::set_lib::lemma_set_disjoint_lens(dd, ll);
    }
}

} // verus!
