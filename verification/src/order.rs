//! Lexicographic order on byte-string keys, and the priority order on
//! (key, source index) pairs that decides which source the merge surfaces.
use vstd::prelude::*;

verus! {

/// `a` sorts at or before `b` in byte-wise lexicographic order.
pub open spec fn lex_le(a: Seq<u8>, b: Seq<u8>) -> bool
    decreases a.len(),
{
    if a.len() == 0 {
        true
    } else if b.len() == 0 {
        false
    } else if a[0] < b[0] {
        true
    } else if b[0] < a[0] {
        false
    } else {
        lex_le(a.drop_first(), b.drop_first())
    }
}

/// `a` sorts strictly before `b`.
pub open spec fn lex_lt(a: Seq<u8>, b: Seq<u8>) -> bool {
    lex_le(a, b) && a != b
}

/// (k1, p1) sorts strictly before (k2, p2): ascending by key, ties broken by
/// ascending source index.
pub open spec fn pair_lt(k1: Seq<u8>, p1: nat, k2: Seq<u8>, p2: nat) -> bool {
    lex_lt(k1, k2) || (k1 == k2 && p1 < p2)
}

/// (k1, p1) sorts at or before (k2, p2).
pub open spec fn pair_le(k1: Seq<u8>, p1: nat, k2: Seq<u8>, p2: nat) -> bool {
    lex_lt(k1, k2) || (k1 == k2 && p1 <= p2)
}

pub proof fn lemma_lex_le_refl(a: Seq<u8>)
    ensures
        lex_le(a, a),
    decreases a.len(),
{
    if a.len() > 0 {
        lemma_lex_le_refl(a.drop_first());
    }
}

pub proof fn lemma_lex_le_total(a: Seq<u8>, b: Seq<u8>)
    ensures
        lex_le(a, b) || lex_le(b, a),
    decreases a.len(),
{
    if a.len() > 0 && b.len() > 0 && a[0] == b[0] {
        lemma_lex_le_total(a.drop_first(), b.drop_first());
    }
}

pub proof fn lemma_lex_le_antisym(a: Seq<u8>, b: Seq<u8>)
    requires
        lex_le(a, b),
        lex_le(b, a),
    ensures
        a == b,
    decreases a.len(),
{
    if a.len() > 0 && b.len() > 0 {
        lemma_lex_le_antisym(a.drop_first(), b.drop_first());
        assert(a.drop_first() == b.drop_first());
        assert(a.drop_first().len() == b.drop_first().len());
        assert(a.len() == b.len());
        assert forall|j: int| 0 <= j < a.len() implies a[j] == b[j] by {
            if j > 0 {
                assert(a[j] == a.drop_first()[j - 1]);
                assert(b[j] == b.drop_first()[j - 1]);
            }
        }
        assert(a =~= b);
    } else {
        assert(a =~= b);
    }
}

pub proof fn lemma_lex_le_trans(a: Seq<u8>, b: Seq<u8>, c: Seq<u8>)
    requires
        lex_le(a, b),
        lex_le(b, c),
    ensures
        lex_le(a, c),
    decreases a.len(),
{
    if a.len() > 0 && b.len() > 0 && c.len() > 0 {
        if a[0] == b[0] && b[0] == c[0] {
            lemma_lex_le_trans(a.drop_first(), b.drop_first(), c.drop_first());
        }
    }
}

/// Strict-on-the-left transitivity, a corollary of transitivity and antisymmetry.
pub proof fn lemma_lex_lt_le_trans(a: Seq<u8>, b: Seq<u8>, c: Seq<u8>)
    requires
        lex_lt(a, b),
        lex_le(b, c),
    ensures
        lex_lt(a, c),
{
    lemma_lex_le_trans(a, b, c);
    if a == c {
        lemma_lex_le_antisym(b, c);
    }
}

pub proof fn lemma_pair_lt_trans(
    k1: Seq<u8>,
    p1: nat,
    k2: Seq<u8>,
    p2: nat,
    k3: Seq<u8>,
    p3: nat,
)
    requires
        pair_lt(k1, p1, k2, p2),
        pair_lt(k2, p2, k3, p3),
    ensures
        pair_lt(k1, p1, k3, p3),
{
    if lex_lt(k1, k2) && lex_lt(k2, k3) {
        lemma_lex_lt_le_trans(k1, k2, k3);
    }
}

/// A pair that beats a source's smallest key beats every key of that source.
pub proof fn lemma_pair_lt_key_widen(k1: Seq<u8>, p1: nat, k2: Seq<u8>, p2: nat, k3: Seq<u8>)
    requires
        pair_lt(k1, p1, k2, p2),
        lex_le(k2, k3),
    ensures
        pair_lt(k1, p1, k3, p2),
{
    if lex_lt(k1, k2) {
        lemma_lex_lt_le_trans(k1, k2, k3);
    }
}

/// Equal prefixes of length `i` do not affect how the remainders compare.
pub proof fn lemma_lex_le_common_prefix(a: Seq<u8>, b: Seq<u8>, i: int)
    requires
        0 <= i <= a.len(),
        i <= b.len(),
        forall|j: int| 0 <= j < i ==> a[j] == b[j],
    ensures
        lex_le(a, b) == lex_le(a.skip(i), b.skip(i)),
    decreases i,
{
    if i > 0 {
        assert(a[0] == b[0]);
        assert forall|j: int| 0 <= j < i - 1 implies a.drop_first()[j] == b.drop_first()[j] by {
            assert(a[j + 1] == b[j + 1]);
        }
        lemma_lex_le_common_prefix(a.drop_first(), b.drop_first(), i - 1);
        assert(a.drop_first().skip(i - 1) =~= a.skip(i));
        assert(b.drop_first().skip(i - 1) =~= b.skip(i));
    } else {
        assert(a.skip(0) =~= a);
        assert(b.skip(0) =~= b);
    }
}

/// Compares two keys byte by byte.
pub fn key_le(a: &Vec<u8>, b: &Vec<u8>) -> (r: bool)
    ensures
        r == lex_le(a@, b@),
{
    let alen = a.len();
    let blen = b.len();
    let mut i: usize = 0;
    loop
        invariant
            i <= alen,
            i <= blen,
            alen == a@.len(),
            blen == b@.len(),
            forall|j: int| 0 <= j < i ==> a@[j] == b@[j],
        decreases alen - i,
    {
        if i == alen || i == blen {
            proof {
                lemma_lex_le_common_prefix(a@, b@, i as int);
            }
            return alen <= blen;
        }
        let x = a[i];
        let y = b[i];
        if x < y {
            proof {
                lemma_lex_le_common_prefix(a@, b@, i as int);
            }
            return true;
        }
        if y < x {
            proof {
                lemma_lex_le_common_prefix(a@, b@, i as int);
            }
            return false;
        }
        i = i + 1;
    }
}

/// Tests two keys for byte-wise equality.
pub fn key_eq(a: &Vec<u8>, b: &Vec<u8>) -> (r: bool)
    ensures
        r == (a@ == b@),
{
    let le1 = key_le(a, b);
    let le2 = key_le(b, a);
    proof {
        if lex_le(a@, b@) && lex_le(b@, a@) {
            lemma_lex_le_antisym(a@, b@);
        }
        lemma_lex_le_refl(a@);
    }
    le1 && le2
}

} // verus!
