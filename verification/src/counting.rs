//! Counting occurrences in sequences: the lemmas behind every statement that
//! one list is a rearrangement of another.
use vstd::prelude::*;
use vstd::seq_lib::*;

verus! {

/// How often `v` occurs in `s`.
pub open spec fn occ<A>(s: Seq<A>, v: A) -> nat
    decreases s.len(),
{
    if s.len() == 0 {
        0
    } else {
        occ(s.drop_last(), v) + if s.last() == v {
            1nat
        } else {
            0nat
        }
    }
}

/// Counting agrees with the multiset of the sequence.
pub proof fn lemma_occ_multiset<A>(s: Seq<A>, v: A)
    ensures
        occ(s, v) == s.to_multiset().count(v),
    decreases s.len(),
{
    broadcast use group_to_multiset_ensures;

    if s.len() > 0 {
        lemma_occ_multiset(s.drop_last(), v);
        assert(s =~= s.drop_last().push(s.last()));
    } else {
        assert(s =~= Seq::<A>::empty());
        assert(!s.contains(v));
    }
}

/// Two sequences in which everything occurs equally often have the same
/// multiset.
pub proof fn lemma_same_multiset<A>(a: Seq<A>, b: Seq<A>)
    requires
        forall|v: A| #[trigger] occ(a, v) == occ(b, v),
    ensures
        a.to_multiset() == b.to_multiset(),
{
    assert forall|v: A| a.to_multiset().count(v) == b.to_multiset().count(v) by {
        lemma_occ_multiset(a, v);
        lemma_occ_multiset(b, v);
        assert(occ(a, v) == occ(b, v));
    }
    assert(a.to_multiset() =~= b.to_multiset());
}

pub proof fn lemma_occ_push<A>(s: Seq<A>, x: A, v: A)
    ensures
        occ(s.push(x), v) == occ(s, v) + if x == v {
            1nat
        } else {
            0nat
        },
{
    assert(s.push(x).drop_last() =~= s);
}

pub proof fn lemma_occ_concat<A>(a: Seq<A>, b: Seq<A>, v: A)
    ensures
        occ(a + b, v) == occ(a, v) + occ(b, v),
    decreases b.len(),
{
    if b.len() == 0 {
        assert(a + b =~= a);
    } else {
        lemma_occ_concat(a, b.drop_last(), v);
        assert((a + b).drop_last() =~= a + b.drop_last());
    }
}

pub proof fn lemma_occ_contains<A>(s: Seq<A>, v: A)
    ensures
        occ(s, v) > 0 <==> s.contains(v),
    decreases s.len(),
{
    if s.len() > 0 {
        lemma_occ_contains(s.drop_last(), v);
        assert(s.drop_last().contains(v) ==> s.contains(v)) by {
            if s.drop_last().contains(v) {
                let i = choose|i: int| 0 <= i < s.len() - 1 && s.drop_last()[i] == v;
                assert(s[i] == v);
            }
        }
        if s.contains(v) && s.last() != v {
            let i = choose|i: int| 0 <= i < s.len() && s[i] == v;
            assert(s.drop_last()[i] == v);
        }
        if s.last() == v {
            assert(s[s.len() - 1] == v);
        }
    }
}

pub proof fn lemma_occ_remove<A>(s: Seq<A>, k: int, v: A)
    requires
        0 <= k < s.len(),
    ensures
        occ(s, v) == occ(s.remove(k), v) + if s[k] == v {
            1nat
        } else {
            0nat
        },
    decreases s.len(),
{
    if k == s.len() - 1 {
        assert(s.remove(k) =~= s.drop_last());
    } else {
        lemma_occ_remove(s.drop_last(), k, v);
        assert(s.remove(k).drop_last() =~= s.drop_last().remove(k));
    }
}

/// What stands at two places occurs twice.
pub proof fn lemma_occ_twice<A>(s: Seq<A>, i: int, j: int)
    requires
        0 <= i < j < s.len(),
        s[i] == s[j],
    ensures
        occ(s, s[i]) >= 2,
{
    lemma_occ_remove(s, j, s[i]);
    let r = s.remove(j);
    lemma_occ_contains(r, s[i]);
    assert(r[i] == s[i]);
}

/// `idx` lists every index below `n` exactly once.
pub open spec fn is_permutation(idx: Seq<usize>, n: nat) -> bool {
    forall|v: usize|
        #[trigger] occ(idx, v) == if v < n {
            1nat
        } else {
            0nat
        }
}

/// Reading a list through a permutation of its indices keeps every element as
/// often as before.
pub proof fn lemma_permutation_keeps<A>(idx: Seq<usize>, s: Seq<A>, w: A)
    requires
        s.len() <= usize::MAX,
        is_permutation(idx, s.len()),
    ensures
        occ(idx.map_values(|i: usize| s[i as int]), w) == occ(s, w),
        idx.len() == s.len(),
    decreases s.len(),
{
    if s.len() == 0 {
        if idx.len() > 0 {
            lemma_occ_contains(idx, idx[0]);
            assert(idx.contains(idx[0]));
            assert(occ(idx, idx[0]) == 0);
        }
    } else {
        let last = (s.len() - 1) as usize;
        lemma_occ_contains(idx, last);
        assert(occ(idx, last) == 1);
        let k = choose|k: int| 0 <= k < idx.len() && idx[k] == last;
        let rest = idx.remove(k);
        let t = s.drop_last();
        assert forall|v: usize|
            #[trigger] occ(rest, v) == if v < t.len() {
                1nat
            } else {
                0nat
            } by {
            lemma_occ_remove(idx, k, v);
            assert(occ(idx, v) == if v < s.len() {
                1nat
            } else {
                0nat
            });
        }
        lemma_permutation_keeps(rest, t, w);
        let read = idx.map_values(|i: usize| s[i as int]);
        lemma_occ_remove(read, k, w);
        assert(read.remove(k) =~= rest.map_values(|i: usize| t[i as int])) by {
            assert forall|j: int| 0 <= j < rest.len() implies s[#[trigger] rest[j] as int]
                == t[rest[j] as int] by {
                lemma_occ_contains(rest, rest[j]);
                assert(rest.contains(rest[j]));
                assert(occ(rest, rest[j]) > 0);
            }
        }
    }
}

/// A permutation holds every index below its limit, each once, and no other.
pub proof fn permutations_hold_every_index(idx: Seq<usize>, n: nat, v: usize)
    requires
        is_permutation(idx, n),
    ensures
        idx.to_multiset().count(v) == if v < n {
            1nat
        } else {
            0nat
        },
{
    lemma_occ_multiset(idx, v);
}

} // verus!
