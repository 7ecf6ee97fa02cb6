//! Sorting integers.
use vstd::prelude::*;
use vstd::relations::{sorted_by, total_ordering};
use crate::counting::{lemma_occ_concat, lemma_occ_push, lemma_same_multiset, occ};

verus! {

/// The integers of a list, smallest first.
pub open spec fn ascending(s: Seq<i64>) -> Seq<i64> {
    s.sort_by(|a: i64, b: i64| a <= b)
}

/// No integer is followed by a smaller one.
pub open spec fn is_ascending(s: Seq<i64>) -> bool {
    forall|i: int, j: int| #![trigger s[i], s[j]] 0 <= i < j < s.len() ==> s[i] <= s[j]
}

/// A list in ascending order with the same integers is the sorted list.
pub proof fn lemma_is_sorted(s: Seq<i64>, r: Seq<i64>)
    requires
        is_ascending(r),
        forall|v: i64| #[trigger] occ(r, v) == occ(s, v),
    ensures
        r == ascending(s),
{
    let leq = |a: i64, b: i64| a <= b;
    assert(total_ordering(leq));
    s.lemma_sort_by_ensures(leq);
    lemma_same_multiset(r, s);
    assert(sorted_by(r, leq));
    vstd::seq_lib::lemma_sorted_unique(r, s.sort_by(leq), leq);
}

/// A sorted list is ascending and holds the same integers.
pub proof fn lemma_ascending(s: Seq<i64>)
    ensures
        is_ascending(ascending(s)),
        ascending(s).to_multiset() == s.to_multiset(),
        ascending(s).len() == s.len(),
{
    let leq = |a: i64, b: i64| a <= b;
    assert(total_ordering(leq));
    s.lemma_sort_by_ensures(leq);
    let r = ascending(s);
    assert forall|i: int, j: int| #![trigger r[i], r[j]] 0 <= i < j < r.len() implies r[i]
        <= r[j] by {
        assert(leq(r[i], r[j]));
    }
    r.to_multiset_ensures();
    s.to_multiset_ensures();
}

/// Sorting keeps what is in a list.
pub proof fn lemma_ascending_contains(s: Seq<i64>, v: i64)
    ensures
        ascending(s).contains(v) <==> s.contains(v),
{
    lemma_ascending(s);
    s.to_multiset_ensures();
    ascending(s).to_multiset_ensures();
    assert(ascending(s).contains(v) <==> ascending(s).to_multiset().count(v) > 0);
    assert(s.contains(v) <==> s.to_multiset().count(v) > 0);
}

/// Merge two ascending lists.
fn merge(a: &Vec<i64>, b: &Vec<i64>) -> (r: Vec<i64>)
    requires
        is_ascending(a@),
        is_ascending(b@),
    ensures
        is_ascending(r@),
        forall|v: i64| #[trigger] occ(r@, v) == occ(a@, v) + occ(b@, v),
{
    let mut r: Vec<i64> = Vec::new();
    let mut i: usize = 0;
    let mut j: usize = 0;
    while i < a.len() || j < b.len()
        invariant
            i <= a.len(),
            j <= b.len(),
            is_ascending(a@),
            is_ascending(b@),
            is_ascending(r@),
            forall|k: int, m: int|
                #![trigger r@[k], a@[m]]
                0 <= k < r@.len() && i <= m < a@.len() ==> r@[k] <= a@[m],
            forall|k: int, m: int|
                #![trigger r@[k], b@[m]]
                0 <= k < r@.len() && j <= m < b@.len() ==> r@[k] <= b@[m],
            forall|v: i64| #[trigger]
                occ(r@, v) == occ(a@.take(i as int), v) + occ(b@.take(j as int), v),
        decreases a.len() - i + b.len() - j,
    {
        let ghost before = r@;
        if j == b.len() || (i < a.len() && a[i] <= b[j]) {
            let x: i64 = a[i];
            r.push(x);
            proof {
                assert forall|v: i64| #[trigger]
                    occ(r@, v) == occ(a@.take(i + 1), v) + occ(b@.take(j as int), v) by {
                    lemma_occ_push(before, x, v);
                    lemma_occ_push(a@.take(i as int), x, v);
                    assert(a@.take(i + 1) =~= a@.take(i as int).push(x));
                    assert(occ(before, v) == occ(a@.take(i as int), v) + occ(b@.take(j as int), v));
                }
            }
            i += 1;
        } else {
            let x: i64 = b[j];
            r.push(x);
            proof {
                assert forall|v: i64| #[trigger]
                    occ(r@, v) == occ(a@.take(i as int), v) + occ(b@.take(j + 1), v) by {
                    lemma_occ_push(before, x, v);
                    lemma_occ_push(b@.take(j as int), x, v);
                    assert(b@.take(j + 1) =~= b@.take(j as int).push(x));
                    assert(occ(before, v) == occ(a@.take(i as int), v) + occ(b@.take(j as int), v));
                }
            }
            j += 1;
        }
    }
    assert(a@.take(i as int) =~= a@);
    assert(b@.take(j as int) =~= b@);
    r
}

/// The elements from `lo` to `hi`, in ascending order.
fn sort_range(v: &Vec<i64>, lo: usize, hi: usize) -> (r: Vec<i64>)
    requires
        lo <= hi <= v@.len(),
    ensures
        is_ascending(r@),
        forall|x: i64| #[trigger] occ(r@, x) == occ(v@.subrange(lo as int, hi as int), x),
    decreases hi - lo,
{
    if hi - lo <= 1 {
        let mut r: Vec<i64> = Vec::new();
        if lo < hi {
            r.push(v[lo]);
        }
        assert(r@ =~= v@.subrange(lo as int, hi as int));
        return r;
    }
    let mid: usize = lo + (hi - lo) / 2;
    let a = sort_range(v, lo, mid);
    let b = sort_range(v, mid, hi);
    let r = merge(&a, &b);
    proof {
        assert forall|x: i64| #[trigger] occ(r@, x) == occ(
            v@.subrange(lo as int, hi as int),
            x,
        ) by {
            let left = v@.subrange(lo as int, mid as int);
            let right = v@.subrange(mid as int, hi as int);
            assert(v@.subrange(lo as int, hi as int) =~= left + right);
            lemma_occ_concat(left, right, x);
            assert(occ(a@, x) == occ(left, x));
            assert(occ(b@, x) == occ(right, x));
        }
    }
    r
}

/// The integers of a list, smallest first.
pub fn sort_ascending(v: &Vec<i64>) -> (r: Vec<i64>)
    ensures
        r@ == ascending(v@),
{
    let r = sort_range(v, 0, v.len());
    proof {
        assert(v@.subrange(0, v@.len() as int) =~= v@);
        lemma_is_sorted(v@, r@);
    }
    r
}

} // verus!
