//! Choosing one candidate per site of a square lattice of dots: who neighbors
//! whom, the middle of what neighbors say, and the best of what is on offer.
use vstd::prelude::*;
use crate::sorting::{ascending, lemma_ascending, sort_ascending};

verus! {

/// The sites next to a site of an `n` by `n` lattice, numbered row by row:
/// before and after it in its column, then in its row.
pub open spec fn next_to(index: int, n: int) -> Seq<int> {
    let row = index / n;
    let col = index % n;
    (if row > 0 {
        seq![index - n]
    } else {
        Seq::empty()
    }) + (if row + 1 < n {
        seq![index + n]
    } else {
        Seq::empty()
    }) + (if col > 0 {
        seq![index - 1]
    } else {
        Seq::empty()
    }) + (if col + 1 < n {
        seq![index + 1]
    } else {
        Seq::empty()
    })
}

/// The list read as numbers.
pub open spec fn sites_of(v: Seq<usize>) -> Seq<int> {
    v.map_values(|i: usize| i as int)
}

/// The sites next to a site of a lattice.
pub fn neighbors(index: usize, n: usize) -> (r: Vec<usize>)
    requires
        0 < n,
        index < n * n,
        n * n <= usize::MAX,
    ensures
        sites_of(r@) == next_to(index as int, n as int),
{
    let row: usize = index / n;
    let col: usize = index % n;
    proof {
        let i = index as int;
        let m = n as int;
        vstd::arithmetic::div_mod::lemma_fundamental_div_mod(i, m);
        assert(row < n) by (nonlinear_arith)
            requires
                i == m * (i / m) + i % m,
                0 <= i % m,
                i < m * m,
                m > 0,
                row == i / m,
                m == n,
        ;
        assert(row > 0 ==> i >= m) by (nonlinear_arith)
            requires
                i == m * row + i % m,
                0 <= i % m,
                row >= 0,
                m > 0,
        ;
        assert(row + 1 < n ==> i + m < m * m) by (nonlinear_arith)
            requires
                i == m * row + i % m,
                i % m < m,
                m == n,
                m > 0,
        ;
        assert(col + 1 < n ==> i + 1 < m * m) by (nonlinear_arith)
            requires
                i == m * row + i % m,
                col == i % m,
                row < n,
                m == n,
                m > 0,
        ;
    }
    let mut r: Vec<usize> = Vec::new();
    if row > 0 {
        r.push(index - n);
    }
    if row + 1 < n {
        r.push(index + n);
    }
    if col > 0 {
        r.push(index - 1);
    }
    if col + 1 < n {
        r.push(index + 1);
    }
    assert(sites_of(r@) =~= next_to(index as int, n as int));
    r
}

/// Every neighbor is a site of the lattice, and whoever is next to a site has
/// that site next to it.
pub proof fn neighbors_are_mutual(i: int, j: int, n: int)
    requires
        0 < n,
        0 <= i < n * n,
        next_to(i, n).contains(j),
    ensures
        0 <= j < n * n,
        next_to(j, n).contains(i),
{
    let row = i / n;
    let col = i % n;
    vstd::arithmetic::div_mod::lemma_fundamental_div_mod(i, n);
    assert(0 <= row < n) by (nonlinear_arith)
        requires
            i == n * row + col,
            0 <= col < n,
            0 <= i < n * n,
    ;
    let s = next_to(i, n);
    let k = choose|k: int| 0 <= k < s.len() && s[k] == j;
    let (r2, c2) = if j == i - n && row > 0 {
        (row - 1, col)
    } else if j == i + n && row + 1 < n {
        (row + 1, col)
    } else if j == i - 1 && col > 0 {
        (row, col - 1)
    } else {
        (row, col + 1)
    };
    assert(0 <= r2 < n && 0 <= c2 < n);
    assert(j == n * r2 + c2) by (nonlinear_arith)
        requires
            i == n * row + col,
            (j == i - n && r2 == row - 1 && c2 == col) || (j == i + n && r2 == row + 1 && c2 == col)
                || (j == i - 1 && r2 == row && c2 == col - 1) || (j == i + 1 && r2 == row && c2 == col
                + 1),
    ;
    vstd::arithmetic::div_mod::lemma_fundamental_div_mod_converse(j, n, r2, c2);
    assert(0 <= j < n * n) by (nonlinear_arith)
        requires
            j == n * r2 + c2,
            0 <= r2 < n,
            0 <= c2 < n,
    ;
    let t = next_to(j, n);
    let up = if r2 > 0 {
        1int
    } else {
        0
    };
    let down = if r2 + 1 < n {
        1int
    } else {
        0
    };
    let left = if c2 > 0 {
        1int
    } else {
        0
    };
    if i == j - n && r2 > 0 {
        assert(t[0] == i);
    } else if i == j + n && r2 + 1 < n {
        assert(t[up] == i);
    } else if i == j - 1 && c2 > 0 {
        assert(t[up + down] == i);
    } else {
        assert(t[up + down + left] == i);
    }
}

/// The value half-way up a list, the upper one of two.
pub fn median(values: &Vec<i64>) -> (m: Option<i64>)
    ensures
        m is None <==> values@.len() == 0,
        m matches Some(v) ==> v == ascending(values@)[values@.len() as int / 2],
{
    if values.len() == 0 {
        return None;
    }
    let s = sort_ascending(values);
    proof {
        lemma_ascending(values@);
    }
    Some(s[values.len() / 2])
}

/// `k` has the greatest of the values that are there, and the last of those.
pub open spec fn is_best(values: Seq<Option<i64>>, k: int) -> bool {
    &&& 0 <= k < values.len()
    &&& values[k] is Some
    &&& forall|j: int|
        0 <= j < values.len() && (#[trigger] values[j]) is Some ==> values[j]->0 <= values[k]->0 && (j
            > k ==> values[j]->0 < values[k]->0)
}

/// The candidate of the greatest value among those admitted, the last one of
/// equals.
pub fn best(values: &Vec<Option<i64>>) -> (r: Option<usize>)
    ensures
        r is None <==> forall|j: int| 0 <= j < values@.len() ==> (#[trigger] values@[j]) is None,
        r matches Some(k) ==> is_best(values@, k as int),
{
    let mut r: Option<usize> = None;
    let mut i: usize = 0;
    while i < values.len()
        invariant
            i <= values@.len(),
            r is None <==> forall|j: int| 0 <= j < i ==> (#[trigger] values@[j]) is None,
            r matches Some(k) ==> k < i && is_best(values@.take(i as int), k as int),
        decreases values@.len() - i,
    {
        let ghost was = values@.take(i as int);
        let ghost now = values@.take(i + 1);
        if let Some(v) = values[i] {
            let better: bool = match r {
                None => true,
                Some(k) => {
                    assert(was[k as int] == values@[k as int]);
                    match values[k] {
                        Some(w) => v >= w,
                        None => true,
                    }
                },
            };
            if better {
                r = Some(i);
            }
        }
        proof {
            assert(now[i as int] == values@[i as int]);
            assert forall|j: int| 0 <= j < i implies now[j] == #[trigger] was[j] by {}
            if let Some(k) = r {
                assert(now[k as int] == values@[k as int]);
                assert forall|j: int| 0 <= j < now.len() && (#[trigger] now[j]) is Some implies now[j]->0
                    <= now[k as int]->0 && (j > k ==> now[j]->0 < now[k as int]->0) by {
                    if j < i {
                        assert(now[j] == was[j]);
                        assert(was[j] == values@[j]);
                    }
                }
            }
        }
        i += 1;
    }
    assert(values@.take(i as int) =~= values@);
    r
}

/// `k` has the greatest total, and the first of those.
pub open spec fn is_leader(totals: Seq<i64>, k: int) -> bool {
    &&& 0 <= k < totals.len()
    &&& forall|j: int|
        0 <= j < totals.len() ==> (#[trigger] totals[j]) <= totals[k] && (j < k ==> totals[j]
            < totals[k])
}

/// The first proposal with the greatest support.
pub fn leader(totals: &Vec<i64>) -> (r: Option<usize>)
    ensures
        r is None <==> totals@.len() == 0,
        r matches Some(k) ==> is_leader(totals@, k as int),
{
    if totals.len() == 0 {
        return None;
    }
    let mut k: usize = 0;
    let mut i: usize = 1;
    while i < totals.len()
        invariant
            k < i <= totals@.len(),
            forall|j: int|
                0 <= j < i ==> (#[trigger] totals@[j]) <= totals@[k as int] && (j < k ==> totals@[j]
                    < totals@[k as int]),
        decreases totals@.len() - i,
    {
        if totals[i] > totals[k] {
            k = i;
        }
        i += 1;
    }
    Some(k)
}

/// The neighbors of a site are the sites one step away along its row or its
/// column, each named once.
pub proof fn neighbors_are_one_step_away(r: int, c: int, r2: int, c2: int, n: int)
    requires
        0 <= r < n,
        0 <= c < n,
        0 <= r2 < n,
        0 <= c2 < n,
    ensures
        next_to(r * n + c, n).contains(r2 * n + c2) <==> (r2 == r && (c2 == c - 1 || c2 == c + 1))
            || (c2 == c && (r2 == r - 1 || r2 == r + 1)),
        next_to(r * n + c, n).no_duplicates(),
{
    let i = r * n + c;
    let j = r2 * n + c2;
    assert(r * n == n * r && r2 * n == n * r2) by (nonlinear_arith);
    vstd::arithmetic::div_mod::lemma_fundamental_div_mod_converse(i, n, r, c);
    let s = next_to(i, n);
    assert((r - 1) * n + c == i - n && (r + 1) * n + c == i + n) by (nonlinear_arith)
        requires
            i == r * n + c,
    ;
    let up = if r > 0 {
        1int
    } else {
        0
    };
    let down = if r + 1 < n {
        1int
    } else {
        0
    };
    let left = if c > 0 {
        1int
    } else {
        0
    };
    if r2 == r && c2 == c - 1 {
        assert(s[up + down] == j);
    } else if r2 == r && c2 == c + 1 {
        assert(s[up + down + left] == j);
    } else if c2 == c && r2 == r - 1 {
        assert(s[0] == j);
    } else if c2 == c && r2 == r + 1 {
        assert(s[up] == j);
    } else if s.contains(j) {
        let (r3, c3) = if j == i - n && r > 0 {
            (r - 1, c)
        } else if j == i + n && r + 1 < n {
            (r + 1, c)
        } else if j == i - 1 && c > 0 {
            (r, c - 1)
        } else {
            (r, c + 1)
        };
        assert(j == n * r3 + c3) by (nonlinear_arith)
            requires
                i == r * n + c,
                (j == i - n && r3 == r - 1 && c3 == c) || (j == i + n && r3 == r + 1 && c3 == c)
                    || (j == i - 1 && r3 == r && c3 == c - 1) || (j == i + 1 && r3 == r && c3 == c
                    + 1),
        ;
        vstd::arithmetic::div_mod::lemma_fundamental_div_mod_converse(j, n, r2, c2);
        vstd::arithmetic::div_mod::lemma_fundamental_div_mod_converse(j, n, r3, c3);
    }
}

} // verus!
