//! Heat-aware ordering of path elements.
//!
//! Elements are bucketed into grid cells by centroid, chained nearest
//! neighbour inside each cell, and emitted one per cell per round, the cells
//! visited in a snake sweep. Consecutive elements then come from different
//! cells, so heat spreads, while every jump stays near the grid pitch.
use vstd::prelude::*;
use crate::counting::{
    is_permutation, lemma_occ_concat, lemma_occ_contains, lemma_occ_multiset, lemma_occ_push,
    lemma_occ_remove, lemma_occ_twice, lemma_permutation_keeps, lemma_same_multiset, occ,
};
use crate::model::{lemma_ring_view, ElemV, Nm, PathElem, Paths, Ring, P};

verus! {

broadcast use lemma_ring_view;

/// Side length of a bucketing grid cell: ten millimeters.
pub const CELL_NM: i64 = 10_000_000;

/// A point at the origin.
pub open spec fn origin() -> P {
    P { x: 0, y: 0 }
}

/// Where tracing an element starts; the origin if it has no points.
pub open spec fn start_of(e: ElemV) -> P {
    if e.pts.len() == 0 {
        origin()
    } else {
        e.pts.first()
    }
}

/// Where tracing an element ends; the origin if it has no points.
pub open spec fn end_of(e: ElemV) -> P {
    if e.pts.len() == 0 {
        origin()
    } else {
        e.pts.last()
    }
}

pub open spec fn sum_x(s: Seq<P>) -> int
    decreases s.len(),
{
    if s.len() == 0 {
        0
    } else {
        sum_x(s.drop_last()) + s.last().x
    }
}

pub open spec fn sum_y(s: Seq<P>) -> int
    decreases s.len(),
{
    if s.len() == 0 {
        0
    } else {
        sum_y(s.drop_last()) + s.last().y
    }
}

/// Division that rounds toward zero.
pub open spec fn toward_zero(a: int, n: int) -> int {
    if a >= 0 {
        a / n
    } else {
        -((-a) / n)
    }
}

/// Mean of the points, each coordinate rounded toward zero; the origin if
/// there are none.
pub open spec fn centroid_of(s: Seq<P>) -> (int, int) {
    if s.len() == 0 {
        (0, 0)
    } else {
        (toward_zero(sum_x(s), s.len() as int), toward_zero(sum_y(s), s.len() as int))
    }
}

/// The grid cell of an element: its centroid divided by the cell side, rounded
/// down.
pub open spec fn cell_of(e: ElemV) -> (int, int) {
    let c = centroid_of(e.pts);
    (c.0 / (CELL_NM as int), c.1 / (CELL_NM as int))
}

/// The sweep over cells: columns left to right, even columns upward and odd
/// ones downward.
pub open spec fn sweeps_before(a: (int, int), b: (int, int)) -> bool {
    a.0 < b.0 || (a.0 == b.0 && (if a.0 % 2 == 0 {
        a.1 < b.1
    } else {
        a.1 > b.1
    }))
}

/// Squared distance between two points.
pub open spec fn dist2(a: P, b: P) -> int {
    (a.x - b.x) * (a.x - b.x) + (a.y - b.y) * (a.y - b.y)
}

/// Order by start point, then by position in the input.
pub open spec fn starts_before(elems: Seq<ElemV>, i: usize, j: usize) -> bool {
    let a = start_of(elems[i as int]);
    let b = start_of(elems[j as int]);
    a.x < b.x || (a.x == b.x && (a.y < b.y || (a.y == b.y && i < j)))
}

/// From `cur`, element `i` is the better next one: nearer, or equally near and
/// first by start point.
pub open spec fn nearer(elems: Seq<ElemV>, cur: P, i: usize, j: usize) -> bool {
    let a = dist2(cur, start_of(elems[i as int]));
    let b = dist2(cur, start_of(elems[j as int]));
    a < b || (a == b && starts_before(elems, i, j))
}

/// A nearest-neighbour chain: it begins at the smallest start point, and each
/// element is followed by the best of those that are left.
pub open spec fn is_chain(elems: Seq<ElemV>, chain: Seq<usize>) -> bool {
    &&& forall|m: int| 0 < m < chain.len() ==> starts_before(elems, chain[0], #[trigger] chain[m])
    &&& forall|k: int, m: int|
        #![trigger chain[k], chain[m]]
        0 < k < m < chain.len() ==> nearer(
            elems,
            end_of(elems[chain[k - 1] as int]),
            chain[k],
            chain[m],
        )
}

/// One cell of the grid and the chain of the elements in it.
#[verifier::ext_equal]
pub struct CellPlan {
    pub key: (int, int),
    pub chain: Seq<usize>,
}

/// The indices in `idxs` are those of the elements among the first `n` that
/// lie in cell `key`, each once.
pub open spec fn lists_cell(elems: Seq<ElemV>, n: nat, key: (int, int), idxs: Seq<usize>) -> bool {
    forall|v: usize|
        #[trigger] occ(idxs, v) == if v < n && cell_of(elems[v as int]) == key {
            1nat
        } else {
            0nat
        }
}

/// Some cell of the plan has this key.
pub open spec fn has_cell(cells: Seq<CellPlan>, key: (int, int)) -> bool {
    exists|c: int| 0 <= c < cells.len() && (#[trigger] cells[c]).key == key
}

/// The plan of a sweep over all elements: the non-empty cells in sweep order,
/// each with the nearest-neighbour chain of exactly its own elements.
pub open spec fn is_plan(elems: Seq<ElemV>, cells: Seq<CellPlan>) -> bool {
    &&& forall|a: int, b: int|
        #![trigger cells[a], cells[b]]
        0 <= a < b < cells.len() ==> sweeps_before(cells[a].key, cells[b].key)
    &&& forall|c: int|
        #![trigger cells[c]]
        0 <= c < cells.len() ==> {
            &&& cells[c].chain.len() > 0
            &&& is_chain(elems, cells[c].chain)
            &&& lists_cell(elems, elems.len(), cells[c].key, cells[c].chain)
        }
    &&& forall|v: int|
        #![trigger elems[v]]
        0 <= v < elems.len() ==> has_cell(cells, cell_of(elems[v]))
}

/// What one round emits from the first `n` cells: the `r`-th element of every
/// chain that has one.
pub open spec fn one_round(cells: Seq<CellPlan>, r: nat, n: nat) -> Seq<usize>
    decreases n,
{
    if n == 0 {
        Seq::empty()
    } else {
        let before = one_round(cells, r, (n - 1) as nat);
        if r < cells[n - 1].chain.len() {
            before.push(cells[n - 1].chain[r as int])
        } else {
            before
        }
    }
}

/// What the first `r` rounds emit.
pub open spec fn rounds(cells: Seq<CellPlan>, r: nat) -> Seq<usize>
    decreases r,
{
    if r == 0 {
        Seq::empty()
    } else {
        rounds(cells, (r - 1) as nat) + one_round(cells, (r - 1) as nat, cells.len())
    }
}

/// Round `r` and all later ones are empty.
pub open spec fn exhausted(cells: Seq<CellPlan>, r: nat) -> bool {
    forall|c: int| 0 <= c < cells.len() ==> (#[trigger] cells[c]).chain.len() <= r
}

/// The elements at a list of positions.
pub open spec fn read(elems: Seq<ElemV>, idx: Seq<usize>) -> Seq<ElemV> {
    idx.map_values(|i: usize| elems[i as int])
}

/// A heat-aware order of `elems`: the rounds of a plan, run until every chain
/// is used up.
pub open spec fn is_ordering(elems: Seq<ElemV>, out: Seq<ElemV>) -> bool {
    exists|cells: Seq<CellPlan>, r: nat|
        {
            &&& is_plan(elems, cells)
            &&& exhausted(cells, r)
            &&& out == read(elems, #[trigger] rounds(cells, r))
        }
}

/// Differences between element ends and element starts fit a coordinate and
/// its negation.
pub open spec fn jumps_fit(elems: Seq<ElemV>) -> bool {
    forall|i: int, j: int|
        #![trigger elems[i], elems[j]]
        0 <= i < elems.len() && 0 <= j < elems.len() && i != j ==> {
            let a = end_of(elems[i]);
            let b = start_of(elems[j]);
            &&& -i64::MAX <= a.x - b.x <= i64::MAX
            &&& -i64::MAX <= a.y - b.y <= i64::MAX
        }
}

/// Start point of an element; the origin if it is empty.
pub fn start(e: &PathElem) -> (p: P)
    ensures
        p == start_of(e.deep_view()),
{
    if e.pts.len() == 0 {
        P { x: 0, y: 0 }
    } else {
        e.pts[0]
    }
}

/// End point of an element; the origin if it is empty.
pub fn end(e: &PathElem) -> (p: P)
    ensures
        p == end_of(e.deep_view()),
{
    if e.pts.len() == 0 {
        P { x: 0, y: 0 }
    } else {
        e.pts[e.pts.len() - 1]
    }
}

/// A sum over `n`, rounded toward zero after division.
fn mean(sum: i128, n: usize) -> (m: i64)
    requires
        n > 0,
        i64::MIN * n <= sum <= i64::MAX * n,
    ensures
        m == toward_zero(sum as int, n as int),
{
    let d: u128 = n as u128;
    if sum >= 0 {
        let q: u128 = (sum as u128) / d;
        proof {
            assert(q <= i64::MAX) by (nonlinear_arith)
                requires
                    d > 0,
                    0 <= sum <= i64::MAX * d,
                    q == (sum as u128) / d,
            ;
        }
        q as i64
    } else {
        let q: u128 = ((-(sum + 1)) as u128 + 1) / d;
        proof {
            let a: int = -(sum as int);
            assert(q == a / (d as int));
            assert(a / (d as int) <= 0x8000_0000_0000_0000) by (nonlinear_arith)
                requires
                    d > 0,
                    0 <= a <= 0x8000_0000_0000_0000 * d,
            ;
        }
        if q == 0x8000_0000_0000_0000 {
            i64::MIN
        } else {
            -(q as i64)
        }
    }
}

/// Centroid (mean of the points) of an element; the origin if it is empty.
pub fn centroid(e: &PathElem) -> (p: P)
    ensures
        (p.x as int, p.y as int) == centroid_of(e.pts@),
{
    if e.pts.len() == 0 {
        return P { x: 0, y: 0 };
    }
    let (sx, sy) = point_sums(&e.pts);
    P { x: mean(sx, e.pts.len()), y: mean(sy, e.pts.len()) }
}

/// The sums of the coordinates of some points.
pub fn point_sums(pts: &Ring) -> (r: (i128, i128))
    ensures
        r.0 == sum_x(pts@),
        r.1 == sum_y(pts@),
        i64::MIN * pts@.len() <= r.0 <= i64::MAX * pts@.len(),
        i64::MIN * pts@.len() <= r.1 <= i64::MAX * pts@.len(),
{
    let mut sx: i128 = 0;
    let mut sy: i128 = 0;
    let mut i: usize = 0;
    while i < pts.len()
        invariant
            i <= pts.len(),
            sx == sum_x(pts@.take(i as int)),
            sy == sum_y(pts@.take(i as int)),
            i64::MIN * i <= sx <= i64::MAX * i,
            i64::MIN * i <= sy <= i64::MAX * i,
        decreases pts.len() - i,
    {
        assert(pts@.take(i + 1).drop_last() =~= pts@.take(i as int));
        sx = sx + pts[i].x as i128;
        sy = sy + pts[i].y as i128;
        i += 1;
    }
    assert(pts@.take(i as int) =~= pts@);
    (sx, sy)
}

/// Division by the cell side, rounded down.
fn cell_index(x: Nm) -> (c: i64)
    ensures
        c == x as int / (CELL_NM as int),
{
    if x >= 0 {
        x / CELL_NM
    } else {
        let m: i64 = -(x + 1);
        -(m / CELL_NM) - 1
    }
}

/// Squared jump between two points.
pub fn jump2(a: P, b: P) -> (d: i128)
    requires
        -i64::MAX <= a.x - b.x <= i64::MAX,
        -i64::MAX <= a.y - b.y <= i64::MAX,
    ensures
        d == dist2(a, b),
{
    let dx: i128 = a.x as i128 - b.x as i128;
    let dy: i128 = a.y as i128 - b.y as i128;
    proof {
        assert(0 <= dx * dx <= i64::MAX * i64::MAX) by (nonlinear_arith)
            requires
                -i64::MAX <= dx <= i64::MAX,
        ;
        assert(0 <= dy * dy <= i64::MAX * i64::MAX) by (nonlinear_arith)
            requires
                -i64::MAX <= dy <= i64::MAX,
        ;
    }
    dx * dx + dy * dy
}

fn is_before(elems: &Vec<PathElem>, i: usize, j: usize) -> (b: bool)
    requires
        i < elems@.len(),
        j < elems@.len(),
    ensures
        b == starts_before(elems.deep_view(), i, j),
{
    let a = start(&elems[i]);
    let b = start(&elems[j]);
    a.x < b.x || (a.x == b.x && (a.y < b.y || (a.y == b.y && i < j)))
}

/// Nearest-neighbour chain over `idxs`, measured from the end of one element
/// to the start of the next. It begins at the smallest start point.
fn nn_chain(elems: &Vec<PathElem>, idxs: Vec<usize>) -> (chain: Vec<usize>)
    requires
        jumps_fit(elems.deep_view()),
        forall|k: int| 0 <= k < idxs@.len() ==> (#[trigger] idxs@[k]) < elems@.len(),
        idxs@.no_duplicates(),
    ensures
        is_chain(elems.deep_view(), chain@),
        forall|v: usize| #[trigger] occ(chain@, v) == occ(idxs@, v),
        chain@.len() == idxs@.len(),
{
    let ghost ev = elems.deep_view();
    let ghost all = idxs@;
    let mut left: Vec<usize> = idxs;
    let mut chain: Vec<usize> = Vec::new();
    while left.len() > 0
        invariant
            ev == elems.deep_view(),
            jumps_fit(ev),
            left@.no_duplicates(),
            forall|k: int| 0 <= k < left@.len() ==> (#[trigger] left@[k]) < elems@.len(),
            forall|k: int| 0 <= k < chain@.len() ==> (#[trigger] chain@[k]) < elems@.len(),
            forall|k: int| 0 <= k < left@.len() ==> !chain@.contains(#[trigger] left@[k]),
            forall|v: usize| #[trigger] occ(chain@, v) + occ(left@, v) == occ(all, v),
            chain@.len() + left@.len() == all.len(),
            is_chain(ev, chain@),
            chain@.len() > 0 ==> forall|m: int|
                0 <= m < left@.len() ==> starts_before(ev, chain@[0], #[trigger] left@[m]),
            forall|k: int, m: int|
                #![trigger chain@[k], left@[m]]
                0 < k < chain@.len() && 0 <= m < left@.len() ==> nearer(
                    ev,
                    end_of(ev[chain@[k - 1] as int]),
                    chain@[k],
                    left@[m],
                ),
        decreases left.len(),
    {
        let fresh = chain.len() == 0;
        let mut best: usize = 0;
        let mut m: usize = 1;
        let last: usize = if fresh {
            left[0]
        } else {
            chain[chain.len() - 1]
        };
        let cur = end(&elems[last]);
        proof {
            if !fresh {
                assert(chain@.contains(last));
            }
        }
        while m < left.len()
            invariant
                1 <= m <= left.len(),
                best < m,
                ev == elems.deep_view(),
                jumps_fit(ev),
                last < elems@.len(),
                cur == end_of(ev[last as int]),
                !fresh ==> forall|k: int| 0 <= k < left@.len() ==> #[trigger] left@[k] != last,
                left@.no_duplicates(),
                forall|k: int| 0 <= k < left@.len() ==> (#[trigger] left@[k]) < elems@.len(),
                fresh ==> forall|k: int|
                    0 <= k < m && k != best ==> starts_before(
                        ev,
                        left@[best as int],
                        #[trigger] left@[k],
                    ),
                !fresh ==> forall|k: int|
                    0 <= k < m && k != best ==> nearer(
                        ev,
                        cur,
                        left@[best as int],
                        #[trigger] left@[k],
                    ),
            decreases left.len() - m,
        {
            let i: usize = left[m];
            let b: usize = left[best];
            assert(left@[m as int] != left@[best as int]);
            let before = is_before(elems, i, b);
            assert(before || starts_before(ev, b, i));
            let better = if fresh {
                before
            } else {
                assert(ev[i as int] == elems@[i as int].deep_view());
                assert(ev[b as int] == elems@[b as int].deep_view());
                assert(ev[last as int] == ev[last as int]);
                let di: i128 = jump2(cur, start(&elems[i]));
                let db: i128 = jump2(cur, start(&elems[b]));
                di < db || (di == db && before)
            };
            if better {
                best = m;
            }
            m += 1;
        }
        let ghost old_left = left@;
        let ghost old_chain = chain@;
        let pick: usize = left.remove(best);
        chain.push(pick);
        proof {
            assert(pick == old_left[best as int]);
            assert forall|k: int| 0 <= k < left@.len() implies !chain@.contains(
                #[trigger] left@[k],
            ) by {
                let o = if k < best {
                    k
                } else {
                    k + 1
                };
                assert(left@[k] == old_left[o]);
                assert(old_left[o] != old_left[best as int]);
                if chain@.contains(left@[k]) {
                    let t = choose|t: int| 0 <= t < chain@.len() && chain@[t] == left@[k];
                    assert(t < old_chain.len());
                    assert(old_chain.contains(left@[k]));
                }
            }
            assert forall|v: usize| #[trigger] occ(chain@, v) + occ(left@, v) == occ(all, v) by {
                lemma_occ_push(old_chain, pick, v);
                lemma_occ_remove(old_left, best as int, v);
                assert(occ(old_chain, v) + occ(old_left, v) == occ(all, v));
            }
            assert forall|k: int| 0 <= k < left@.len() implies (#[trigger] left@[k])
                < elems@.len() by {
                assert(left@[k] == old_left[if k < best {
                    k
                } else {
                    k + 1
                }]);
            }
            assert(left@.no_duplicates()) by {
                assert forall|a: int, b: int|
                    0 <= a < left@.len() && 0 <= b < left@.len() && a != b implies left@[a]
                    != left@[b] by {
                    assert(left@[a] == old_left[if a < best {
                        a
                    } else {
                        a + 1
                    }]);
                    assert(left@[b] == old_left[if b < best {
                        b
                    } else {
                        b + 1
                    }]);
                }
            }
            assert forall|m: int| 0 <= m < left@.len() implies starts_before(
                ev,
                chain@[0],
                #[trigger] left@[m],
            ) by {
                assert(left@[m] == old_left[if m < best {
                    m
                } else {
                    m + 1
                }]);
            }
            assert forall|k: int, m: int|
                #![trigger chain@[k], left@[m]]
                0 < k < chain@.len() && 0 <= m < left@.len() implies nearer(
                ev,
                end_of(ev[chain@[k - 1] as int]),
                chain@[k],
                left@[m],
            ) by {
                assert(left@[m] == old_left[if m < best {
                    m
                } else {
                    m + 1
                }]);
                if k < old_chain.len() {
                    assert(chain@[k] == old_chain[k]);
                    assert(chain@[k - 1] == old_chain[k - 1]);
                } else {
                    assert(chain@[k - 1] == last);
                }
            }
            assert forall|k: int, m: int|
                #![trigger chain@[k], chain@[m]]
                0 < k < m < chain@.len() implies nearer(
                ev,
                end_of(ev[chain@[k - 1] as int]),
                chain@[k],
                chain@[m],
            ) by {
                assert(chain@[k] == old_chain[k]);
                assert(chain@[k - 1] == old_chain[k - 1]);
                if m == old_chain.len() {
                    assert(chain@[m] == old_left[best as int]);
                } else {
                    assert(chain@[m] == old_chain[m]);
                }
            }
        }
    }
    assert(forall|v: usize| occ(left@, v) == 0);
    chain
}

/// One grid cell and the positions of the elements in it.
struct Cell {
    cx: i64,
    cy: i64,
    idxs: Vec<usize>,
}

impl Cell {
    spec fn key(self) -> (int, int) {
        (self.cx as int, self.cy as int)
    }

    /// The cell comes before cell `(cx, cy)` in the sweep.
    fn sweeps_before(&self, cx: i64, cy: i64) -> (b: bool)
        ensures
            b == sweeps_before(self.key(), (cx as int, cy as int)),
    {
        if self.cx == cx {
            let even = cx % 2 == 0;
            if even {
                self.cy < cy
            } else {
                self.cy > cy
            }
        } else {
            self.cx < cx
        }
    }
}

/// The cells of the first `n` elements: in sweep order, none empty, each
/// listing its own elements, and none missing.
spec fn cells_ok(elems: Seq<ElemV>, n: nat, cells: Seq<Cell>) -> bool {
    &&& forall|a: int, b: int|
        #![trigger cells[a], cells[b]]
        0 <= a < b < cells.len() ==> sweeps_before(cells[a].key(), cells[b].key())
    &&& forall|c: int|
        #![trigger cells[c]]
        0 <= c < cells.len() ==> {
            &&& cells[c].idxs@.len() > 0
            &&& cells[c].idxs@.no_duplicates()
            &&& forall|k: int| 0 <= k < cells[c].idxs@.len() ==> (#[trigger] cells[c].idxs@[k]) < n
            &&& lists_cell(elems, n, cells[c].key(), cells[c].idxs@)
        }
    &&& forall|v: int|
        #![trigger elems[v]]
        0 <= v < n ==> exists|c: int|
            0 <= c < cells.len() && (#[trigger] cells[c]).key() == cell_of(elems[v])
}

/// Bucket the elements into grid cells, kept in sweep order.
fn bucket(elems: &Vec<PathElem>) -> (cells: Vec<Cell>)
    ensures
        cells_ok(elems.deep_view(), elems@.len(), cells@),
{
    let ghost ev = elems.deep_view();
    let mut cells: Vec<Cell> = Vec::new();
    let mut i: usize = 0;
    while i < elems.len()
        invariant
            i <= elems.len(),
            ev == elems.deep_view(),
            cells_ok(ev, i as nat, cells@),
        decreases elems.len() - i,
    {
        let c = centroid(&elems[i]);
        let cx: i64 = cell_index(c.x);
        let cy: i64 = cell_index(c.y);
        let ghost key = (cx as int, cy as int);
        assert(ev[i as int] == elems@[i as int].deep_view());
        assert(key == cell_of(ev[i as int]));
        let mut p: usize = 0;
        while p < cells.len() && cells[p].sweeps_before(cx, cy)
            invariant
                p <= cells.len(),
                key == (cx as int, cy as int),
                forall|q: int| 0 <= q < p ==> sweeps_before((#[trigger] cells@[q]).key(), key),
            decreases cells.len() - p,
        {
            p += 1;
        }
        let ghost old_cells = cells@;
        if p < cells.len() && cells[p].cx == cx && cells[p].cy == cy {
            let mut cell = cells.remove(p);
            let ghost old_idxs = cell.idxs@;
            assert(old_cells[p as int] == cell);
            cell.idxs.push(i);
            let ghost new_cell = cell;
            cells.insert(p, cell);
            proof {
                assert(cells@ =~= old_cells.update(p as int, new_cell));
                lemma_cell_grows(ev, i, old_cells, cells@, p as int);
            }
        } else {
            let mut idxs: Vec<usize> = Vec::new();
            idxs.push(i);
            let cell = Cell { cx, cy, idxs };
            let ghost new_cell = cell;
            cells.insert(p, cell);
            proof {
                lemma_cell_added(ev, i, old_cells, cells@, p as int);
            }
        }
        i += 1;
    }
    cells
}

/// Adding the next element to its own cell keeps the buckets right.
proof fn lemma_cell_grows(elems: Seq<ElemV>, i: usize, old_cells: Seq<Cell>, cells: Seq<Cell>, p: int)
    requires
        cells_ok(elems, i as nat, old_cells),
        0 <= p < old_cells.len(),
        i < usize::MAX,
        old_cells[p].key() == cell_of(elems[i as int]),
        cells.len() == old_cells.len(),
        forall|c: int| 0 <= c < cells.len() && c != p ==> #[trigger] cells[c] == old_cells[c],
        cells[p].key() == old_cells[p].key(),
        cells[p].idxs@ == old_cells[p].idxs@.push(i),
    ensures
        cells_ok(elems, (i + 1) as nat, cells),
{
    let key = old_cells[p].key();
    assert forall|a: int, b: int|
        #![trigger cells[a], cells[b]]
        0 <= a < b < cells.len() implies sweeps_before(cells[a].key(), cells[b].key()) by {
        assert(sweeps_before(old_cells[a].key(), old_cells[b].key()));
    }
    assert forall|c: int| #![trigger cells[c]] 0 <= c < cells.len() implies {
        &&& cells[c].idxs@.len() > 0
        &&& cells[c].idxs@.no_duplicates()
        &&& forall|k: int| 0 <= k < cells[c].idxs@.len() ==> (#[trigger] cells[c].idxs@[k]) < i + 1
        &&& lists_cell(elems, (i + 1) as nat, cells[c].key(), cells[c].idxs@)
    } by {
        let old_c = old_cells[c];
        assert(lists_cell(elems, i as nat, old_c.key(), old_c.idxs@));
        if c != p {
            assert(old_c.key() != key) by {
                if c < p {
                    assert(sweeps_before(old_cells[c].key(), old_cells[p].key()));
                } else {
                    assert(sweeps_before(old_cells[p].key(), old_cells[c].key()));
                }
            }
            assert(forall|k: int| 0 <= k < old_c.idxs@.len() ==> (#[trigger] old_c.idxs@[k]) < i);
        }
        assert forall|v: usize|
            #[trigger] occ(cells[c].idxs@, v) == if v < i + 1 && cell_of(elems[v as int])
                == cells[c].key() {
                1nat
            } else {
                0nat
            } by {
            assert(occ(old_c.idxs@, v) == if v < i && cell_of(elems[v as int]) == old_c.key() {
                1nat
            } else {
                0nat
            });
            if c == p {
                lemma_occ_push(old_c.idxs@, i, v);
            }
        }
        if c == p {
            let o = old_c.idxs@;
            assert forall|a: int, b: int|
                0 <= a < cells[c].idxs@.len() && 0 <= b < cells[c].idxs@.len() && a
                    != b implies cells[c].idxs@[a] != cells[c].idxs@[b] by {
                if a < o.len() {
                    assert(o[a] < i);
                }
                if b < o.len() {
                    assert(o[b] < i);
                }
            }
            assert forall|k: int| 0 <= k < cells[c].idxs@.len() implies (
            #[trigger] cells[c].idxs@[k]) < i + 1 by {
                if k < o.len() {
                    assert(o[k] < i);
                }
            }
        }
    }
    assert forall|v: int| #![trigger elems[v]] 0 <= v < i + 1 implies exists|c: int|
        0 <= c < cells.len() && (#[trigger] cells[c]).key() == cell_of(elems[v]) by {
        if v < i {
            let c = choose|c: int|
                0 <= c < old_cells.len() && (#[trigger] old_cells[c]).key() == cell_of(elems[v]);
            assert(cells[c].key() == cell_of(elems[v]));
        } else {
            assert(cells[p].key() == cell_of(elems[v]));
        }
    }
}

/// A new cell for the next element keeps the buckets right.
proof fn lemma_cell_added(elems: Seq<ElemV>, i: usize, old_cells: Seq<Cell>, cells: Seq<Cell>, p: int)
    requires
        cells_ok(elems, i as nat, old_cells),
        0 <= p <= old_cells.len(),
        i < usize::MAX,
        cells.len() == old_cells.len() + 1,
        cells == old_cells.insert(p, cells[p]),
        cells[p].key() == cell_of(elems[i as int]),
        cells[p].idxs@ == seq![i],
        forall|q: int|
            0 <= q < p ==> sweeps_before((#[trigger] old_cells[q]).key(), cells[p].key()),
        p < old_cells.len() ==> !sweeps_before(old_cells[p].key(), cells[p].key())
            && old_cells[p].key() != cells[p].key(),
    ensures
        cells_ok(elems, (i + 1) as nat, cells),
{
    let key = cells[p].key();
    assert forall|q: int| p <= q < old_cells.len() implies sweeps_before(
        key,
        (#[trigger] old_cells[q]).key(),
    ) by {
        assert(sweeps_before(key, old_cells[p].key()));
        if q > p {
            assert(sweeps_before(old_cells[p].key(), old_cells[q].key()));
        }
    }
    assert forall|c: int| 0 <= c < cells.len() && c != p implies #[trigger] cells[c]
        == old_cells[if c < p {
        c
    } else {
        c - 1
    }] by {}
    assert forall|a: int, b: int|
        #![trigger cells[a], cells[b]]
        0 <= a < b < cells.len() implies sweeps_before(cells[a].key(), cells[b].key()) by {
        let oa = if a < p {
            a
        } else {
            a - 1
        };
        let ob = if b < p {
            b
        } else {
            b - 1
        };
        if a != p && b != p {
            assert(sweeps_before(old_cells[oa].key(), old_cells[ob].key()));
        }
    }
    assert(occ(cells[p].idxs@, i) == 1 && forall|v: usize|
        v != i ==> #[trigger] occ(cells[p].idxs@, v) == 0) by {
        assert forall|v: usize|
            #[trigger] occ(cells[p].idxs@, v) == if v == i {
                1nat
            } else {
                0nat
            } by {
            assert(seq![i] =~= Seq::<usize>::empty().push(i));
            lemma_occ_push(Seq::<usize>::empty(), i, v);
        }
    }
    assert forall|c: int| #![trigger cells[c]] 0 <= c < cells.len() implies {
        &&& cells[c].idxs@.len() > 0
        &&& cells[c].idxs@.no_duplicates()
        &&& forall|k: int| 0 <= k < cells[c].idxs@.len() ==> (#[trigger] cells[c].idxs@[k]) < i + 1
        &&& lists_cell(elems, (i + 1) as nat, cells[c].key(), cells[c].idxs@)
    } by {
        if c != p {
            let o = if c < p {
                c
            } else {
                c - 1
            };
            let old_c = old_cells[o];
            assert(cells[c] == old_c);
            assert(old_c.key() != key) by {
                if o < p {
                    assert(sweeps_before(old_cells[o].key(), key));
                } else {
                    assert(sweeps_before(key, old_cells[o].key()));
                }
            }
            assert(lists_cell(elems, i as nat, old_c.key(), old_c.idxs@));
            assert forall|v: usize|
                #[trigger] occ(cells[c].idxs@, v) == if v < i + 1 && cell_of(elems[v as int])
                    == cells[c].key() {
                    1nat
                } else {
                    0nat
                } by {
                assert(occ(old_c.idxs@, v) == if v < i && cell_of(elems[v as int])
                    == old_c.key() {
                    1nat
                } else {
                    0nat
                });
            }
            assert(forall|k: int| 0 <= k < old_c.idxs@.len() ==> (#[trigger] old_c.idxs@[k]) < i);
        } else {
            assert forall|v: usize|
                #[trigger] occ(cells[p].idxs@, v) == if v < i + 1 && cell_of(elems[v as int])
                    == key {
                    1nat
                } else {
                    0nat
                } by {
                if v < i && cell_of(elems[v as int]) == key {
                    let c0 = choose|c: int|
                        0 <= c < old_cells.len() && (#[trigger] old_cells[c]).key() == cell_of(
                            elems[v as int],
                        );
                    if c0 < p {
                        assert(sweeps_before(old_cells[c0].key(), key));
                    } else {
                        assert(sweeps_before(key, old_cells[c0].key()));
                    }
                }
            }
        }
    }
    assert forall|v: int| #![trigger elems[v]] 0 <= v < i + 1 implies exists|c: int|
        0 <= c < cells.len() && (#[trigger] cells[c]).key() == cell_of(elems[v]) by {
        if v < i {
            let c = choose|c: int|
                0 <= c < old_cells.len() && (#[trigger] old_cells[c]).key() == cell_of(elems[v]);
            let n = if c < p {
                c
            } else {
                c + 1
            };
            assert(cells[n] == old_cells[c]);
        } else {
            assert(cells[p].key() == cell_of(elems[v]));
        }
    }
}

/// The first `r` positions of a chain.
spec fn head(chain: Seq<usize>, r: nat) -> Seq<usize> {
    if r < chain.len() {
        chain.take(r as int)
    } else {
        chain
    }
}

/// How often `v` is among the first `r` positions of the first `n` chains.
spec fn heads_occ(cells: Seq<CellPlan>, r: nat, n: nat, v: usize) -> nat
    decreases n,
{
    if n == 0 {
        0
    } else {
        heads_occ(cells, r, (n - 1) as nat, v) + occ(head(cells[n - 1].chain, r), v)
    }
}

proof fn lemma_one_round(cells: Seq<CellPlan>, r: nat, n: nat, v: usize)
    requires
        n <= cells.len(),
    ensures
        heads_occ(cells, r + 1, n, v) == heads_occ(cells, r, n, v) + occ(
            one_round(cells, r, n),
            v,
        ),
    decreases n,
{
    if n > 0 {
        lemma_one_round(cells, r, (n - 1) as nat, v);
        let chain = cells[n - 1].chain;
        let before = one_round(cells, r, (n - 1) as nat);
        if r < chain.len() {
            assert(head(chain, r + 1) =~= head(chain, r).push(chain[r as int]));
            lemma_occ_push(head(chain, r), chain[r as int], v);
            lemma_occ_push(before, chain[r as int], v);
        }
    }
}

proof fn lemma_rounds_occ(cells: Seq<CellPlan>, r: nat, v: usize)
    ensures
        occ(rounds(cells, r), v) == heads_occ(cells, r, cells.len(), v),
    decreases r,
{
    if r == 0 {
        lemma_no_heads(cells, cells.len(), v);
    } else {
        lemma_rounds_occ(cells, (r - 1) as nat, v);
        lemma_one_round(cells, (r - 1) as nat, cells.len(), v);
        lemma_occ_concat(
            rounds(cells, (r - 1) as nat),
            one_round(cells, (r - 1) as nat, cells.len()),
            v,
        );
    }
}

proof fn lemma_no_heads(cells: Seq<CellPlan>, n: nat, v: usize)
    requires
        n <= cells.len(),
    ensures
        heads_occ(cells, 0, n, v) == 0,
    decreases n,
{
    if n > 0 {
        lemma_no_heads(cells, (n - 1) as nat, v);
        assert(occ(head(cells[n - 1].chain, 0), v) == 0);
    }
}

/// In a plan every element sits in exactly one chain.
proof fn lemma_plan_occ(elems: Seq<ElemV>, cells: Seq<CellPlan>, r: nat, n: nat, v: usize)
    requires
        is_plan(elems, cells),
        exhausted(cells, r),
        n <= cells.len(),
    ensures
        heads_occ(cells, r, n, v) == if v < elems.len() && exists|c: int|
            0 <= c < n && (#[trigger] cells[c]).key == cell_of(elems[v as int]) {
            1nat
        } else {
            0nat
        },
    decreases n,
{
    if n > 0 {
        lemma_plan_occ(elems, cells, r, (n - 1) as nat, v);
        let cell = cells[n - 1];
        assert(cell.chain.len() <= r);
        assert(lists_cell(elems, elems.len(), cell.key, cell.chain));
        assert(occ(cell.chain, v) == if v < elems.len() && cell_of(elems[v as int]) == cell.key {
            1nat
        } else {
            0nat
        });
        if v < elems.len() {
            if cell.key == cell_of(elems[v as int]) {
                assert(!exists|c: int|
                    0 <= c < n - 1 && (#[trigger] cells[c]).key == cell_of(elems[v as int])) by {
                    assert forall|c: int| 0 <= c < n - 1 implies (#[trigger] cells[c]).key
                        != cell_of(elems[v as int]) by {
                        assert(sweeps_before(cells[c].key, cells[n - 1].key));
                    }
                }
            } else if exists|c: int|
                0 <= c < n && (#[trigger] cells[c]).key == cell_of(elems[v as int]) {
                let c = choose|c: int|
                    0 <= c < n && (#[trigger] cells[c]).key == cell_of(elems[v as int]);
                assert(c < n - 1);
            }
        }
    }
}

proof fn lemma_plan_is_permutation(elems: Seq<ElemV>, cells: Seq<CellPlan>, r: nat)
    requires
        is_plan(elems, cells),
        exhausted(cells, r),
    ensures
        is_permutation(rounds(cells, r), elems.len()),
{
    assert forall|v: usize|
        #[trigger] occ(rounds(cells, r), v) == if v < elems.len() {
            1nat
        } else {
            0nat
        } by {
        lemma_rounds_occ(cells, r, v);
        lemma_plan_occ(elems, cells, r, cells.len(), v);
        if v < elems.len() {
            assert(has_cell(cells, cell_of(elems[v as int])));
            let c = choose|c: int|
                0 <= c < cells.len() && (#[trigger] cells[c]).key == cell_of(elems[v as int]);
            assert(cells[c].key == cell_of(elems[v as int]));
        }
    }
}

/// A heat-aware order keeps every element, exactly as often as it came in.
pub proof fn ordering_is_a_permutation(elems: Seq<ElemV>, out: Seq<ElemV>)
    requires
        elems.len() <= usize::MAX,
        is_ordering(elems, out),
    ensures
        out.to_multiset() == elems.to_multiset(),
        out.len() == elems.len(),
{
    let (cells, r) = choose|cells: Seq<CellPlan>, r: nat|
        {
            &&& is_plan(elems, cells)
            &&& exhausted(cells, r)
            &&& out == read(elems, #[trigger] rounds(cells, r))
        };
    lemma_plan_is_permutation(elems, cells, r);
    let idx = rounds(cells, r);
    assert forall|w: ElemV| #[trigger] occ(out, w) == occ(elems, w) by {
        lemma_permutation_keeps(idx, elems, w);
    }
    lemma_permutation_keeps(idx, elems, elems[0]);
    lemma_same_multiset(out, elems);
}

// ---------------------------------------------------------------------------
// One result
// ---------------------------------------------------------------------------

/// `to` and `from` pair the positions of two jobs: paired positions hold the
/// same element and come in the same order by start point.
spec fn paired(
    p: Seq<ElemV>,
    q: Seq<ElemV>,
    to: spec_fn(usize) -> usize,
    from: spec_fn(usize) -> usize,
) -> bool {
    &&& forall|i: usize|
        #![trigger to(i)]
        i < p.len() ==> to(i) < q.len() && q[to(i) as int] == p[i as int] && from(to(i)) == i
    &&& forall|j: usize| #![trigger from(j)] j < q.len() ==> from(j) < p.len() && to(from(j)) == j
    &&& forall|i: usize, j: usize|
        #![trigger to(i), to(j)]
        i < p.len() && j < p.len() && i != j ==> (starts_before(p, i, j) <==> starts_before(
            q,
            to(i),
            to(j),
        ))
}

/// Where an element of a cell stands in the cell's chain.
proof fn lemma_cell_place(elems: Seq<ElemV>, key: (int, int), chain: Seq<usize>, v: usize) -> (m:
    int)
    requires
        lists_cell(elems, elems.len(), key, chain),
        v < elems.len(),
        cell_of(elems[v as int]) == key,
    ensures
        0 <= m < chain.len(),
        chain[m] == v,
{
    lemma_occ_contains(chain, v);
    assert(occ(chain, v) == 1);
    choose|m: int| 0 <= m < chain.len() && chain[m] == v
}

/// An index of a chain is one of its cell, and stands there once.
proof fn lemma_cell_member(elems: Seq<ElemV>, key: (int, int), chain: Seq<usize>, k: int)
    requires
        lists_cell(elems, elems.len(), key, chain),
        0 <= k < chain.len(),
    ensures
        chain[k] < elems.len(),
        cell_of(elems[chain[k] as int]) == key,
        forall|m: int| 0 <= m < chain.len() && chain[m] == chain[k] ==> m == k,
{
    lemma_occ_contains(chain, chain[k]);
    assert(chain.contains(chain[k]));
    assert(occ(chain, chain[k]) > 0);
    assert forall|m: int| 0 <= m < chain.len() && chain[m] == chain[k] implies m == k by {
        if m < k {
            lemma_occ_twice(chain, m, k);
        } else if k < m {
            lemma_occ_twice(chain, k, m);
        }
    }
}

/// Chains of paired cells pair up, place by place.
proof fn lemma_chains_pair(
    p: Seq<ElemV>,
    q: Seq<ElemV>,
    to: spec_fn(usize) -> usize,
    from: spec_fn(usize) -> usize,
    key: (int, int),
    a: Seq<usize>,
    b: Seq<usize>,
    k: nat,
)
    requires
        paired(p, q, to, from),
        is_chain(p, a),
        is_chain(q, b),
        lists_cell(p, p.len(), key, a),
        lists_cell(q, q.len(), key, b),
        k <= a.len(),
    ensures
        k <= b.len(),
        forall|j: int| 0 <= j < k ==> #[trigger] b[j] == to(a[j]),
    decreases k,
{
    if k > 0 {
        let n = k - 1;
        lemma_chains_pair(p, q, to, from, key, a, b, n as nat);
        let v = a[n];
        lemma_cell_member(p, key, a, n);
        let tv = to(v);
        let m = lemma_cell_place(q, key, b, tv);
        if m < n {
            lemma_cell_member(p, key, a, m);
            assert(b[m] == to(a[m]));
            assert(from(to(a[m])) == a[m]);
            assert(from(tv) == v);
        }
        assert(n <= m);
        if n < m {
            let w = b[n];
            lemma_cell_member(q, key, b, n);
            let fw = from(w);
            assert(to(fw) == w);
            assert(q[w as int] == p[fw as int]);
            let o = lemma_cell_place(p, key, a, fw);
            if o < n {
                assert(b[o] == to(a[o]));
            }
            if o == n {
                assert(w == tv);
            }
            assert(n < o);
            assert(v != fw);
            assert(starts_before(p, v, fw) <==> starts_before(q, tv, w));
            if n == 0 {
                assert(starts_before(p, a[0], a[o]));
                assert(starts_before(q, b[0], b[m]));
            } else {
                lemma_cell_member(p, key, a, n - 1);
                let last = a[n - 1];
                assert(b[n - 1] == to(last));
                let end = end_of(p[last as int]);
                assert(nearer(p, end, a[n], a[o]));
                assert(nearer(q, end, b[n], b[m]));
            }
            assert(false);
        }
    }
}

/// The keys of paired plans are the same, place by place.
proof fn lemma_keys_pair(
    p: Seq<ElemV>,
    q: Seq<ElemV>,
    to: spec_fn(usize) -> usize,
    from: spec_fn(usize) -> usize,
    a: Seq<CellPlan>,
    b: Seq<CellPlan>,
    k: nat,
)
    requires
        paired(p, q, to, from),
        is_plan(p, a),
        is_plan(q, b),
        k <= a.len(),
    ensures
        k <= b.len(),
        forall|j: int| 0 <= j < k ==> (#[trigger] b[j]).key == a[j].key,
    decreases k,
{
    if k > 0 {
        let n = k - 1;
        lemma_keys_pair(p, q, to, from, a, b, n as nat);
        let here = a[n];
        lemma_cell_member(p, here.key, here.chain, 0);
        let v = here.chain[0];
        assert(q[to(v) as int] == p[v as int]);
        let m = choose|m: int| 0 <= m < b.len() && (#[trigger] b[m]).key == here.key;
        assert(b[m].key == here.key);
        if m < n {
            assert(sweeps_before(a[m].key, a[n].key));
        }
        if n < m {
            let there = b[n];
            assert(sweeps_before(b[n].key, b[m].key));
            lemma_cell_member(q, there.key, there.chain, 0);
            let w = there.chain[0];
            assert(to(from(w)) == w);
            assert(q[w as int] == p[from(w) as int]);
            let o = choose|o: int| 0 <= o < a.len() && (#[trigger] a[o]).key == there.key;
            assert(a[o].key == there.key);
            if o < n {
                assert(sweeps_before(b[o].key, b[n].key));
            } else if n < o {
                assert(sweeps_before(a[n].key, a[o].key));
            }
            assert(false);
        }
    }
}

/// One plan's cells and chains are the other's, read in their own jobs.
spec fn plans_agree(p: Seq<ElemV>, a: Seq<CellPlan>, q: Seq<ElemV>, b: Seq<CellPlan>) -> bool {
    &&& a.len() == b.len()
    &&& forall|c: int|
        0 <= c < a.len() ==> read(p, (#[trigger] a[c]).chain) == read(q, b[c].chain)
}

proof fn lemma_plans_agree(
    p: Seq<ElemV>,
    q: Seq<ElemV>,
    to: spec_fn(usize) -> usize,
    from: spec_fn(usize) -> usize,
    a: Seq<CellPlan>,
    b: Seq<CellPlan>,
)
    requires
        paired(p, q, to, from),
        paired(q, p, from, to),
        is_plan(p, a),
        is_plan(q, b),
    ensures
        plans_agree(p, a, q, b),
{
    lemma_keys_pair(p, q, to, from, a, b, a.len());
    lemma_keys_pair(q, p, from, to, b, a, b.len());
    assert forall|c: int| 0 <= c < a.len() implies read(p, (#[trigger] a[c]).chain) == read(
        q,
        b[c].chain,
    ) by {
        assert(b[c].key == a[c].key);
        let x = a[c].chain;
        let y = b[c].chain;
        lemma_chains_pair(p, q, to, from, a[c].key, x, y, x.len());
        lemma_chains_pair(q, p, from, to, a[c].key, y, x, y.len());
        assert forall|j: int| 0 <= j < x.len() implies p[x[j] as int] == q[y[j] as int] by {
            lemma_cell_member(p, a[c].key, x, j);
            assert(y[j] == to(x[j]));
        }
        assert(read(p, x) =~= read(q, y));
    }
}

proof fn lemma_rounds_agree(
    p: Seq<ElemV>,
    a: Seq<CellPlan>,
    q: Seq<ElemV>,
    b: Seq<CellPlan>,
    r: nat,
)
    requires
        plans_agree(p, a, q, b),
    ensures
        read(p, rounds(a, r)) == read(q, rounds(b, r)),
    decreases r,
{
    if r > 0 {
        lemma_rounds_agree(p, a, q, b, (r - 1) as nat);
        lemma_round_agrees(p, a, q, b, (r - 1) as nat, a.len());
    }
    assert(read(p, rounds(a, r)) =~= read(q, rounds(b, r))) by {
        if r > 0 {
            let x = rounds(a, (r - 1) as nat);
            let y = one_round(a, (r - 1) as nat, a.len());
            let z = rounds(b, (r - 1) as nat);
            let w = one_round(b, (r - 1) as nat, b.len());
            assert(read(p, x + y) =~= read(p, x) + read(p, y));
            assert(read(q, z + w) =~= read(q, z) + read(q, w));
        }
    }
}

proof fn lemma_round_agrees(
    p: Seq<ElemV>,
    a: Seq<CellPlan>,
    q: Seq<ElemV>,
    b: Seq<CellPlan>,
    r: nat,
    n: nat,
)
    requires
        plans_agree(p, a, q, b),
        n <= a.len(),
    ensures
        read(p, one_round(a, r, n)) == read(q, one_round(b, r, n)),
    decreases n,
{
    if n > 0 {
        lemma_round_agrees(p, a, q, b, r, (n - 1) as nat);
        let x = a[n - 1].chain;
        let y = b[n - 1].chain;
        assert(read(p, x) == read(q, y));
        assert(read(p, x).len() == x.len() && read(q, y).len() == y.len());
        if r < x.len() {
            assert(read(p, x)[r as int] == p[x[r as int] as int]);
            assert(read(q, y)[r as int] == q[y[r as int] as int]);
            let before = one_round(a, r, (n - 1) as nat);
            let other = one_round(b, r, (n - 1) as nat);
            assert(read(p, before.push(x[r as int])) =~= read(p, before).push(
                p[x[r as int] as int],
            ));
            assert(read(q, other.push(y[r as int])) =~= read(q, other).push(
                q[y[r as int] as int],
            ));
        }
    } else {
        assert(read(p, one_round(a, r, n)) =~= read(q, one_round(b, r, n)));
    }
}

/// Rounds after the last one add nothing.
proof fn lemma_no_more_rounds(cells: Seq<CellPlan>, r: nat, s: nat)
    requires
        exhausted(cells, r),
        r <= s,
    ensures
        rounds(cells, s) == rounds(cells, r),
    decreases s,
{
    if r < s {
        lemma_no_more_rounds(cells, r, (s - 1) as nat);
        lemma_empty_round(cells, (s - 1) as nat, cells.len());
        assert(rounds(cells, s) =~= rounds(cells, r));
    }
}

proof fn lemma_empty_round(cells: Seq<CellPlan>, r: nat, n: nat)
    requires
        n <= cells.len(),
        forall|c: int| 0 <= c < cells.len() ==> (#[trigger] cells[c]).chain.len() <= r,
    ensures
        one_round(cells, r, n).len() == 0,
    decreases n,
{
    if n > 0 {
        lemma_empty_round(cells, r, (n - 1) as nat);
        assert(cells[n - 1].chain.len() <= r);
    }
}

/// Paired jobs come out the same.
proof fn lemma_same_result(
    p: Seq<ElemV>,
    q: Seq<ElemV>,
    to: spec_fn(usize) -> usize,
    from: spec_fn(usize) -> usize,
    x: Seq<ElemV>,
    y: Seq<ElemV>,
)
    requires
        paired(p, q, to, from),
        paired(q, p, from, to),
        is_ordering(p, x),
        is_ordering(q, y),
    ensures
        x == y,
{
    let (a, r) = choose|cells: Seq<CellPlan>, r: nat|
        {
            &&& is_plan(p, cells)
            &&& exhausted(cells, r)
            &&& x == read(p, #[trigger] rounds(cells, r))
        };
    let (b, s) = choose|cells: Seq<CellPlan>, r: nat|
        {
            &&& is_plan(q, cells)
            &&& exhausted(cells, r)
            &&& y == read(q, #[trigger] rounds(cells, r))
        };
    let last = if r < s {
        s
    } else {
        r
    };
    lemma_plans_agree(p, q, to, from, a, b);
    lemma_no_more_rounds(a, r, last);
    lemma_no_more_rounds(b, s, last);
    lemma_rounds_agree(p, a, q, b, last);
}

/// A job has one heat-aware order: two runs on it agree.
pub proof fn ordering_is_settled(elems: Seq<ElemV>, x: Seq<ElemV>, y: Seq<ElemV>)
    requires
        is_ordering(elems, x),
        is_ordering(elems, y),
    ensures
        x == y,
{
    let same = |i: usize| i;
    assert(paired(elems, elems, same, same));
    lemma_same_result(elems, elems, same, same, x, y);
}

/// No two elements start at the same point.
pub open spec fn starts_distinct(elems: Seq<ElemV>) -> bool {
    forall|i: int, j: int|
        #![trigger elems[i], elems[j]]
        0 <= i < j < elems.len() ==> start_of(elems[i]) != start_of(elems[j])
}

/// Where an element stands in a job.
spec fn place_in(elems: Seq<ElemV>, e: ElemV) -> usize {
    (choose|k: int| 0 <= k < elems.len() && elems[k] == e) as usize
}

/// An element of a job stands there, at one place.
proof fn lemma_place(elems: Seq<ElemV>, e: ElemV)
    requires
        elems.len() <= usize::MAX,
        starts_distinct(elems),
        elems.contains(e),
    ensures
        place_in(elems, e) < elems.len(),
        elems[place_in(elems, e) as int] == e,
        forall|m: int| 0 <= m < elems.len() && elems[m] == e ==> m == place_in(elems, e),
{
    let k = choose|k: int| 0 <= k < elems.len() && elems[k] == e;
    assert forall|m: int| 0 <= m < elems.len() && elems[m] == e implies m == k by {
        if m < k {
            assert(start_of(elems[m]) != start_of(elems[k]));
        } else if k < m {
            assert(start_of(elems[k]) != start_of(elems[m]));
        }
    }
}

/// A rearranged job has the same elements, and distinct starts as well.
proof fn lemma_rearranged(p: Seq<ElemV>, q: Seq<ElemV>)
    requires
        starts_distinct(p),
        p.to_multiset() == q.to_multiset(),
    ensures
        p.len() == q.len(),
        forall|e: ElemV| #[trigger] p.contains(e) <==> q.contains(e),
        starts_distinct(q),
{
    p.to_multiset_ensures();
    q.to_multiset_ensures();
    assert forall|e: ElemV| #[trigger] p.contains(e) <==> q.contains(e) by {
        lemma_occ_multiset(p, e);
        lemma_occ_multiset(q, e);
        lemma_occ_contains(p, e);
        lemma_occ_contains(q, e);
    }
    assert forall|i: int, j: int|
        #![trigger q[i], q[j]]
        0 <= i < j < q.len() implies start_of(q[i]) != start_of(q[j]) by {
        if start_of(q[i]) == start_of(q[j]) {
            assert(q.contains(q[i]) && q.contains(q[j]));
            assert(p.contains(q[i]) && p.contains(q[j]));
            let a = choose|a: int| 0 <= a < p.len() && p[a] == q[i];
            let b = choose|b: int| 0 <= b < p.len() && p[b] == q[j];
            if a < b {
                assert(start_of(p[a]) != start_of(p[b]));
            } else if b < a {
                assert(start_of(p[b]) != start_of(p[a]));
            }
            lemma_occ_twice(q, i, j);
            lemma_occ_multiset(p, p[a]);
            lemma_occ_multiset(q, p[a]);
            lemma_occ_remove(p, a, p[a]);
            let rest = p.remove(a);
            lemma_occ_contains(rest, p[a]);
            let c = choose|c: int| 0 <= c < rest.len() && rest[c] == p[a];
            let d = if c < a {
                c
            } else {
                c + 1
            };
            assert(p[d] == p[a]);
            if d < a {
                assert(start_of(p[d]) != start_of(p[a]));
            } else {
                assert(start_of(p[a]) != start_of(p[d]));
            }
        }
    }
}

proof fn lemma_pairing(p: Seq<ElemV>, q: Seq<ElemV>)
    requires
        p.len() <= usize::MAX,
        q.len() == p.len(),
        starts_distinct(p),
        starts_distinct(q),
        forall|e: ElemV| #[trigger] p.contains(e) <==> q.contains(e),
    ensures
        paired(
            p,
            q,
            |i: usize| place_in(q, p[i as int]),
            |j: usize| place_in(p, q[j as int]),
        ),
{
    let to = |i: usize| place_in(q, p[i as int]);
    let from = |j: usize| place_in(p, q[j as int]);
    assert forall|i: usize| #![trigger to(i)] i < p.len() implies to(i) < q.len() && q[to(
        i,
    ) as int] == p[i as int] && from(to(i)) == i by {
        assert(p.contains(p[i as int]));
        lemma_place(q, p[i as int]);
        lemma_place(p, p[i as int]);
    }
    assert forall|j: usize| #![trigger from(j)] j < q.len() implies from(j) < p.len() && to(
        from(j),
    ) == j by {
        assert(q.contains(q[j as int]));
        lemma_place(p, q[j as int]);
        lemma_place(q, q[j as int]);
    }
    assert forall|i: usize, j: usize|
        #![trigger to(i), to(j)]
        i < p.len() && j < p.len() && i != j implies (starts_before(p, i, j) <==> starts_before(
        q,
        to(i),
        to(j),
    )) by {
        if i < j {
            assert(start_of(p[i as int]) != start_of(p[j as int]));
        } else {
            assert(start_of(p[j as int]) != start_of(p[i as int]));
        }
    }
}

/// Where no two elements start at the same point, the order in which a job
/// comes in does not matter.
pub proof fn ordering_ignores_input_order(
    p: Seq<ElemV>,
    q: Seq<ElemV>,
    x: Seq<ElemV>,
    y: Seq<ElemV>,
)
    requires
        p.len() <= usize::MAX,
        starts_distinct(p),
        p.to_multiset() == q.to_multiset(),
        is_ordering(p, x),
        is_ordering(q, y),
    ensures
        x == y,
{
    lemma_rearranged(p, q);
    let to = |i: usize| place_in(q, p[i as int]);
    let from = |j: usize| place_in(p, q[j as int]);
    lemma_pairing(p, q);
    lemma_pairing(q, p);
    lemma_same_result(p, q, to, from, x, y);
}

/// Where no two elements start at the same point, ordering an ordered job
/// changes nothing.
pub proof fn ordering_again_changes_nothing(p: Seq<ElemV>, x: Seq<ElemV>, y: Seq<ElemV>)
    requires
        p.len() <= usize::MAX,
        starts_distinct(p),
        is_ordering(p, x),
        is_ordering(x, y),
    ensures
        x == y,
{
    ordering_is_a_permutation(p, x);
    ordering_ignores_input_order(p, x, x, y);
}

// ---------------------------------------------------------------------------
// Spread of heat
// ---------------------------------------------------------------------------

/// The cells, among the first `n`, that one round emits from.
spec fn round_cells(cells: Seq<CellPlan>, r: nat, n: nat) -> Seq<int>
    decreases n,
{
    if n == 0 {
        Seq::empty()
    } else {
        let before = round_cells(cells, r, (n - 1) as nat);
        if r < cells[n - 1].chain.len() {
            before.push(n - 1)
        } else {
            before
        }
    }
}

/// The cells that the first `r` rounds emit from, in order.
spec fn rounds_cells(cells: Seq<CellPlan>, r: nat) -> Seq<int>
    decreases r,
{
    if r == 0 {
        Seq::empty()
    } else {
        rounds_cells(cells, (r - 1) as nat) + round_cells(cells, (r - 1) as nat, cells.len())
    }
}

/// A round emits from each cell that still has an element, in sweep order.
proof fn lemma_round_cells(cells: Seq<CellPlan>, r: nat, n: nat)
    requires
        n <= cells.len(),
    ensures
        ({
            let t = round_cells(cells, r, n);
            &&& forall|i: int|
                0 <= i < t.len() ==> 0 <= #[trigger] t[i] < n && r < cells[t[i]].chain.len()
            &&& forall|i: int, j: int|
                #![trigger t[i], t[j]]
                0 <= i < j < t.len() ==> t[i] < t[j]
            &&& forall|c: int|
                0 <= c < n && r < (#[trigger] cells[c]).chain.len() ==> t.contains(c)
        }),
    decreases n,
{
    if n > 0 {
        let before = round_cells(cells, r, (n - 1) as nat);
        let t = round_cells(cells, r, n);
        lemma_round_cells(cells, r, (n - 1) as nat);
        assert forall|c: int| 0 <= c < n && r < (#[trigger] cells[c]).chain.len() implies t.contains(
            c,
        ) by {
            if c < n - 1 {
                let k = choose|k: int| 0 <= k < before.len() && before[k] == c;
                assert(t[k] == c);
            } else {
                assert(t[t.len() - 1] == c);
            }
        }
    }
}

/// What a round emits lies in the cells it emits from.
proof fn lemma_round_reads(elems: Seq<ElemV>, cells: Seq<CellPlan>, r: nat, n: nat)
    requires
        is_plan(elems, cells),
        n <= cells.len(),
    ensures
        ({
            let t = round_cells(cells, r, n);
            let out = one_round(cells, r, n);
            &&& t.len() == out.len()
            &&& forall|i: int|
                0 <= i < t.len() ==> 0 <= #[trigger] t[i] < n && cell_of(elems[out[i] as int])
                    == cells[t[i]].key
        }),
    decreases n,
{
    if n > 0 {
        lemma_round_reads(elems, cells, r, (n - 1) as nat);
        let cell = cells[n - 1];
        if r < cell.chain.len() {
            lemma_cell_member(elems, cell.key, cell.chain, r as int);
        }
    }
}

proof fn lemma_rounds_read(elems: Seq<ElemV>, cells: Seq<CellPlan>, r: nat)
    requires
        is_plan(elems, cells),
    ensures
        ({
            let t = rounds_cells(cells, r);
            let out = rounds(cells, r);
            &&& t.len() == out.len()
            &&& forall|i: int|
                0 <= i < t.len() ==> 0 <= #[trigger] t[i] < cells.len() && cell_of(
                    elems[out[i] as int],
                ) == cells[t[i]].key
        }),
    decreases r,
{
    if r > 0 {
        let q = (r - 1) as nat;
        lemma_rounds_read(elems, cells, q);
        lemma_round_reads(elems, cells, q, cells.len());
        let s = rounds_cells(cells, q);
        let t = round_cells(cells, q, cells.len());
        let all = rounds_cells(cells, r);
        assert forall|i: int| 0 <= i < all.len() implies 0 <= #[trigger] all[i] < cells.len()
            && cell_of(elems[rounds(cells, r)[i] as int]) == cells[all[i]].key by {
            if i < s.len() {
                assert(all[i] == s[i]);
            } else {
                assert(all[i] == t[i - s.len()]);
            }
        }
    }
}

/// Once a cell follows itself, the first `r` rounds emit from no other any
/// more, and no other has anything left for them.
spec fn repeats_stay(cells: Seq<CellPlan>, r: nat, s: Seq<int>) -> bool {
    forall|i: int|
        #![trigger s[i]]
        0 <= i < s.len() - 1 && s[i] == s[i + 1] ==> {
            &&& forall|j: int| i <= j < s.len() ==> #[trigger] s[j] == s[i]
            &&& forall|c: int|
                0 <= c < cells.len() && c != s[i] ==> (#[trigger] cells[c]).chain.len() < r
        }
}

proof fn lemma_repeats_stay(cells: Seq<CellPlan>, r: nat)
    ensures
        repeats_stay(cells, r, rounds_cells(cells, r)),
    decreases r,
{
    if r > 0 {
        let q = (r - 1) as nat;
        let s = rounds_cells(cells, q);
        let t = round_cells(cells, q, cells.len());
        let all = rounds_cells(cells, r);
        lemma_repeats_stay(cells, q);
        lemma_round_cells(cells, q, cells.len());
        assert forall|i: int|
            #![trigger all[i]]
            0 <= i < all.len() - 1 && all[i] == all[i + 1] implies {
            &&& forall|j: int| i <= j < all.len() ==> #[trigger] all[j] == all[i]
            &&& forall|c: int|
                0 <= c < cells.len() && c != all[i] ==> (#[trigger] cells[c]).chain.len() < r
        } by {
            if i + 1 < s.len() {
                assert(s[i] == all[i] && s[i + 1] == all[i + 1]);
                assert forall|j: int| i <= j < all.len() implies #[trigger] all[j] == all[i] by {
                    if j < s.len() {
                        assert(s[j] == all[j]);
                    } else {
                        assert(all[j] == t[j - s.len()]);
                        assert(q < cells[t[j - s.len()]].chain.len());
                    }
                }
            } else if i + 1 == s.len() {
                lemma_last_of_rounds(cells, q, t);
                assert(all[i] == s.last());
                assert(all[i + 1] == t[0]);
                assert forall|k: int| 0 <= k < t.len() implies #[trigger] t[k] == t[0] by {
                    assert(t[k] <= s.last());
                }
                assert forall|j: int| i <= j < all.len() implies #[trigger] all[j] == all[i] by {
                    if j >= s.len() {
                        assert(all[j] == t[j - s.len()]);
                    }
                }
                assert forall|c: int|
                    0 <= c < cells.len() && c != all[i] implies (#[trigger] cells[c]).chain.len()
                    < r by {
                    if q < cells[c].chain.len() {
                        let k = choose|k: int| 0 <= k < t.len() && t[k] == c;
                        assert(t[k] == t[0]);
                    }
                }
            } else {
                assert(all[i] == t[i - s.len()]);
                assert(all[i + 1] == t[i + 1 - s.len()]);
            }
        }
    }
}

/// What the next round emits from comes no later in the sweep than the cell
/// that was emitted from last.
proof fn lemma_last_of_rounds(cells: Seq<CellPlan>, r: nat, t: Seq<int>)
    requires
        t == round_cells(cells, r, cells.len()),
        rounds_cells(cells, r).len() > 0,
    ensures
        forall|k: int| 0 <= k < t.len() ==> #[trigger] t[k] <= rounds_cells(cells, r).last(),
{
    let q = (r - 1) as nat;
    let u = round_cells(cells, q, cells.len());
    lemma_round_cells(cells, r, cells.len());
    lemma_round_cells(cells, q, cells.len());
    assert forall|k: int| 0 <= k < t.len() implies #[trigger] t[k] <= rounds_cells(
        cells,
        r,
    ).last() by {
        assert(q < cells[t[k]].chain.len());
        let m = choose|m: int| 0 <= m < u.len() && u[m] == t[k];
        assert(u[m] <= u[u.len() - 1]);
        assert(rounds_cells(cells, r).last() == u[u.len() - 1]);
    }
}

/// Consecutive elements come from different cells, for as long as there is more
/// than one cell to take from: once two in a row lie in one cell, all that
/// follow do.
pub proof fn consecutive_elements_change_cells(
    elems: Seq<ElemV>,
    out: Seq<ElemV>,
    i: int,
    j: int,
)
    requires
        is_ordering(elems, out),
        0 <= i < out.len() - 1,
        cell_of(out[i]) == cell_of(out[i + 1]),
        i <= j < out.len(),
    ensures
        cell_of(out[j]) == cell_of(out[i]),
{
    let (cells, r) = choose|cells: Seq<CellPlan>, r: nat|
        {
            &&& is_plan(elems, cells)
            &&& exhausted(cells, r)
            &&& out == read(elems, #[trigger] rounds(cells, r))
        };
    let s = rounds_cells(cells, r);
    lemma_rounds_read(elems, cells, r);
    lemma_repeats_stay(cells, r);
    assert(cells[s[i]].key == cells[s[i + 1]].key);
    assert(s[i] == s[i + 1]);
    assert(s[j] == s[i]);
}

/// Reorder `paths` for heat-aware ablation: the same elements, in the order of
/// a round-robin over the grid cells.
pub fn order(paths: &Paths) -> (out: Paths)
    requires
        jumps_fit(paths.deep_view()),
    ensures
        is_ordering(paths.deep_view(), out.deep_view()),
        out.deep_view().to_multiset() == paths.deep_view().to_multiset(),
{
    let elems = &paths.elems;
    let ghost ev = elems.deep_view();
    let n: usize = elems.len();
    assert(ev.len() == n);
    let cells = bucket(elems);
    let mut chains: Vec<Vec<usize>> = Vec::new();
    let ghost mut plan: Seq<CellPlan> = Seq::empty();
    let mut most: usize = 0;
    let mut c: usize = 0;
    while c < cells.len()
        invariant
            c <= cells.len(),
            ev == elems.deep_view(),
            jumps_fit(ev),
            cells_ok(ev, ev.len(), cells@),
            chains@.len() == c,
            plan.len() == c,
            forall|k: int|
                #![trigger plan[k]]
                0 <= k < c ==> {
                    &&& plan[k].key == cells@[k].key()
                    &&& plan[k].chain == chains@[k]@
                    &&& plan[k].chain.len() > 0
                    &&& plan[k].chain.len() <= most
                    &&& is_chain(ev, plan[k].chain)
                    &&& lists_cell(ev, ev.len(), plan[k].key, plan[k].chain)
                },
        decreases cells.len() - c,
    {
        let ghost cell = cells@[c as int];
        let mut idxs: Vec<usize> = Vec::new();
        let mut k: usize = 0;
        let source = &cells[c].idxs;
        while k < source.len()
            invariant
                k <= source.len(),
                idxs@ =~= source@.take(k as int),
            decreases source.len() - k,
        {
            idxs.push(source[k]);
            k += 1;
        }
        assert(idxs@ =~= cell.idxs@);
        let chain = nn_chain(elems, idxs);
        if chain.len() > most {
            most = chain.len();
        }
        proof {
            let cp = CellPlan { key: cell.key(), chain: chain@ };
            assert(lists_cell(ev, ev.len(), cell.key(), cell.idxs@));
            assert(lists_cell(ev, ev.len(), cp.key, cp.chain)) by {
                assert forall|v: usize|
                    #[trigger] occ(cp.chain, v) == if v < ev.len() && cell_of(ev[v as int])
                        == cp.key {
                        1nat
                    } else {
                        0nat
                    } by {
                    assert(occ(chain@, v) == occ(cell.idxs@, v));
                }
            }
            plan = plan.push(cp);
        }
        chains.push(chain);
        c += 1;
    }
    proof {
        assert forall|a: int, b: int|
            #![trigger plan[a], plan[b]]
            0 <= a < b < plan.len() implies sweeps_before(plan[a].key, plan[b].key) by {
            assert(sweeps_before(cells@[a].key(), cells@[b].key()));
        }
        assert forall|v: int| #![trigger ev[v]] 0 <= v < ev.len() implies has_cell(
            plan,
            cell_of(ev[v]),
        ) by {
            let c = choose|c: int|
                0 <= c < cells@.len() && (#[trigger] cells@[c]).key() == cell_of(ev[v]);
            assert(plan[c].key == cell_of(ev[v]));
        }
        assert(is_plan(ev, plan));
        lemma_plan_is_permutation(ev, plan, most as nat);
        assert forall|k: int, m: int|
            0 <= k < plan.len() && 0 <= m < plan[k].chain.len() implies (
        #[trigger] plan[k].chain[m]) < ev.len() by {
            let chain = plan[k].chain;
            lemma_occ_contains(chain, chain[m]);
            assert(chain.contains(chain[m]));
            assert(lists_cell(ev, ev.len(), plan[k].key, chain));
            assert(occ(chain, chain[m]) > 0);
        }
    }
    let mut out: Vec<PathElem> = Vec::new();
    let mut r: usize = 0;
    assert(out.deep_view() =~= read(ev, rounds(plan, 0)));
    while r < most
        invariant
            r <= most,
            ev == elems.deep_view(),
            plan.len() == chains@.len(),
            forall|k: int| 0 <= k < plan.len() ==> (#[trigger] plan[k]).chain == chains@[k]@,
            forall|k: int, m: int|
                0 <= k < plan.len() && 0 <= m < plan[k].chain.len() ==> (
                #[trigger] plan[k].chain[m]) < ev.len(),
            out.deep_view() == read(ev, rounds(plan, r as nat)),
        decreases most - r,
    {
        let ghost before = rounds(plan, r as nat);
        let mut q: usize = 0;
        assert(before + one_round(plan, r as nat, 0) =~= before);
        while q < chains.len()
            invariant
                q <= chains.len(),
                ev == elems.deep_view(),
                plan.len() == chains@.len(),
                forall|k: int| 0 <= k < plan.len() ==> (#[trigger] plan[k]).chain == chains@[k]@,
                forall|k: int, m: int|
                    0 <= k < plan.len() && 0 <= m < plan[k].chain.len() ==> (
                    #[trigger] plan[k].chain[m]) < ev.len(),
                out.deep_view() == read(ev, before + one_round(plan, r as nat, q as nat)),
            decreases chains.len() - q,
        {
            let ghost so_far = out.deep_view();
            let chain = &chains[q];
            assert(plan[q as int].chain == chain@);
            if r < chain.len() {
                let i: usize = chain[r];
                assert(plan[q as int].chain[r as int] == i);
                let e = elems[i].clone();
                out.push(e);
                assert(out.deep_view() =~= so_far.push(ev[i as int]));
            }
            assert(out.deep_view() =~= read(ev, before + one_round(plan, r as nat, (q + 1) as nat)));
            q += 1;
        }
        assert(rounds(plan, (r + 1) as nat) == before + one_round(
            plan,
            r as nat,
            plan.len(),
        ));
        r += 1;
    }
    let out = Paths { elems: out };
    proof {
        assert(exhausted(plan, most as nat));
        assert(out.deep_view() == read(ev, rounds(plan, most as nat)));
        assert(is_ordering(ev, out.deep_view()));
        ordering_is_a_permutation(ev, out.deep_view());
    }
    out
}

/// The sums of coordinates take in every point.
pub proof fn sums_take_in_every_point(s: Seq<P>, p: P)
    ensures
        sum_x(Seq::empty()) == 0,
        sum_y(Seq::empty()) == 0,
        sum_x(s.push(p)) == sum_x(s) + p.x,
        sum_y(s.push(p)) == sum_y(s) + p.y,
{
    assert(s.push(p).drop_last() =~= s);
}

/// The centroid of an element lies where its points are on average, rounded
/// towards zero, and its cell is the ten-millimeter square that holds it.
pub proof fn cells_hold_their_centroids(e: ElemV)
    requires
        e.pts.len() > 0,
    ensures
        ({
            let n = e.pts.len() as int;
            let c = centroid_of(e.pts);
            let (x, y) = (sum_x(e.pts), sum_y(e.pts));
            let cell = cell_of(e);
            &&& x >= 0 ==> c.0 * n <= x < (c.0 + 1) * n
            &&& x <= 0 ==> (c.0 - 1) * n < x <= c.0 * n
            &&& y >= 0 ==> c.1 * n <= y < (c.1 + 1) * n
            &&& y <= 0 ==> (c.1 - 1) * n < y <= c.1 * n
            &&& 10_000_000 * cell.0 <= c.0 < 10_000_000 * (cell.0 + 1)
            &&& 10_000_000 * cell.1 <= c.1 < 10_000_000 * (cell.1 + 1)
        }),
{
    lemma_toward_zero(sum_x(e.pts), e.pts.len() as int);
    lemma_toward_zero(sum_y(e.pts), e.pts.len() as int);
}

proof fn lemma_toward_zero(a: int, n: int)
    requires
        n > 0,
    ensures
        a >= 0 ==> toward_zero(a, n) * n <= a < (toward_zero(a, n) + 1) * n,
        a <= 0 ==> (toward_zero(a, n) - 1) * n < a <= toward_zero(a, n) * n,
{
    let m = if a >= 0 {
        a
    } else {
        -a
    };
    vstd::arithmetic::div_mod::lemma_fundamental_div_mod(m, n);
    let q = m / n;
    assert(q * n <= m < (q + 1) * n) by (nonlinear_arith)
        requires
            m == n * q + m % n,
            0 <= m % n < n,
    ;
    assert((-q) * n == -(q * n) && (-q - 1) * n == -((q + 1) * n)) by (nonlinear_arith);
    if a == 0 {
        assert(q == 0) by (nonlinear_arith)
            requires
                q == 0int / n,
                n > 0,
        ;
        assert(0 * n == 0 && (0 - 1) * n == -n) by (nonlinear_arith);
    }
}

/// Within a cell, the element that comes next is the nearest of those left: none
/// of the cell that comes later starts nearer to where the one before ended.
pub proof fn chains_go_to_the_nearest(elems: Seq<ElemV>, chain: Seq<usize>, k: int, m: int)
    requires
        is_chain(elems, chain),
        0 < k < m < chain.len(),
        elems[chain[k - 1] as int].pts.len() > 0,
        elems[chain[k] as int].pts.len() > 0,
        elems[chain[m] as int].pts.len() > 0,
    ensures
        ({
            let at = elems[chain[k - 1] as int].pts.last();
            let a = elems[chain[k] as int].pts.first();
            let b = elems[chain[m] as int].pts.first();
            (at.x - a.x) * (at.x - a.x) + (at.y - a.y) * (at.y - a.y) <= (at.x - b.x) * (at.x - b.x)
                + (at.y - b.y) * (at.y - b.y)
        }),
{
    assert(nearer(elems, end_of(elems[chain[k - 1] as int]), chain[k], chain[m]));
}

/// The sweep goes over the columns of cells from left to right, up the even ones
/// and down the odd ones.
pub proof fn sweep_turns_at_every_column(elems: Seq<ElemV>, cells: Seq<CellPlan>, a: int, b: int)
    requires
        is_plan(elems, cells),
        0 <= a < b < cells.len(),
    ensures
        cells[a].key.0 <= cells[b].key.0,
        cells[a].key.0 == cells[b].key.0 && cells[a].key.0 % 2 == 0 ==> cells[a].key.1
            < cells[b].key.1,
        cells[a].key.0 == cells[b].key.0 && cells[a].key.0 % 2 == 1 ==> cells[a].key.1
            > cells[b].key.1,
{
    assert(sweeps_before(cells[a].key, cells[b].key));
}

/// A round takes the element of its number from every cell that has one, in the
/// order of the cells, and the rounds follow each other.
pub proof fn rounds_take_one_of_every_cell(cells: Seq<CellPlan>, r: nat)
    ensures
        one_round(cells, r, cells.len()) == cells.filter(
            |c: CellPlan| r < c.chain.len(),
        ).map_values(|c: CellPlan| c.chain[r as int]),
        rounds(cells, r) == Seq::new(
            r,
            |k: int| one_round(cells, k as nat, cells.len()),
        ).flatten_alt(),
    decreases r,
{
    lemma_round_in_order(cells, r, cells.len());
    assert(cells.take(cells.len() as int) =~= cells);
    let all = Seq::new(r, |k: int| one_round(cells, k as nat, cells.len()));
    if r > 0 {
        rounds_take_one_of_every_cell(cells, (r - 1) as nat);
        assert(all.drop_last() =~= Seq::new(
            (r - 1) as nat,
            |k: int| one_round(cells, k as nat, cells.len()),
        ));
    }
}

proof fn lemma_round_in_order(cells: Seq<CellPlan>, r: nat, n: nat)
    requires
        n <= cells.len(),
    ensures
        one_round(cells, r, n) == cells.take(n as int).filter(
            |c: CellPlan| r < c.chain.len(),
        ).map_values(|c: CellPlan| c.chain[r as int]),
    decreases n,
{
    reveal(Seq::filter);
    let f = |c: CellPlan| r < c.chain.len();
    let g = |c: CellPlan| c.chain[r as int];
    let now = cells.take(n as int);
    if n > 0 {
        let less = cells.take(n - 1);
        lemma_round_in_order(cells, r, (n - 1) as nat);
        assert(now.drop_last() =~= less);
        if f(now.last()) {
            assert(less.filter(f).push(now.last()).map_values(g) =~= less.filter(f).map_values(
                g,
            ).push(now.last().chain[r as int]));
        }
    } else {
        assert(now.filter(f).map_values(g) =~= Seq::empty());
    }
}

/// A chain starts with the element whose first point lies farthest left, the lowest
/// of those.
pub proof fn chains_start_at_the_left(elems: Seq<ElemV>, chain: Seq<usize>, m: int)
    requires
        is_chain(elems, chain),
        0 < m < chain.len(),
        elems[chain[0] as int].pts.len() > 0,
        elems[chain[m] as int].pts.len() > 0,
    ensures
        ({
            let a = elems[chain[0] as int].pts[0];
            let b = elems[chain[m] as int].pts[0];
            a.x <= b.x && (a.x == b.x ==> a.y <= b.y)
        }),
{
    assert(starts_before(elems, chain[0], chain[m]));
}

} // verus!
