//! Passes through necks that are too thin for the rub-out hatch.
//!
//! The opening of a region by a disk is what the disk can cover sliding inside
//! it; what the opening loses is thinner than the disk. Of that residue the
//! components count that are neither crumbs of the boolean operations nor
//! rounded corners. Each gets one pass along its longest chord.
use vstd::prelude::*;
use crate::geom::{
    boolean_of, difference, in_range, poly_area, poly_area_fits, poly_doubled_area, poly_in_range,
    polys_in_range, ring_in_range, try_poly_area, BoolOp,
};
use crate::model::{clone_ring, lemma_ring_view, ElemV, Nm, PathElem, PathKind, Poly, PolyV, Ring, P};
use crate::order::{dist2, jump2};
use crate::sorting::{ascending, lemma_ascending, sort_ascending};

verus! {

broadcast use lemma_ring_view;

/// An open polyline: the laser traces the points in order.
#[derive(Debug, PartialEq, Eq)]
pub struct PolylineNm {
    pub pts: Ring,
}

impl DeepView for PolylineNm {
    type V = Seq<P>;

    open spec fn deep_view(&self) -> Seq<P> {
        self.pts@
    }
}

/// The force-clear elements of centerlines; lines of fewer than two points are
/// dropped.
pub open spec fn clear_elems(lines: Seq<Seq<P>>) -> Seq<ElemV>
    decreases lines.len(),
{
    if lines.len() == 0 {
        Seq::empty()
    } else if lines.last().len() >= 2 {
        clear_elems(lines.drop_last()).push(
            ElemV { kind: PathKind::ForceClear, pts: lines.last(), closed: false },
        )
    } else {
        clear_elems(lines.drop_last())
    }
}

/// Add centerlines as force-clear elements.
pub fn push_clear(elems: &mut Vec<PathElem>, lines: &Vec<PolylineNm>)
    ensures
        final(elems).deep_view() == old(elems).deep_view() + clear_elems(lines.deep_view()),
{
    let ghost start = elems.deep_view();
    let ghost lv = lines.deep_view();
    let mut i: usize = 0;
    assert(start + clear_elems(lv.take(0)) =~= start);
    while i < lines.len()
        invariant
            i <= lines@.len(),
            lv == lines.deep_view(),
            elems.deep_view() == start + clear_elems(lv.take(i as int)),
        decreases lines@.len() - i,
    {
        let ghost before = elems.deep_view();
        assert(lv.take(i + 1).drop_last() =~= lv.take(i as int));
        assert(lv[i as int] == lines@[i as int].pts@);
        if lines[i].pts.len() >= 2 {
            let pts = clone_ring(&lines[i].pts);
            elems.push(PathElem { kind: PathKind::ForceClear, pts, closed: false });
            assert(elems.deep_view() =~= before.push(
                ElemV { kind: PathKind::ForceClear, pts: lv[i as int], closed: false },
            ));
        }
        assert(elems.deep_view() =~= start + clear_elems(lv.take(i + 1)));
        i += 1;
    }
    assert(lv.take(i as int) =~= lv);
}

// ---------------------------------------------------------------------------
// Necks
// ---------------------------------------------------------------------------

/// Some two vertices are farther apart than `d`.
pub open spec fn wider_than(ring: Seq<P>, d: int) -> bool {
    exists|i: int, j: int|
        0 <= i < j < ring.len() && dist2(#[trigger] ring[i], #[trigger] ring[j]) > d * d
}

/// A component of the residue that is a neck: its area is at least a hundredth
/// of the square of the smallest feature, and it is longer than that feature.
pub open spec fn is_neck(comp: PolyV, min_nm: int) -> bool {
    poly_area(comp) * 50 >= min_nm * min_nm && wider_than(comp.outer, min_nm)
}

/// The components that are necks, in order.
pub open spec fn necks_of(residue: Seq<PolyV>, min_nm: int) -> Seq<PolyV>
    decreases residue.len(),
{
    if residue.len() == 0 {
        Seq::empty()
    } else if is_neck(residue.last(), min_nm) {
        necks_of(residue.drop_last(), min_nm).push(residue.last())
    } else {
        necks_of(residue.drop_last(), min_nm)
    }
}

/// Every component's area fits the accumulator.
pub open spec fn areas_fit(comps: Seq<PolyV>) -> bool {
    forall|i: int| 0 <= i < comps.len() ==> poly_area_fits(#[trigger] comps[i])
}

/// Whether two vertices of the ring are farther apart than `d`.
fn is_wider_than(ring: &Ring, d: Nm) -> (r: bool)
    requires
        d >= 0,
        ring_in_range(ring@),
    ensures
        r == wider_than(ring@, d as int),
{
    assert(0 <= d * d <= i64::MAX * i64::MAX) by (nonlinear_arith)
        requires
            0 <= d <= i64::MAX,
    ;
    let limit: i128 = (d as i128) * (d as i128);
    let mut i: usize = 0;
    while i < ring.len()
        invariant
            i <= ring@.len(),
            limit == d * d,
            ring_in_range(ring@),
            forall|k: int, j: int|
                0 <= k < i && k < j < ring@.len() ==> dist2(
                    #[trigger] ring@[k],
                    #[trigger] ring@[j],
                ) <= d * d,
        decreases ring@.len() - i,
    {
        let mut j: usize = i + 1;
        while j < ring.len()
            invariant
                i < j <= ring@.len(),
                limit == d * d,
                ring_in_range(ring@),
                forall|m: int| i < m < j ==> dist2(ring@[i as int], #[trigger] ring@[m]) <= d * d,
            decreases ring@.len() - j,
        {
            assert(in_range(ring@[i as int]) && in_range(ring@[j as int]));
            if jump2(ring[i], ring[j]) > limit {
                return true;
            }
            j += 1;
        }
        i += 1;
    }
    false
}

/// The necks among the components of a residue.
pub fn necks(residue: &Vec<Poly>, min_nm: Nm) -> (r: Vec<Poly>)
    requires
        min_nm > 0,
        areas_fit(residue.deep_view()),
        polys_in_range(residue.deep_view()),
    ensures
        r.deep_view() == necks_of(residue.deep_view(), min_nm as int),
{
    let ghost rv = residue.deep_view();
    assert(0 <= min_nm * min_nm <= i64::MAX * i64::MAX) by (nonlinear_arith)
        requires
            0 <= min_nm <= i64::MAX,
    ;
    let square: i128 = (min_nm as i128) * (min_nm as i128);
    let mut r: Vec<Poly> = Vec::new();
    let mut i: usize = 0;
    assert(r.deep_view() =~= necks_of(rv.take(0), min_nm as int));
    while i < residue.len()
        invariant
            i <= residue@.len(),
            rv == residue.deep_view(),
            min_nm > 0,
            square == min_nm * min_nm,
            0 <= square <= i64::MAX * i64::MAX,
            areas_fit(rv),
            polys_in_range(rv),
            r.deep_view() == necks_of(rv.take(i as int), min_nm as int),
        decreases residue@.len() - i,
    {
        let ghost before = r.deep_view();
        assert(rv.take(i + 1).drop_last() =~= rv.take(i as int));
        assert(rv[i as int] == residue@[i as int].deep_view());
        assert(poly_area_fits(rv[i as int]) && poly_in_range(rv[i as int]));
        let area: i128 = poly_doubled_area(&residue[i]);
        let large: bool = area >= (square + 49) / 50;
        assert(large == (area * 50 >= square));
        if large && is_wider_than(&residue[i].outer, min_nm) {
            r.push(residue[i].clone());
            assert(r.deep_view() =~= before.push(rv[i as int]));
        }
        i += 1;
    }
    assert(rv.take(i as int) =~= rv);
    r
}

/// The necks of a region: what its opening loses, without crumbs and rounded
/// corners. `opened` is the region shrunk by half the smallest feature and
/// grown back. Nothing comes back when an area exceeds the accumulator.
pub fn find_necks(region: &[Poly], opened: &[Poly], min_nm: Nm) -> (r: Option<Vec<Poly>>)
    requires
        polys_in_range(region.deep_view()),
        polys_in_range(opened.deep_view()),
    ensures
        region@.len() == 0 || min_nm <= 0 ==> (r matches Some(v) && v@.len() == 0),
        region@.len() > 0 && min_nm > 0 ==> {
            let residue = boolean_of(region.deep_view(), opened.deep_view(), BoolOp::Difference);
            &&& r is Some <==> areas_fit(residue)
            &&& r matches Some(v) ==> v.deep_view() == necks_of(residue, min_nm as int)
        },
{
    if region.len() == 0 || min_nm <= 0 {
        return Some(Vec::new());
    }
    let residue = difference(region, opened);
    let ghost rv = residue.deep_view();
    let mut i: usize = 0;
    while i < residue.len()
        invariant
            i <= residue@.len(),
            region@.len() > 0,
            min_nm > 0,
            rv == residue.deep_view(),
            rv == boolean_of(region.deep_view(), opened.deep_view(), BoolOp::Difference),
            forall|k: int| 0 <= k < i ==> poly_area_fits(#[trigger] rv[k]),
        decreases residue@.len() - i,
    {
        assert(rv[i as int] == residue@[i as int].deep_view());
        if try_poly_area(&residue[i]).is_none() {
            return None;
        }
        i += 1;
    }
    Some(necks(&residue, min_nm))
}

// ---------------------------------------------------------------------------
// Chords
// ---------------------------------------------------------------------------

/// Interval `k` of a line inside a component: the crossings alternate between
/// entering and leaving.
pub open spec fn holds_zero(s: Seq<i64>, k: int) -> bool {
    s[2 * k] <= 0 <= s[2 * k + 1]
}

pub open spec fn extent(s: Seq<i64>, k: int) -> int {
    s[2 * k + 1] - s[2 * k]
}

/// The interval a chord is taken from: the first that holds the origin, else
/// the first of the longest.
pub open spec fn is_chosen(s: Seq<i64>, k: int) -> bool {
    &&& 0 <= k < s.len() / 2
    &&& if exists|m: int| 0 <= m < s.len() / 2 && #[trigger] holds_zero(s, m) {
        &&& holds_zero(s, k)
        &&& forall|m: int| 0 <= m < k ==> !#[trigger] holds_zero(s, m)
    } else {
        &&& forall|m: int| 0 <= m < k ==> #[trigger] extent(s, m) < extent(s, k)
        &&& forall|m: int| k < m < s.len() / 2 ==> #[trigger] extent(s, m) <= extent(s, k)
    }
}

/// How far a chord is pulled in at both ends: never more than a quarter of it.
pub open spec fn pulled_in(inset: int, extent: int) -> int {
    if inset <= extent / 4 {
        inset
    } else {
        extent / 4
    }
}

/// The chord of interval `k`, pulled in at both ends.
pub open spec fn is_chord(s: Seq<i64>, k: int, inset: int, c: (i64, i64)) -> bool {
    let e = extent(s, k);
    &&& e > 0
    &&& c.0 == s[2 * k] + pulled_in(inset, e)
    &&& c.1 == s[2 * k + 1] - pulled_in(inset, e)
}

/// The pass through a component along a line: where the line crosses the
/// boundary, as positions on it from the centroid, gives the ends of the pass.
pub fn chord(crossings: &Vec<i64>, inset: i64) -> (r: Option<(i64, i64)>)
    requires
        inset >= 0,
    ensures
        r matches Some(c) ==> exists|k: int|
            #[trigger] is_chosen(ascending(crossings@), k) && is_chord(
                ascending(crossings@),
                k,
                inset as int,
                c,
            ),
        r is None ==> crossings@.len() < 2 || exists|k: int|
            #[trigger] is_chosen(ascending(crossings@), k) && extent(ascending(crossings@), k) <= 0,
{
    let sorted = sort_ascending(crossings);
    let ghost s = ascending(crossings@);
    proof {
        lemma_ascending(crossings@);
    }
    let total: usize = sorted.len();
    let n: usize = total / 2;
    if n == 0 {
        return None;
    }
    let mut best: usize = 0;
    let mut k: usize = 0;
    let mut found = false;
    while k < n && !found
        invariant
            total == s.len(),
            n == total / 2,
            sorted@ == s,
            1 <= n,
            k <= n,
            best < n,
            best <= k,
            found ==> holds_zero(s, best as int),
            forall|m: int| 0 <= m < k ==> (#[trigger] holds_zero(s, m) ==> found && m == best),
            !found ==> forall|m: int|
                0 <= m < k && m < best ==> #[trigger] extent(s, m) < extent(s, best as int),
            !found ==> forall|m: int|
                best < m < k ==> #[trigger] extent(s, m) <= extent(s, best as int),
            found ==> forall|m: int| 0 <= m < best ==> !#[trigger] holds_zero(s, m),
        decreases n - k,
    {
        let lo: i64 = sorted[2 * k];
        let hi: i64 = sorted[2 * k + 1];
        let was: i128 = sorted[2 * best + 1] as i128 - sorted[2 * best] as i128;
        assert(holds_zero(s, k as int) == (lo <= 0 <= hi));
        assert(extent(s, k as int) == hi - lo);
        assert(extent(s, best as int) == was);
        if lo <= 0 && 0 <= hi {
            best = k;
            found = true;
        } else if hi as i128 - lo as i128 > was {
            best = k;
        }
        k += 1;
    }
    proof {
        if found {
            assert(holds_zero(s, best as int));
        }
        assert(is_chosen(s, best as int));
    }
    let t0: i64 = sorted[2 * best];
    let t1: i64 = sorted[2 * best + 1];
    let len: i128 = t1 as i128 - t0 as i128;
    assert(len == extent(s, best as int));
    if len <= 0 {
        return None;
    }
    let by: i128 = if inset as i128 <= len / 4 {
        inset as i128
    } else {
        len / 4
    };
    assert(by == pulled_in(inset as int, len as int));
    Some(((t0 as i128 + by) as i64, (t1 as i128 - by) as i64))
}

/// Every centerline of two points or more becomes an open force-clear element,
/// point for point and in order.
pub proof fn centerlines_become_passes(lines: Seq<Seq<P>>)
    ensures
        clear_elems(lines) == lines.filter(|l: Seq<P>| l.len() >= 2).map_values(
            |l: Seq<P>| ElemV { kind: PathKind::ForceClear, pts: l, closed: false },
        ),
    decreases lines.len(),
{
    reveal(Seq::filter);
    let proper = |l: Seq<P>| l.len() >= 2;
    let elem = |l: Seq<P>| ElemV { kind: PathKind::ForceClear, pts: l, closed: false };
    if lines.len() > 0 {
        let r = lines.drop_last();
        centerlines_become_passes(r);
        assert(r.filter(proper).push(lines.last()).map_values(elem) =~= r.filter(proper).map_values(
            elem,
        ).push(elem(lines.last())));
    } else {
        assert(lines.filter(proper).map_values(elem) =~= clear_elems(lines));
    }
}

/// Two vertices of a ring lie farther apart than `d`.
pub open spec fn reaches_over(ring: Seq<P>, d: int) -> bool {
    exists|i: int, j: int|
        0 <= i < ring.len() && 0 <= j < ring.len() && {
            let (a, b) = (#[trigger] ring[i], #[trigger] ring[j]);
            (a.x - b.x) * (a.x - b.x) + (a.y - b.y) * (a.y - b.y) > d * d
        }
}

proof fn lemma_reaches_over(ring: Seq<P>, d: int)
    ensures
        wider_than(ring, d) == reaches_over(ring, d),
{
    if wider_than(ring, d) {
        let (i, j) = choose|i: int, j: int|
            0 <= i < j < ring.len() && dist2(#[trigger] ring[i], #[trigger] ring[j]) > d * d;
        let (a, b) = (ring[i], ring[j]);
        assert((a.x - b.x) * (a.x - b.x) + (a.y - b.y) * (a.y - b.y) > d * d);
    }
    if reaches_over(ring, d) {
        let (i, j) = choose|i: int, j: int|
            0 <= i < ring.len() && 0 <= j < ring.len() && {
                let (a, b) = (#[trigger] ring[i], #[trigger] ring[j]);
                (a.x - b.x) * (a.x - b.x) + (a.y - b.y) * (a.y - b.y) > d * d
            };
        let (a, b) = (ring[i], ring[j]);
        let (u, v) = (a.x - b.x, a.y - b.y);
        assert((-u) * (-u) == u * u && (-v) * (-v) == v * v) by (nonlinear_arith);
        assert(d * d >= 0) by (nonlinear_arith);
        if i == j {
            assert(0int * 0int == 0);
        }
        if i < j {
            assert(dist2(ring[i], ring[j]) > d * d);
        } else {
            assert(dist2(ring[j], ring[i]) > d * d);
        }
    }
}

/// The necks are the components of the residue that count, in order: those of at
/// least a hundredth of the square of the smallest feature that are longer than
/// it.
pub proof fn necks_are_the_long_residues(residue: Seq<PolyV>, min_nm: int)
    ensures
        necks_of(residue, min_nm) == residue.filter(
            |c: PolyV| 50 * poly_area(c) >= min_nm * min_nm && reaches_over(c.outer, min_nm),
        ),
    decreases residue.len(),
{
    reveal(Seq::filter);
    if residue.len() > 0 {
        necks_are_the_long_residues(residue.drop_last(), min_nm);
        lemma_reaches_over(residue.last().outer, min_nm);
    }
}

/// A pass lies within the stretch it is taken from, leaves the same at both
/// ends, and keeps at least half of it.
pub proof fn passes_stay_inside_their_stretch(s: Seq<i64>, k: int, inset: int, c: (i64, i64))
    requires
        is_chord(s, k, inset, c),
        inset >= 0,
    ensures
        ({
            let (a, b) = (s[2 * k], s[2 * k + 1]);
            &&& a <= c.0 <= c.1 <= b
            &&& c.0 - a == b - c.1
            &&& c.0 - a <= inset
            &&& 2 * (c.1 - c.0) >= b - a
            &&& 4 * inset <= b - a ==> c.0 - a == inset
        }),
{
}

/// A pass is laid through the first stretch that holds the origin, and where none
/// does through one that no other stretch is longer than.
pub proof fn passes_go_through_the_origin(s: Seq<i64>, k: int, m: int)
    requires
        is_chosen(s, k),
        0 <= m < s.len() / 2,
    ensures
        s[2 * m] <= 0 <= s[2 * m + 1] ==> s[2 * k] <= 0 <= s[2 * k + 1] && k <= m,
        !(s[2 * k] <= 0 <= s[2 * k + 1]) ==> s[2 * m + 1] - s[2 * m] <= s[2 * k + 1] - s[2 * k],
{
    assert(holds_zero(s, m) == (s[2 * m] <= 0 <= s[2 * m + 1]));
    assert(extent(s, m) == s[2 * m + 1] - s[2 * m]);
}

} // verus!
