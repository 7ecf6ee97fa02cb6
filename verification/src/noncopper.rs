//! Non-copper regions: everything on the board that the laser removes.
use vstd::prelude::*;
use crate::ablation::{in_region, point_in_polys};
use crate::bounds::{
    covers, hull_from, include_points, lies_within, rings_hull_from, rings_hull_is_the_least, Bounds,
};
use crate::counting::{lemma_occ_push, lemma_same_multiset, occ};
use crate::geom::{
    area_fits, boolean_of, difference, doubled_area, in_range, normal_of, normalized, poly_in_range,
    polys_in_range, ring_doubled_area, ring_in_range, union, BoolOp,
};
use crate::model::{clone_ring, lemma_ring_view, Nm, Poly, PolyV, Ring, P};
use crate::offset::rings_of;

verus! {

broadcast use lemma_ring_view;

// ---------------------------------------------------------------------------
// Board region from a stroked outline
// ---------------------------------------------------------------------------

/// The outermost rings of the components of an outline, degenerate ones
/// dropped, in outline order.
pub open spec fn candidates(outline: Seq<PolyV>) -> Seq<Seq<P>>
    decreases outline.len(),
{
    if outline.len() == 0 {
        Seq::empty()
    } else {
        let before = candidates(outline.drop_last());
        if outline.last().outer.len() >= 3 {
            before.push(outline.last().outer)
        } else {
            before
        }
    }
}

/// The size of a ring: its doubled area, whichever way it runs.
pub open spec fn size(ring: Seq<P>) -> int {
    if doubled_area(ring) < 0 {
        -doubled_area(ring)
    } else {
        doubled_area(ring)
    }
}

/// A ring put behind all rings that are at least as large.
pub open spec fn insert_by_size(sorted: Seq<Seq<P>>, ring: Seq<P>) -> Seq<Seq<P>>
    decreases sorted.len(),
{
    if sorted.len() > 0 && size(sorted.last()) < size(ring) {
        insert_by_size(sorted.drop_last(), ring).push(sorted.last())
    } else {
        sorted.push(ring)
    }
}

/// Rings by size, largest first, equal ones in their given order.
pub open spec fn largest_first(rings: Seq<Seq<P>>) -> Seq<Seq<P>>
    decreases rings.len(),
{
    if rings.len() == 0 {
        Seq::empty()
    } else {
        insert_by_size(largest_first(rings.drop_last()), rings.last())
    }
}

/// How many of the placed rings contain a point.
pub open spec fn depth(pt: P, placed: Seq<Seq<P>>) -> nat
    decreases placed.len(),
{
    if placed.len() == 0 {
        0
    } else {
        depth(pt, placed.drop_last()) + if in_region(pt, seq![placed.last()], 0) {
            1nat
        } else {
            0nat
        }
    }
}

/// A ring as a polygon without holes.
pub open spec fn solid(ring: Seq<P>) -> PolyV {
    PolyV { outer: ring, holes: Seq::empty() }
}

/// The region that nested rings enclose: each ring, largest first, is filled
/// at even nesting depth and cut out at odd depth.
pub open spec fn nested_region(rings: Seq<Seq<P>>) -> Seq<PolyV>
    decreases rings.len(),
{
    if rings.len() == 0 {
        Seq::empty()
    } else {
        let before = nested_region(rings.drop_last());
        let ring = rings.last();
        let op = if depth(ring[0], rings.drop_last()) % 2 == 0 {
            BoolOp::Union
        } else {
            BoolOp::Difference
        };
        boolean_of(before, seq![solid(ring)], op)
    }
}

/// The board region of a stroked outline.
pub open spec fn outline_region(outline: Seq<PolyV>) -> Seq<PolyV> {
    nested_region(largest_first(candidates(outline)))
}

/// Every ring can be measured and takes part in boolean operations.
spec fn usable(rings: Seq<Seq<P>>) -> bool {
    forall|i: int|
        0 <= i < rings.len() ==> (#[trigger] rings[i]).len() >= 3 && ring_in_range(rings[i])
            && area_fits(rings[i])
}

fn ring_size(ring: &Ring) -> (a: u128)
    requires
        area_fits(ring@),
    ensures
        a == size(ring@),
{
    let d: i128 = ring_doubled_area(ring);
    if d < 0 {
        (-(d + 1)) as u128 + 1
    } else {
        d as u128
    }
}

proof fn lemma_insert_usable(sorted: Seq<Seq<P>>, ring: Seq<P>)
    requires
        usable(sorted),
        ring.len() >= 3,
        ring_in_range(ring),
        area_fits(ring),
    ensures
        usable(insert_by_size(sorted, ring)),
    decreases sorted.len(),
{
    if sorted.len() > 0 && size(sorted.last()) < size(ring) {
        let head = sorted.drop_last();
        assert forall|i: int| 0 <= i < head.len() implies (#[trigger] head[i]).len() >= 3
            && ring_in_range(head[i]) && area_fits(head[i]) by {
            assert(head[i] == sorted[i]);
        }
        lemma_insert_usable(head, ring);
        assert(sorted[sorted.len() - 1] == sorted.last());
    }
}

/// Put a ring into a list that runs from large to small.
fn insert_ring(sorted: &mut Vec<Ring>, ring: Ring)
    requires
        usable(old(sorted).deep_view()),
        ring@.len() >= 3,
        ring_in_range(ring@),
        area_fits(ring@),
    ensures
        final(sorted).deep_view() == insert_by_size(old(sorted).deep_view(), ring@),
        usable(final(sorted).deep_view()),
{
    let ghost all = sorted.deep_view();
    let mut at: usize = sorted.len();
    let a: u128 = ring_size(&ring);
    proof {
        lemma_insert_usable(all, ring@);
    }
    assert(all.take(at as int) =~= all);
    assert forall|i: int| 0 <= i < sorted@.len() implies area_fits((#[trigger] sorted@[i])@) by {
        assert(all[i] == sorted@[i]@);
    }
    assert(insert_by_size(all, ring@) =~= insert_by_size(all.take(at as int), ring@) + all.skip(
        at as int,
    ));
    while at > 0 && ring_size(&sorted[at - 1]) < a
        invariant
            at <= sorted.len(),
            all == sorted.deep_view(),
            usable(all),
            a == size(ring@),
            forall|i: int| 0 <= i < sorted@.len() ==> area_fits((#[trigger] sorted@[i])@),
            insert_by_size(all, ring@) == insert_by_size(all.take(at as int), ring@) + all.skip(
                at as int,
            ),
        decreases at,
    {
        proof {
            let t = all.take(at as int);
            assert(t.drop_last() =~= all.take(at - 1));
            assert(t.last() == all[at - 1]);
            assert(insert_by_size(t, ring@) + all.skip(at as int) =~= insert_by_size(
                all.take(at - 1),
                ring@,
            ) + all.skip(at - 1));
        }
        at -= 1;
    }
    let ghost rv = ring@;
    sorted.insert(at, ring);
    proof {
        let t = all.take(at as int);
        assert(insert_by_size(t, rv) == t.push(rv));
        assert(sorted.deep_view() =~= t.push(rv) + all.skip(at as int));
    }
}

/// Board region enclosed by a stroked outline layer.
///
/// The hole of a stroked border is the board interior, so each component is
/// filled to its outermost ring. A component nested inside another at odd
/// depth is a cutout and stays open.
pub fn board_region_from_outline(outline: &[Poly]) -> (region: Vec<Poly>)
    requires
        polys_in_range(outline.deep_view()),
        forall|i: int|
            0 <= i < outline@.len() ==> area_fits((#[trigger] outline.deep_view()[i]).outer),
    ensures
        region.deep_view() == outline_region(outline.deep_view()),
        normalized(region.deep_view()),
        polys_in_range(region.deep_view()),
{
    let ghost ov = outline.deep_view();
    let mut sorted: Vec<Ring> = Vec::new();
    let mut i: usize = 0;
    assert(sorted.deep_view() =~= largest_first(candidates(ov.take(0))));
    while i < outline.len()
        invariant
            i <= outline.len(),
            ov == outline.deep_view(),
            polys_in_range(ov),
            forall|k: int| 0 <= k < ov.len() ==> area_fits((#[trigger] ov[k]).outer),
            sorted.deep_view() == largest_first(candidates(ov.take(i as int))),
            usable(sorted.deep_view()),
        decreases outline.len() - i,
    {
        let p = &outline[i];
        assert(ov.take(i + 1).drop_last() =~= ov.take(i as int));
        assert(ov[i as int] == p.deep_view());
        assert(poly_in_range(ov[i as int]));
        if p.outer.len() >= 3 {
            let ghost c = candidates(ov.take(i as int));
            let ring = clone_ring(&p.outer);
            insert_ring(&mut sorted, ring);
            assert(c.push(p.outer@).drop_last() =~= c);
        }
        i += 1;
    }
    assert(ov.take(i as int) =~= ov);

    let ghost sv = sorted.deep_view();
    let mut region: Vec<Poly> = Vec::new();
    let mut k: usize = 0;
    assert(region.deep_view() =~= nested_region(sv.take(0)));
    while k < sorted.len()
        invariant
            k <= sorted.len(),
            sv == sorted.deep_view(),
            usable(sv),
            region.deep_view() == nested_region(sv.take(k as int)),
            normalized(region.deep_view()),
            polys_in_range(region.deep_view()),
        decreases sorted.len() - k,
    {
        assert(sv.take(k + 1).drop_last() =~= sv.take(k as int));
        assert(sv[k as int] == sorted@[k as int]@);
        assert(ring_in_range(sv[k as int]) && sv[k as int].len() >= 3);
        let probe = sorted[k][0];
        assert(in_range(sv[k as int][0]));
        let odd = is_at_odd_depth(probe, &sorted, k);
        let cand = one_ring(&sorted[k]);
        region = if odd {
            difference(region.as_slice(), cand.as_slice())
        } else {
            union(region.as_slice(), cand.as_slice())
        };
        k += 1;
    }
    assert(sv.take(k as int) =~= sv);
    region
}

/// A list with one polygon, the ring without holes.
fn one_ring(ring: &Ring) -> (r: Vec<Poly>)
    requires
        ring_in_range(ring@),
    ensures
        r.deep_view() == seq![solid(ring@)],
        polys_in_range(r.deep_view()),
{
    let p = Poly { outer: clone_ring(ring), holes: Vec::new() };
    assert(p.deep_view().holes =~= solid(ring@).holes);
    let mut r: Vec<Poly> = Vec::new();
    r.push(p);
    assert(r.deep_view() =~= seq![solid(ring@)]);
    assert(poly_in_range(solid(ring@)));
    r
}

/// Whether an odd number of the first `n` rings contain the point.
fn is_at_odd_depth(pt: P, rings: &Vec<Ring>, n: usize) -> (odd: bool)
    requires
        in_range(pt),
        n <= rings@.len(),
        usable(rings.deep_view()),
    ensures
        odd == (depth(pt, rings.deep_view().take(n as int)) % 2 == 1),
{
    let ghost rv = rings.deep_view();
    let mut odd = false;
    let mut i: usize = 0;
    while i < n
        invariant
            i <= n <= rings@.len(),
            in_range(pt),
            rv == rings.deep_view(),
            usable(rv),
            odd == (depth(pt, rv.take(i as int)) % 2 == 1),
        decreases n - i,
    {
        assert(rv.take(i + 1).drop_last() =~= rv.take(i as int));
        assert(ring_in_range(rv[i as int]));
        let one = one_ring(&rings[i]);
        let inside = point_in_polys(pt, one.as_slice(), 0);
        proof {
            let o = one.deep_view();
            assert(o.drop_last() =~= Seq::<PolyV>::empty());
            assert(rings_of(o) =~= seq![rv[i as int]]) by {
                reveal_with_fuel(rings_of, 2);
            }
        }
        if inside {
            odd = !odd;
        }
        i += 1;
    }
    odd
}

// ---------------------------------------------------------------------------
// Nesting
// ---------------------------------------------------------------------------

/// Which rings of a list contain a point.
pub open spec fn rings_around(pt: P, rings: Seq<Seq<P>>) -> Set<int> {
    Set::new(|i: int| 0 <= i < rings.len() && in_region(pt, seq![rings[i]], 0))
}

/// The depth of a point is the number of rings around it, in whatever order
/// they come.
pub proof fn depth_counts_the_rings_around(pt: P, rings: Seq<Seq<P>>)
    ensures
        rings_around(pt, rings).finite(),
        depth(pt, rings) == rings_around(pt, rings).len(),
    decreases rings.len(),
{
    let all = rings_around(pt, rings);
    if rings.len() == 0 {
        assert(all =~= Set::<int>::empty());
    } else {
        let r = rings.drop_last();
        depth_counts_the_rings_around(pt, r);
        let before = rings_around(pt, r);
        let n = rings.len() - 1;
        if in_region(pt, seq![rings.last()], 0) {
            assert(all =~= before.insert(n));
        } else {
            assert(all =~= before);
        }
    }
}

proof fn lemma_insert_keeps(sorted: Seq<Seq<P>>, ring: Seq<P>, v: Seq<P>)
    ensures
        occ(insert_by_size(sorted, ring), v) == occ(sorted.push(ring), v),
    decreases sorted.len(),
{
    lemma_occ_push(sorted, ring, v);
    if sorted.len() > 0 && size(sorted.last()) < size(ring) {
        let head = sorted.drop_last();
        lemma_insert_keeps(head, ring, v);
        lemma_occ_push(head, ring, v);
        lemma_occ_push(insert_by_size(head, ring), sorted.last(), v);
    }
}

/// Twice the area that a ring encloses, whichever way it runs.
pub open spec fn enclosed(ring: Seq<P>) -> int {
    if doubled_area(ring) >= 0 {
        doubled_area(ring)
    } else {
        -doubled_area(ring)
    }
}

/// No ring is followed by one that encloses more.
pub open spec fn from_large_to_small(rings: Seq<Seq<P>>) -> bool {
    forall|i: int, j: int|
        #![trigger rings[i], rings[j]]
        0 <= i < j < rings.len() ==> enclosed(rings[i]) >= enclosed(rings[j])
}

proof fn lemma_insert_descends(sorted: Seq<Seq<P>>, ring: Seq<P>)
    requires
        from_large_to_small(sorted),
    ensures
        from_large_to_small(insert_by_size(sorted, ring)),
        insert_by_size(sorted, ring).len() == sorted.len() + 1,
        forall|i: int|
            #![trigger insert_by_size(sorted, ring)[i]]
            0 <= i < sorted.len() + 1 ==> (enclosed(insert_by_size(sorted, ring)[i]) >= enclosed(
                ring,
            ) || (sorted.len() > 0 && enclosed(insert_by_size(sorted, ring)[i]) >= enclosed(
                sorted.last(),
            ))),
    decreases sorted.len(),
{
    let all = insert_by_size(sorted, ring);
    if sorted.len() > 0 && size(sorted.last()) < size(ring) {
        let head = sorted.drop_last();
        assert(from_large_to_small(head)) by {
            assert forall|i: int, j: int| #![trigger head[i], head[j]] 0 <= i < j < head.len() implies
                enclosed(head[i]) >= enclosed(head[j]) by {
                assert(enclosed(sorted[i]) >= enclosed(sorted[j]));
            }
        }
        lemma_insert_descends(head, ring);
        let part = insert_by_size(head, ring);
        assert forall|i: int| 0 <= i < all.len() implies enclosed(#[trigger] all[i]) >= enclosed(
            sorted.last(),
        ) by {
            if i < part.len() {
                assert(all[i] == part[i]);
                if head.len() > 0 {
                    assert(enclosed(sorted[head.len() - 1]) >= enclosed(sorted[sorted.len() - 1]));
                }
            }
        }
        assert forall|i: int, j: int| #![trigger all[i], all[j]] 0 <= i < j < all.len() implies
            enclosed(all[i]) >= enclosed(all[j]) by {
            if j < part.len() {
                assert(enclosed(part[i]) >= enclosed(part[j]));
            }
        }
    } else {
        assert forall|i: int, j: int| #![trigger all[i], all[j]] 0 <= i < j < all.len() implies
            enclosed(all[i]) >= enclosed(all[j]) by {
            if j < sorted.len() {
                assert(enclosed(sorted[i]) >= enclosed(sorted[j]));
            } else if i < sorted.len() - 1 {
                assert(enclosed(sorted[i]) >= enclosed(sorted[sorted.len() - 1]));
            }
        }
        assert forall|i: int| 0 <= i < all.len() implies enclosed(#[trigger] all[i]) >= enclosed(
            ring,
        ) by {
            if i < sorted.len() - 1 {
                assert(enclosed(sorted[i]) >= enclosed(sorted[sorted.len() - 1]));
            }
        }
    }
}

proof fn lemma_largest_first(rings: Seq<Seq<P>>)
    ensures
        from_large_to_small(largest_first(rings)),
        forall|v: Seq<P>| #[trigger] occ(largest_first(rings), v) == occ(rings, v),
    decreases rings.len(),
{
    if rings.len() > 0 {
        let head = rings.drop_last();
        lemma_largest_first(head);
        lemma_insert_descends(largest_first(head), rings.last());
        assert forall|v: Seq<P>| #[trigger] occ(largest_first(rings), v) == occ(rings, v) by {
            lemma_insert_keeps(largest_first(head), rings.last(), v);
            lemma_occ_push(largest_first(head), rings.last(), v);
            assert(occ(largest_first(head), v) == occ(head, v));
        }
    }
}

proof fn lemma_candidates(outline: Seq<PolyV>)
    ensures
        candidates(outline) == outline.map_values(|p: PolyV| p.outer).filter(
            |r: Seq<P>| r.len() >= 3,
        ),
    decreases outline.len(),
{
    reveal(Seq::filter);
    if outline.len() > 0 {
        lemma_candidates(outline.drop_last());
        assert(outline.map_values(|p: PolyV| p.outer).drop_last() =~= outline.drop_last().map_values(
            |p: PolyV| p.outer,
        ));
    }
}

/// A board is built ring by ring: of the outermost rings of its outline, those
/// that enclose something, the largest first, each is added if an even number
/// of the larger ones lies around its first point, and taken away if an odd
/// number does. The first part is the rings, the second the region before each
/// ring, and the board at the end.
pub proof fn board_fills_even_depths(outline: Seq<PolyV>) -> (r: (Seq<Seq<P>>, Seq<Seq<PolyV>>))
    ensures
        r.0.to_multiset() == outline.map_values(|p: PolyV| p.outer).filter(
            |r: Seq<P>| r.len() >= 3,
        ).to_multiset(),
        from_large_to_small(r.0),
        r.1.len() == r.0.len() + 1,
        r.1[0] == Seq::<PolyV>::empty(),
        r.1.last() == outline_region(outline),
        forall|k: int|
            0 <= k < r.0.len() ==> #[trigger] r.1[k + 1] == boolean_of(
                r.1[k],
                seq![PolyV { outer: r.0[k], holes: Seq::empty() }],
                if rings_around(r.0[k][0], r.0.take(k)).len() % 2 == 0 {
                    BoolOp::Union
                } else {
                    BoolOp::Difference
                },
            ),
{
    let rings = largest_first(candidates(outline));
    lemma_largest_first(candidates(outline));
    lemma_same_multiset(rings, candidates(outline));
    lemma_candidates(outline);
    let steps = Seq::new(rings.len() + 1, |k: int| nested_region(rings.take(k)));
    assert(rings.take(0) =~= Seq::<Seq<P>>::empty());
    assert(rings.take(rings.len() as int) =~= rings);
    assert forall|k: int| 0 <= k < rings.len() implies #[trigger] steps[k + 1] == boolean_of(
        steps[k],
        seq![PolyV { outer: rings[k], holes: Seq::empty() }],
        if rings_around(rings[k][0], rings.take(k)).len() % 2 == 0 {
            BoolOp::Union
        } else {
            BoolOp::Difference
        },
    ) by {
        assert(rings.take(k + 1).drop_last() =~= rings.take(k));
        assert(rings.take(k + 1).last() == rings[k]);
        depth_counts_the_rings_around(rings[k][0], rings.take(k));
    }
    (rings, steps)
}

/// The fallback board reaches past every vertex of the copper's outlines by the
/// margin on each side, and no further than the outermost ones.
pub proof fn fallback_board_keeps_the_margin(copper: Seq<PolyV>, margin: int)
    requires
        outers_hull(copper) matches Some(b) && box_fits(b, margin),
    ensures
        ({
            let ring = grown_box(outers_hull(copper)->0, margin);
            let (lo, hi) = (ring[0], ring[2]);
            &&& ring.len() == 4
            &&& ring[1] == (P { x: hi.x, y: lo.y })
            &&& ring[3] == (P { x: lo.x, y: hi.y })
            &&& forall|k: int, i: int|
                0 <= k < copper.len() && 0 <= i < copper[k].outer.len() ==> {
                    let v = #[trigger] copper[k].outer[i];
                    lo.x + margin <= v.x <= hi.x - margin && lo.y + margin <= v.y <= hi.y - margin
                }
            &&& forall|c: Bounds|
                (forall|k: int| 0 <= k < copper.len() ==> covers(c, (#[trigger] copper[k]).outer))
                    ==> #[trigger] lies_within(
                    Bounds {
                        min: P { x: (lo.x + margin) as i64, y: (lo.y + margin) as i64 },
                        max: P { x: (hi.x - margin) as i64, y: (hi.y - margin) as i64 },
                    },
                    c,
                )
        }),
{
    let b = outers_hull(copper)->0;
    let outers = copper.map_values(|p: PolyV| p.outer);
    lemma_outers_hull(copper);
    let none = Bounds { min: b.min, max: b.max };
    rings_hull_is_the_least(outers, none);
    assert forall|k: int, i: int| 0 <= k < copper.len() && 0 <= i < copper[k].outer.len() implies {
        let v = #[trigger] copper[k].outer[i];
        b.contains(v)
    } by {
        assert(covers(b, outers[k]));
        assert(b.contains(outers[k][i]));
    }
    assert forall|c: Bounds|
        (forall|k: int| 0 <= k < copper.len() ==> covers(c, (#[trigger] copper[k]).outer)) implies
        #[trigger] lies_within(b, c) by {
        assert forall|k: int| 0 <= k < outers.len() implies covers(c, #[trigger] outers[k]) by {
            assert(covers(c, copper[k].outer));
        }
        rings_hull_is_the_least(outers, c);
    }
}

proof fn lemma_outers_hull(polys: Seq<PolyV>)
    ensures
        outers_hull(polys) == rings_hull_from(None, polys.map_values(|p: PolyV| p.outer)),
    decreases polys.len(),
{
    if polys.len() > 0 {
        lemma_outers_hull(polys.drop_last());
        assert(polys.map_values(|p: PolyV| p.outer).drop_last() =~= polys.drop_last().map_values(
            |p: PolyV| p.outer,
        ));
    }
}

// ---------------------------------------------------------------------------
// Fallback region and inversion
// ---------------------------------------------------------------------------

/// The bounding box of the outer rings.
pub open spec fn outers_hull(polys: Seq<PolyV>) -> Option<Bounds>
    decreases polys.len(),
{
    if polys.len() == 0 {
        None
    } else {
        hull_from(outers_hull(polys.drop_last()), polys.last().outer)
    }
}

/// A box grown by a margin on every side, as a counter-clockwise ring.
pub open spec fn grown_box(b: Bounds, margin: int) -> Seq<P> {
    let x0 = (b.min.x - margin) as i64;
    let y0 = (b.min.y - margin) as i64;
    let x1 = (b.max.x + margin) as i64;
    let y1 = (b.max.y + margin) as i64;
    seq![P { x: x0, y: y0 }, P { x: x1, y: y0 }, P { x: x1, y: y1 }, P { x: x0, y: y1 }]
}

/// The grown box has coordinates.
pub open spec fn box_fits(b: Bounds, margin: int) -> bool {
    &&& i64::MIN <= b.min.x - margin <= i64::MAX
    &&& i64::MIN <= b.min.y - margin <= i64::MAX
    &&& i64::MIN <= b.max.x + margin <= i64::MAX
    &&& i64::MIN <= b.max.y + margin <= i64::MAX
}

/// Fallback board region: the copper bounding box grown by `margin_nm` on every
/// side. Empty when there is no copper.
pub fn board_region_bbox(copper: &[Poly], margin_nm: Nm) -> (region: Vec<Poly>)
    requires
        outers_hull(copper.deep_view()) matches Some(b) ==> box_fits(b, margin_nm as int),
    ensures
        region.deep_view() == match outers_hull(copper.deep_view()) {
            None => Seq::empty(),
            Some(b) => seq![solid(grown_box(b, margin_nm as int))],
        },
{
    let ghost cv = copper.deep_view();
    let mut hull: Option<Bounds> = None;
    let mut i: usize = 0;
    while i < copper.len()
        invariant
            i <= copper.len(),
            cv == copper.deep_view(),
            hull == outers_hull(cv.take(i as int)),
        decreases copper.len() - i,
    {
        assert(cv.take(i + 1).drop_last() =~= cv.take(i as int));
        assert(cv[i as int] == copper@[i as int].deep_view());
        hull = include_points(hull, &copper[i].outer);
        i += 1;
    }
    assert(cv.take(i as int) =~= cv);
    let mut region: Vec<Poly> = Vec::new();
    match hull {
        None => {
            assert(region.deep_view() =~= Seq::<PolyV>::empty());
        },
        Some(b) => {
            let m: i128 = margin_nm as i128;
            let x0: i64 = (b.min.x as i128 - m) as i64;
            let y0: i64 = (b.min.y as i128 - m) as i64;
            let x1: i64 = (b.max.x as i128 + m) as i64;
            let y1: i64 = (b.max.y as i128 + m) as i64;
            let mut outer: Ring = Vec::new();
            outer.push(P { x: x0, y: y0 });
            outer.push(P { x: x1, y: y0 });
            outer.push(P { x: x1, y: y1 });
            outer.push(P { x: x0, y: y1 });
            assert(outer@ =~= grown_box(b, margin_nm as int));
            let p = Poly { outer, holes: Vec::new() };
            assert(p.deep_view().holes =~= Seq::<Seq<P>>::empty());
            region.push(p);
            assert(region.deep_view() =~= seq![solid(grown_box(b, margin_nm as int))]);
        },
    }
    region
}

/// The region to ablate: the board without the copper, grown by the beam
/// compensation. Output shapes are contiguous closed regions. A board without
/// copper is ablated whole, one that is all copper not at all.
pub fn noncopper(board: &[Poly], grown_copper: &[Poly]) -> (r: Vec<Poly>)
    requires
        polys_in_range(board.deep_view()),
        polys_in_range(grown_copper.deep_view()),
    ensures
        r.deep_view() == boolean_of(
            board.deep_view(),
            grown_copper.deep_view(),
            BoolOp::Difference,
        ),
        normalized(r.deep_view()),
        polys_in_range(r.deep_view()),
        grown_copper@.len() == 0 ==> r.deep_view() == normal_of(board.deep_view()),
        grown_copper.deep_view() == board.deep_view() ==> r@.len() == 0,
{
    difference(board, grown_copper)
}

} // verus!
