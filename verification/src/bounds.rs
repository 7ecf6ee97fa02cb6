//! Axis-aligned bounding boxes.
use vstd::prelude::*;
use crate::model::{lemma_ring_view, ElemV, Paths, Poly, PolyV, Ring, P};

verus! {

broadcast use lemma_ring_view;

/// A box with sides along the axes; both corners belong to it.
#[derive(Debug, Clone, Copy, PartialEq, Eq, Structural)]
pub struct Bounds {
    pub min: P,
    pub max: P,
}

impl Bounds {
    pub open spec fn contains(self, p: P) -> bool {
        self.min.x <= p.x <= self.max.x && self.min.y <= p.y <= self.max.y
    }
}

pub open spec fn lower(a: i64, b: i64) -> i64 {
    if a <= b {
        a
    } else {
        b
    }
}

pub open spec fn upper(a: i64, b: i64) -> i64 {
    if a >= b {
        a
    } else {
        b
    }
}

/// The smallest box around a box (or nothing) and a point.
pub open spec fn around(b: Option<Bounds>, p: P) -> Bounds {
    match b {
        None => Bounds { min: p, max: p },
        Some(c) => Bounds {
            min: P { x: lower(c.min.x, p.x), y: lower(c.min.y, p.y) },
            max: P { x: upper(c.max.x, p.x), y: upper(c.max.y, p.y) },
        },
    }
}

/// The smallest box around a box (or nothing) and a list of points.
pub open spec fn hull_from(b: Option<Bounds>, s: Seq<P>) -> Option<Bounds>
    decreases s.len(),
{
    if s.len() == 0 {
        b
    } else {
        Some(around(hull_from(b, s.drop_last()), s.last()))
    }
}

/// The bounding box of a list of points; none without points.
pub open spec fn hull(s: Seq<P>) -> Option<Bounds> {
    hull_from(None, s)
}

/// The bounding box of path elements.
pub open spec fn elems_hull(elems: Seq<ElemV>) -> Option<Bounds>
    decreases elems.len(),
{
    if elems.len() == 0 {
        None
    } else {
        hull_from(elems_hull(elems.drop_last()), elems.last().pts)
    }
}

/// The smallest box around a box (or nothing) and a list of rings.
pub open spec fn rings_hull_from(b: Option<Bounds>, rings: Seq<Seq<P>>) -> Option<Bounds>
    decreases rings.len(),
{
    if rings.len() == 0 {
        b
    } else {
        hull_from(rings_hull_from(b, rings.drop_last()), rings.last())
    }
}

/// The smallest box around a box (or nothing) and all rings of polygons.
pub open spec fn polys_hull_from(b: Option<Bounds>, polys: Seq<PolyV>) -> Option<Bounds>
    decreases polys.len(),
{
    if polys.len() == 0 {
        b
    } else {
        rings_hull_from(
            hull_from(polys_hull_from(b, polys.drop_last()), polys.last().outer),
            polys.last().holes,
        )
    }
}

/// The bounding box of polygons; none without vertices.
pub open spec fn polys_hull(polys: Seq<PolyV>) -> Option<Bounds> {
    polys_hull_from(None, polys)
}

/// The box contains every point of a list.
pub open spec fn covers(b: Bounds, s: Seq<P>) -> bool {
    forall|i: int| 0 <= i < s.len() ==> b.contains(#[trigger] s[i])
}

/// `b` is the smallest box around the points: it contains them all, and each
/// side touches one.
pub open spec fn tight(b: Bounds, s: Seq<P>) -> bool {
    &&& forall|i: int| 0 <= i < s.len() ==> b.contains(#[trigger] s[i])
    &&& exists|i: int| 0 <= i < s.len() && (#[trigger] s[i]).x == b.min.x
    &&& exists|i: int| 0 <= i < s.len() && (#[trigger] s[i]).x == b.max.x
    &&& exists|i: int| 0 <= i < s.len() && (#[trigger] s[i]).y == b.min.y
    &&& exists|i: int| 0 <= i < s.len() && (#[trigger] s[i]).y == b.max.y
}

/// The bounding box exists exactly when there are points, contains all of them
/// and touches one with each side.
pub proof fn hull_is_tight(s: Seq<P>)
    ensures
        hull(s) is Some <==> s.len() > 0,
        hull(s) matches Some(b) ==> tight(b, s),
    decreases s.len(),
{
    if s.len() > 0 {
        let r = s.drop_last();
        hull_is_tight(r);
        let p = s.last();
        let b = hull(s)->0;
        assert(s[s.len() - 1] == p);
        if r.len() > 0 {
            let c = hull(r)->0;
            assert forall|i: int| 0 <= i < s.len() implies b.contains(#[trigger] s[i]) by {
                if i < r.len() {
                    assert(c.contains(r[i]));
                }
            }
            let i0 = choose|i: int| 0 <= i < r.len() && (#[trigger] r[i]).x == c.min.x;
            let i1 = choose|i: int| 0 <= i < r.len() && (#[trigger] r[i]).x == c.max.x;
            let i2 = choose|i: int| 0 <= i < r.len() && (#[trigger] r[i]).y == c.min.y;
            let i3 = choose|i: int| 0 <= i < r.len() && (#[trigger] r[i]).y == c.max.y;
            assert(s[i0] == r[i0] && s[i1] == r[i1] && s[i2] == r[i2] && s[i3] == r[i3]);
        }
    }
}

/// A fold over points never loses what it already covers.
pub proof fn lemma_hull_from_covers(b: Option<Bounds>, s: Seq<P>)
    ensures
        hull_from(b, s) is Some <==> b is Some || s.len() > 0,
        b matches Some(c) ==> forall|p: P| c.contains(p) ==> (#[trigger] hull_from(
            b,
            s,
        )->0.contains(p)),
        forall|i: int| 0 <= i < s.len() ==> hull_from(b, s)->0.contains(#[trigger] s[i]),
    decreases s.len(),
{
    if s.len() > 0 {
        let r = s.drop_last();
        lemma_hull_from_covers(b, r);
        let full = hull_from(b, s)->0;
        let part = hull_from(b, r);
        assert forall|i: int| 0 <= i < s.len() implies full.contains(#[trigger] s[i]) by {
            if i < r.len() {
                assert(part->0.contains(r[i]));
            }
        }
        if b is Some {
            assert forall|p: P| b->0.contains(p) implies #[trigger] full.contains(p) by {
                assert(part->0.contains(p));
            }
        }
    }
}

/// The box of path elements contains every point of every element.
pub proof fn lemma_elems_hull_covers(elems: Seq<ElemV>)
    ensures
        elems_hull(elems) matches Some(b) ==> forall|i: int|
            0 <= i < elems.len() ==> covers(b, (#[trigger] elems[i]).pts),
        elems_hull(elems) is None ==> forall|i: int|
            0 <= i < elems.len() ==> (#[trigger] elems[i]).pts.len() == 0,
    decreases elems.len(),
{
    if elems.len() > 0 {
        let r = elems.drop_last();
        lemma_elems_hull_covers(r);
        lemma_hull_from_covers(elems_hull(r), elems.last().pts);
        if elems_hull(elems) is Some {
            let b = elems_hull(elems)->0;
            assert forall|i: int| 0 <= i < elems.len() implies covers(
                b,
                (#[trigger] elems[i]).pts,
            ) by {
                if i < r.len() {
                    assert(elems[i] == r[i]);
                    if elems_hull(r) is Some {
                        assert(covers(elems_hull(r)->0, r[i].pts));
                    }
                }
            }
        } else {
            assert forall|i: int| 0 <= i < elems.len() implies (#[trigger] elems[i]).pts.len()
                == 0 by {
                if i < r.len() {
                    assert(elems[i] == r[i]);
                }
            }
        }
    }
}

/// The box lies in another one.
pub open spec fn lies_within(b: Bounds, c: Bounds) -> bool {
    c.contains(b.min) && c.contains(b.max)
}

/// What a box has to cover, the fold stays within.
proof fn lemma_hull_least(b: Option<Bounds>, s: Seq<P>, c: Bounds)
    requires
        b matches Some(d) ==> lies_within(d, c),
        covers(c, s),
    ensures
        hull_from(b, s) matches Some(h) ==> lies_within(h, c),
    decreases s.len(),
{
    if s.len() > 0 {
        let r = s.drop_last();
        assert forall|i: int| 0 <= i < r.len() implies c.contains(#[trigger] r[i]) by {
            assert(c.contains(s[i]));
        }
        lemma_hull_least(b, r, c);
        assert(c.contains(s[s.len() - 1]));
    }
}

proof fn lemma_rings_hull_grows(b: Option<Bounds>, rings: Seq<Seq<P>>)
    ensures
        rings_hull_from(b, rings) is Some <==> b is Some || exists|i: int|
            0 <= i < rings.len() && (#[trigger] rings[i]).len() > 0,
        b matches Some(c) ==> forall|p: P| c.contains(p) ==> (#[trigger] rings_hull_from(
            b,
            rings,
        )->0.contains(p)),
        forall|i: int|
            0 <= i < rings.len() && (#[trigger] rings[i]).len() > 0 ==> covers(
                rings_hull_from(b, rings)->0,
                rings[i],
            ),
    decreases rings.len(),
{
    if rings.len() > 0 {
        let r = rings.drop_last();
        lemma_rings_hull_grows(b, r);
        let part = rings_hull_from(b, r);
        lemma_hull_from_covers(part, rings.last());
        let full = rings_hull_from(b, rings);
        assert(rings[rings.len() - 1] == rings.last());
        if part is Some && b is None {
            let i = choose|i: int| 0 <= i < r.len() && (#[trigger] r[i]).len() > 0;
            assert(rings[i].len() > 0);
        }
        if full is Some && part is None {
            assert(rings[rings.len() - 1].len() > 0);
        }
        assert forall|i: int| 0 <= i < rings.len() && (#[trigger] rings[i]).len() > 0 implies covers(
            full->0,
            rings[i],
        ) && full is Some by {
            if i < r.len() {
                assert(r[i] == rings[i]);
                assert(covers(part->0, r[i]));
                assert forall|j: int| 0 <= j < rings[i].len() implies full->0.contains(
                    #[trigger] rings[i][j],
                ) by {
                    assert(part->0.contains(r[i][j]));
                }
            }
        }
        if b is Some {
            assert forall|p: P| b->0.contains(p) implies #[trigger] full->0.contains(p) by {
                assert(part->0.contains(p));
            }
        }
    }
}

proof fn lemma_rings_hull_least(b: Option<Bounds>, rings: Seq<Seq<P>>, c: Bounds)
    requires
        b matches Some(d) ==> lies_within(d, c),
        forall|i: int| 0 <= i < rings.len() ==> covers(c, #[trigger] rings[i]),
    ensures
        rings_hull_from(b, rings) matches Some(h) ==> lies_within(h, c),
    decreases rings.len(),
{
    if rings.len() > 0 {
        let r = rings.drop_last();
        assert forall|i: int| 0 <= i < r.len() implies covers(c, #[trigger] r[i]) by {
            assert(covers(c, rings[i]));
        }
        lemma_rings_hull_least(b, r, c);
        assert(covers(c, rings[rings.len() - 1]));
        lemma_hull_least(rings_hull_from(b, r), rings.last(), c);
    }
}

/// The box of rings is there exactly if there is a point, covers every ring,
/// and lies in every box that covers them.
pub proof fn rings_hull_is_the_least(rings: Seq<Seq<P>>, c: Bounds)
    ensures
        rings_hull_from(None, rings) is Some <==> exists|i: int|
            0 <= i < rings.len() && (#[trigger] rings[i]).len() > 0,
        rings_hull_from(None, rings) matches Some(h) ==> {
            &&& forall|i: int| 0 <= i < rings.len() ==> covers(h, #[trigger] rings[i])
            &&& (forall|i: int| 0 <= i < rings.len() ==> covers(c, #[trigger] rings[i]))
                ==> lies_within(h, c)
        },
{
    lemma_rings_hull_grows(None, rings);
    if forall|i: int| 0 <= i < rings.len() ==> covers(c, #[trigger] rings[i]) {
        lemma_rings_hull_least(None, rings, c);
    }
}

/// The box of path elements lies in every box that covers them.
pub proof fn elems_hull_is_the_least(elems: Seq<ElemV>, c: Bounds)
    requires
        forall|i: int| 0 <= i < elems.len() ==> covers(c, (#[trigger] elems[i]).pts),
    ensures
        elems_hull(elems) matches Some(h) ==> lies_within(h, c),
    decreases elems.len(),
{
    if elems.len() > 0 {
        let r = elems.drop_last();
        assert forall|i: int| 0 <= i < r.len() implies covers(c, (#[trigger] r[i]).pts) by {
            assert(covers(c, elems[i].pts));
        }
        elems_hull_is_the_least(r, c);
        assert(covers(c, elems[elems.len() - 1].pts));
        lemma_hull_least(elems_hull(r), elems.last().pts, c);
    }
}

/// The box covers all rings of a polygon.
pub open spec fn covers_poly(b: Bounds, p: PolyV) -> bool {
    covers(b, p.outer) && forall|k: int| 0 <= k < p.holes.len() ==> covers(b, #[trigger] p.holes[k])
}

proof fn lemma_wider_covers(b: Bounds, c: Bounds, p: PolyV)
    requires
        covers_poly(b, p),
        forall|q: P| b.contains(q) ==> #[trigger] c.contains(q),
    ensures
        covers_poly(c, p),
{
    assert forall|j: int| 0 <= j < p.outer.len() implies c.contains(#[trigger] p.outer[j]) by {
        assert(b.contains(p.outer[j]));
    }
    assert forall|k: int| 0 <= k < p.holes.len() implies covers(c, #[trigger] p.holes[k]) by {
        assert(covers(b, p.holes[k]));
        assert forall|j: int| 0 <= j < p.holes[k].len() implies c.contains(
            #[trigger] p.holes[k][j],
        ) by {
            assert(b.contains(p.holes[k][j]));
        }
    }
}

/// The box of polygons covers all their rings.
pub proof fn polys_hull_covers(polys: Seq<PolyV>)
    ensures
        polys_hull(polys) matches Some(h) ==> forall|i: int|
            0 <= i < polys.len() ==> covers_poly(h, #[trigger] polys[i]),
        polys_hull(polys) is None ==> forall|i: int|
            0 <= i < polys.len() ==> (#[trigger] polys[i]).outer.len() == 0,
    decreases polys.len(),
{
    if polys.len() > 0 {
        let r = polys.drop_last();
        let p = polys.last();
        polys_hull_covers(r);
        let part = polys_hull(r);
        let with_outer = hull_from(part, p.outer);
        let full = polys_hull(polys);
        lemma_hull_from_covers(part, p.outer);
        lemma_rings_hull_grows(with_outer, p.holes);
        if full is Some {
            assert forall|i: int| 0 <= i < polys.len() implies covers_poly(
                full->0,
                #[trigger] polys[i],
            ) by {
                if i < r.len() {
                    assert(polys[i] == r[i]);
                    if part is Some {
                        assert forall|q: P| part->0.contains(q) implies #[trigger] full->0.contains(
                            q,
                        ) by {
                            assert(with_outer->0.contains(q));
                        }
                        lemma_wider_covers(part->0, full->0, r[i]);
                    } else {
                        polys_without_box_are_empty(r, i);
                    }
                } else {
                    assert forall|j: int| 0 <= j < p.outer.len() implies full->0.contains(
                        #[trigger] p.outer[j],
                    ) by {
                        assert(with_outer->0.contains(p.outer[j]));
                    }
                }
            }
        } else {
            assert forall|i: int| 0 <= i < polys.len() implies (#[trigger] polys[i]).outer.len()
                == 0 by {
                polys_without_box_are_empty(polys, i);
            }
        }
    }
}

/// A job without a box has no points.
pub proof fn polys_without_box_are_empty(polys: Seq<PolyV>, i: int)
    requires
        polys_hull(polys) is None,
        0 <= i < polys.len(),
    ensures
        polys[i].outer.len() == 0,
        forall|k: int| 0 <= k < polys[i].holes.len() ==> (#[trigger] polys[i].holes[k]).len() == 0,
    decreases polys.len(),
{
    let r = polys.drop_last();
    let p = polys.last();
    lemma_hull_from_covers(polys_hull(r), p.outer);
    lemma_rings_hull_grows(hull_from(polys_hull(r), p.outer), p.holes);
    if i < r.len() {
        polys_without_box_are_empty(r, i);
    } else {
        assert forall|k: int| 0 <= k < p.holes.len() implies (#[trigger] p.holes[k]).len() == 0 by {
            if p.holes[k].len() > 0 {
                assert(false);
            }
        }
    }
}

/// The box of polygons lies in every box that covers all their rings.
pub proof fn polys_hull_is_the_least(polys: Seq<PolyV>, c: Bounds)
    requires
        forall|i: int| 0 <= i < polys.len() ==> covers_poly(c, #[trigger] polys[i]),
    ensures
        polys_hull(polys) matches Some(h) ==> lies_within(h, c),
    decreases polys.len(),
{
    if polys.len() > 0 {
        let r = polys.drop_last();
        let p = polys.last();
        assert forall|i: int| 0 <= i < r.len() implies covers_poly(c, #[trigger] r[i]) by {
            assert(covers_poly(c, polys[i]));
        }
        polys_hull_is_the_least(r, c);
        assert(covers_poly(c, polys[polys.len() - 1]));
        lemma_hull_least(polys_hull(r), p.outer, c);
        lemma_rings_hull_least(hull_from(polys_hull(r), p.outer), p.holes, c);
    }
}

/// Grow a box (or nothing) to take in a point.
pub fn include_point(b: Option<Bounds>, p: P) -> (r: Bounds)
    ensures
        r == around(b, p),
{
    match b {
        None => Bounds { min: p, max: p },
        Some(c) => {
            let x0: i64 = if c.min.x <= p.x {
                c.min.x
            } else {
                p.x
            };
            let y0: i64 = if c.min.y <= p.y {
                c.min.y
            } else {
                p.y
            };
            let x1: i64 = if c.max.x >= p.x {
                c.max.x
            } else {
                p.x
            };
            let y1: i64 = if c.max.y >= p.y {
                c.max.y
            } else {
                p.y
            };
            Bounds { min: P { x: x0, y: y0 }, max: P { x: x1, y: y1 } }
        },
    }
}

/// Grow a box (or nothing) to take in a list of points.
pub fn include_points(b: Option<Bounds>, pts: &Ring) -> (r: Option<Bounds>)
    ensures
        r == hull_from(b, pts@),
{
    let mut r = b;
    let mut i: usize = 0;
    while i < pts.len()
        invariant
            i <= pts.len(),
            r == hull_from(b, pts@.take(i as int)),
        decreases pts.len() - i,
    {
        assert(pts@.take(i + 1).drop_last() =~= pts@.take(i as int));
        r = Some(include_point(r, pts[i]));
        i += 1;
    }
    assert(pts@.take(i as int) =~= pts@);
    r
}

/// The bounding box of one ring or polyline.
pub fn ring_bbox(pts: &Ring) -> (r: Option<Bounds>)
    ensures
        r == hull(pts@),
{
    include_points(None, pts)
}

/// The bounding box of a job.
pub fn paths_bbox(paths: &Paths) -> (r: Option<Bounds>)
    ensures
        r == elems_hull(paths.deep_view()),
{
    let ghost ev = paths.deep_view();
    let mut r: Option<Bounds> = None;
    let mut i: usize = 0;
    while i < paths.elems.len()
        invariant
            i <= paths.elems.len(),
            ev == paths.deep_view(),
            r == elems_hull(ev.take(i as int)),
        decreases paths.elems.len() - i,
    {
        assert(ev.take(i + 1).drop_last() =~= ev.take(i as int));
        assert(ev[i as int] == paths.elems@[i as int].deep_view());
        r = include_points(r, &paths.elems[i].pts);
        i += 1;
    }
    assert(ev.take(i as int) =~= ev);
    r
}

/// Grow a box (or nothing) to take in a list of rings.
pub fn include_rings(b: Option<Bounds>, rings: &Vec<Ring>) -> (r: Option<Bounds>)
    ensures
        r == rings_hull_from(b, rings.deep_view()),
{
    let ghost rv = rings.deep_view();
    let mut r = b;
    let mut i: usize = 0;
    while i < rings.len()
        invariant
            i <= rings.len(),
            rv == rings.deep_view(),
            r == rings_hull_from(b, rv.take(i as int)),
        decreases rings.len() - i,
    {
        assert(rv.take(i + 1).drop_last() =~= rv.take(i as int));
        r = include_points(r, &rings[i]);
        i += 1;
    }
    assert(rv.take(i as int) =~= rv);
    r
}

/// Grow a box (or nothing) to take in all rings of polygons.
pub fn include_polys(b: Option<Bounds>, polys: &[Poly]) -> (r: Option<Bounds>)
    ensures
        r == polys_hull_from(b, polys.deep_view()),
{
    let ghost pv = polys.deep_view();
    let mut r = b;
    let mut i: usize = 0;
    while i < polys.len()
        invariant
            i <= polys.len(),
            pv == polys.deep_view(),
            r == polys_hull_from(b, pv.take(i as int)),
        decreases polys.len() - i,
    {
        assert(pv.take(i + 1).drop_last() =~= pv.take(i as int));
        assert(pv[i as int] == polys@[i as int].deep_view());
        r = include_points(r, &polys[i].outer);
        r = include_rings(r, &polys[i].holes);
        i += 1;
    }
    assert(pv.take(i as int) =~= pv);
    r
}

/// The bounding box of polygons, all rings included.
pub fn polys_bbox(polys: &[Poly]) -> (r: Option<Bounds>)
    ensures
        r == polys_hull(polys.deep_view()),
{
    include_polys(None, polys)
}

} // verus!
