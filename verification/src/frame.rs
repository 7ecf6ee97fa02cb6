//! Rigid moves of a job in its plane.
use vstd::prelude::*;
use crate::bounds::{
    hull_from, polys_bbox, polys_hull, polys_hull_from, rings_hull_from, Bounds,
};
use crate::geom::{cross, doubled_area, next, shoelace};
use crate::model::{lemma_ring_view, Poly, PolyV, Ring, P};
use crate::text::{fixed_text, put, put_fixed, put_unit, unit_text};

verus! {

broadcast use lemma_ring_view;

/// The moved point has coordinates.
pub open spec fn moves(p: P, dx: int, dy: int) -> bool {
    i64::MIN <= p.x + dx <= i64::MAX && i64::MIN <= p.y + dy <= i64::MAX
}

pub open spec fn moved(p: P, dx: int, dy: int) -> P {
    P { x: (p.x + dx) as i64, y: (p.y + dy) as i64 }
}

pub open spec fn ring_moves(s: Seq<P>, dx: int, dy: int) -> bool {
    forall|i: int| 0 <= i < s.len() ==> moves(#[trigger] s[i], dx, dy)
}

pub open spec fn moved_ring(s: Seq<P>, dx: int, dy: int) -> Seq<P> {
    s.map_values(|p: P| moved(p, dx, dy))
}

pub open spec fn moved_rings(rings: Seq<Seq<P>>, dx: int, dy: int) -> Seq<Seq<P>> {
    rings.map_values(|r: Seq<P>| moved_ring(r, dx, dy))
}

pub open spec fn poly_moves(p: PolyV, dx: int, dy: int) -> bool {
    &&& ring_moves(p.outer, dx, dy)
    &&& forall|i: int| 0 <= i < p.holes.len() ==> ring_moves(#[trigger] p.holes[i], dx, dy)
}

pub open spec fn moved_poly(p: PolyV, dx: int, dy: int) -> PolyV {
    PolyV { outer: moved_ring(p.outer, dx, dy), holes: moved_rings(p.holes, dx, dy) }
}

pub open spec fn polys_move(polys: Seq<PolyV>, dx: int, dy: int) -> bool {
    forall|i: int| 0 <= i < polys.len() ==> poly_moves(#[trigger] polys[i], dx, dy)
}

pub open spec fn moved_polys(polys: Seq<PolyV>, dx: int, dy: int) -> Seq<PolyV> {
    polys.map_values(|p: PolyV| moved_poly(p, dx, dy))
}

fn translate_ring(ring: &Ring, dx: i128, dy: i128) -> (r: Ring)
    requires
        ring_moves(ring@, dx as int, dy as int),
        -0x1_0000_0000_0000_0000 <= dx <= 0x1_0000_0000_0000_0000,
        -0x1_0000_0000_0000_0000 <= dy <= 0x1_0000_0000_0000_0000,
    ensures
        r@ == moved_ring(ring@, dx as int, dy as int),
{
    let mut r: Ring = Vec::new();
    let mut i: usize = 0;
    while i < ring.len()
        invariant
            i <= ring.len(),
            ring_moves(ring@, dx as int, dy as int),
            -0x1_0000_0000_0000_0000 <= dx <= 0x1_0000_0000_0000_0000,
            -0x1_0000_0000_0000_0000 <= dy <= 0x1_0000_0000_0000_0000,
            r@ =~= moved_ring(ring@, dx as int, dy as int).take(i as int),
        decreases ring.len() - i,
    {
        let p = ring[i];
        assert(moves(ring@[i as int], dx as int, dy as int));
        r.push(P { x: (p.x as i128 + dx) as i64, y: (p.y as i128 + dy) as i64 });
        i += 1;
    }
    assert(r@ =~= moved_ring(ring@, dx as int, dy as int));
    r
}

/// Rigidly move every ring of `polys` by `(dx, dy)`.
pub fn translate_polys(polys: &[Poly], dx: i128, dy: i128) -> (r: Vec<Poly>)
    requires
        polys_move(polys.deep_view(), dx as int, dy as int),
        -0x1_0000_0000_0000_0000 <= dx <= 0x1_0000_0000_0000_0000,
        -0x1_0000_0000_0000_0000 <= dy <= 0x1_0000_0000_0000_0000,
    ensures
        r.deep_view() == moved_polys(polys.deep_view(), dx as int, dy as int),
{
    let mut r: Vec<Poly> = Vec::new();
    let ghost pv = polys.deep_view();
    let ghost gx = dx as int;
    let ghost gy = dy as int;
    let mut i: usize = 0;
    while i < polys.len()
        invariant
            i <= polys.len(),
            pv == polys.deep_view(),
            polys_move(pv, dx as int, dy as int),
            -0x1_0000_0000_0000_0000 <= dx <= 0x1_0000_0000_0000_0000,
            -0x1_0000_0000_0000_0000 <= dy <= 0x1_0000_0000_0000_0000,
            r@.len() == i,
            forall|k: int|
                0 <= k < i ==> (#[trigger] r@[k]).deep_view() == moved_poly(
                    pv[k],
                    dx as int,
                    dy as int,
                ),
        decreases polys.len() - i,
    {
        let p = &polys[i];
        assert(pv[i as int] == p.deep_view());
        assert(poly_moves(pv[i as int], dx as int, dy as int));
        let outer = translate_ring(&p.outer, dx, dy);
        let mut holes: Vec<Ring> = Vec::new();
        let ghost hv = p.deep_view().holes;
        let mut k: usize = 0;
        while k < p.holes.len()
            invariant
                k <= p.holes.len(),
                hv == p.holes.deep_view(),
                forall|j: int|
                    0 <= j < hv.len() ==> ring_moves(#[trigger] hv[j], dx as int, dy as int),
                -0x1_0000_0000_0000_0000 <= dx <= 0x1_0000_0000_0000_0000,
                -0x1_0000_0000_0000_0000 <= dy <= 0x1_0000_0000_0000_0000,
                holes@.len() == k,
                forall|j: int|
                    0 <= j < k ==> (#[trigger] holes@[j])@ == moved_ring(
                        hv[j],
                        dx as int,
                        dy as int,
                    ),
            decreases p.holes.len() - k,
        {
            assert(ring_moves(hv[k as int], dx as int, dy as int));
            let h = translate_ring(&p.holes[k], dx, dy);
            holes.push(h);
            k += 1;
        }
        let q = Poly { outer, holes };
        assert(q.deep_view().holes =~= moved_poly(pv[i as int], dx as int, dy as int).holes);
        r.push(q);
        i += 1;
    }
    assert(r.deep_view() =~= moved_polys(pv, dx as int, dy as int));
    r
}

/// Every point of the job is within a coordinate's reach of the lowest corner.
pub open spec fn frame_fits(polys: Seq<PolyV>) -> bool {
    match polys_hull(polys) {
        None => true,
        Some(b) => polys_move(polys, -(b.min.x as int), -(b.min.y as int)),
    }
}

/// The job moved so that the lowest corner of its bounding box is the origin;
/// nothing if it has no points.
pub open spec fn at_origin(polys: Seq<PolyV>) -> Seq<PolyV> {
    match polys_hull(polys) {
        None => Seq::empty(),
        Some(b) => moved_polys(polys, -(b.min.x as int), -(b.min.y as int)),
    }
}

/// Move a job into the workspace: the lowest corner of its bounding box comes
/// to the origin. The plotted frame is already y-up, so there is no reflection;
/// a flip here would introduce a mirror.
pub fn normalize_frame(polys: &[Poly]) -> (r: Vec<Poly>)
    requires
        frame_fits(polys.deep_view()),
    ensures
        r.deep_view() == at_origin(polys.deep_view()),
{
    match polys_bbox(polys) {
        None => {
            let r: Vec<Poly> = Vec::new();
            assert(r.deep_view() =~= Seq::<PolyV>::empty());
            r
        },
        Some(b) => translate_polys(polys, -(b.min.x as i128), -(b.min.y as i128)),
    }
}

// ---------------------------------------------------------------------------
// Laws
// ---------------------------------------------------------------------------

proof fn lemma_moved_shoelace(s: Seq<P>, dx: int, dy: int, k: nat)
    requires
        ring_moves(s, dx, dy),
        k < s.len(),
    ensures
        shoelace(moved_ring(s, dx, dy), k) == shoelace(s, k) + dx * (s[k as int].y - s[0].y) - dy
            * (s[k as int].x - s[0].x),
    decreases k,
{
    if k == 0 {
        assert(dx * (s[0].y - s[0].y) == 0 && dy * (s[0].x - s[0].x) == 0) by (nonlinear_arith);
    } else {
        lemma_moved_shoelace(s, dx, dy, (k - 1) as nat);
        let a = s[k - 1];
        let b = s[k as int];
        assert(next(s, k - 1) == b);
        assert(next(moved_ring(s, dx, dy), k - 1) == moved(b, dx, dy));
        lemma_moved_cross(a, b, dx, dy);
        assert(dx * (b.y - s[0].y) == dx * (a.y - s[0].y) + dx * (b.y - a.y)) by (nonlinear_arith);
        assert(dy * (b.x - s[0].x) == dy * (a.x - s[0].x) + dy * (b.x - a.x)) by (nonlinear_arith);
    }
}

proof fn lemma_moved_cross(a: P, b: P, dx: int, dy: int)
    requires
        moves(a, dx, dy),
        moves(b, dx, dy),
    ensures
        cross(moved(a, dx, dy), moved(b, dx, dy)) == cross(a, b) + dx * (b.y - a.y) - dy * (b.x
            - a.x),
{
    assert((a.x + dx) * (b.y + dy) - (b.x + dx) * (a.y + dy) == (a.x * b.y - b.x * a.y) + dx * (b.y
        - a.y) - dy * (b.x - a.x)) by (nonlinear_arith);
}

/// A move keeps the area and the winding of every ring.
pub proof fn moving_keeps_area(s: Seq<P>, dx: int, dy: int)
    requires
        ring_moves(s, dx, dy),
    ensures
        doubled_area(moved_ring(s, dx, dy)) == doubled_area(s),
{
    if s.len() >= 3 {
        let n = s.len();
        lemma_moved_shoelace(s, dx, dy, (n - 1) as nat);
        assert(next(s, n - 1) == s[0]);
        assert(next(moved_ring(s, dx, dy), n - 1) == moved(s[0], dx, dy));
        assert(moves(s[n - 1], dx, dy) && moves(s[0], dx, dy));
        lemma_moved_cross(s[n - 1], s[0], dx, dy);
        assert(dx * (s[n - 1].y - s[0].y) + dx * (s[0].y - s[n - 1].y) == 0) by (nonlinear_arith);
        assert(dy * (s[n - 1].x - s[0].x) + dy * (s[0].x - s[n - 1].x) == 0) by (nonlinear_arith);
    }
}

/// A box, or nothing, moved.
spec fn moved_box(b: Option<Bounds>, dx: int, dy: int) -> Option<Bounds> {
    match b {
        None => None,
        Some(c) => Some(Bounds { min: moved(c.min, dx, dy), max: moved(c.max, dx, dy) }),
    }
}

spec fn box_moves(b: Option<Bounds>, dx: int, dy: int) -> bool {
    match b {
        None => true,
        Some(c) => moves(c.min, dx, dy) && moves(c.max, dx, dy),
    }
}

proof fn lemma_moved_hull(b: Option<Bounds>, s: Seq<P>, dx: int, dy: int)
    requires
        box_moves(b, dx, dy),
        ring_moves(s, dx, dy),
    ensures
        hull_from(moved_box(b, dx, dy), moved_ring(s, dx, dy)) == moved_box(
            hull_from(b, s),
            dx,
            dy,
        ),
        box_moves(hull_from(b, s), dx, dy),
    decreases s.len(),
{
    if s.len() > 0 {
        let r = s.drop_last();
        assert(ring_moves(r, dx, dy)) by {
            assert forall|i: int| 0 <= i < r.len() implies moves(#[trigger] r[i], dx, dy) by {
                assert(r[i] == s[i]);
            }
        }
        lemma_moved_hull(b, r, dx, dy);
        assert(moved_ring(s, dx, dy).drop_last() =~= moved_ring(r, dx, dy));
        assert(moves(s[s.len() - 1], dx, dy));
    }
}

proof fn lemma_moved_rings_hull(b: Option<Bounds>, rings: Seq<Seq<P>>, dx: int, dy: int)
    requires
        box_moves(b, dx, dy),
        forall|i: int| 0 <= i < rings.len() ==> ring_moves(#[trigger] rings[i], dx, dy),
    ensures
        rings_hull_from(moved_box(b, dx, dy), moved_rings(rings, dx, dy)) == moved_box(
            rings_hull_from(b, rings),
            dx,
            dy,
        ),
        box_moves(rings_hull_from(b, rings), dx, dy),
    decreases rings.len(),
{
    if rings.len() > 0 {
        let r = rings.drop_last();
        assert forall|i: int| 0 <= i < r.len() implies ring_moves(#[trigger] r[i], dx, dy) by {
            assert(r[i] == rings[i]);
        }
        lemma_moved_rings_hull(b, r, dx, dy);
        assert(moved_rings(rings, dx, dy).drop_last() =~= moved_rings(r, dx, dy));
        assert(ring_moves(rings[rings.len() - 1], dx, dy));
        lemma_moved_hull(rings_hull_from(b, r), rings.last(), dx, dy);
    }
}

proof fn lemma_moved_polys_hull(b: Option<Bounds>, polys: Seq<PolyV>, dx: int, dy: int)
    requires
        box_moves(b, dx, dy),
        polys_move(polys, dx, dy),
    ensures
        polys_hull_from(moved_box(b, dx, dy), moved_polys(polys, dx, dy)) == moved_box(
            polys_hull_from(b, polys),
            dx,
            dy,
        ),
        box_moves(polys_hull_from(b, polys), dx, dy),
    decreases polys.len(),
{
    if polys.len() > 0 {
        let r = polys.drop_last();
        assert(polys_move(r, dx, dy)) by {
            assert forall|i: int| 0 <= i < r.len() implies poly_moves(#[trigger] r[i], dx, dy) by {
                assert(r[i] == polys[i]);
            }
        }
        lemma_moved_polys_hull(b, r, dx, dy);
        assert(moved_polys(polys, dx, dy).drop_last() =~= moved_polys(r, dx, dy));
        let p = polys.last();
        assert(poly_moves(polys[polys.len() - 1], dx, dy));
        let h = polys_hull_from(b, r);
        lemma_moved_hull(h, p.outer, dx, dy);
        lemma_moved_rings_hull(hull_from(h, p.outer), p.holes, dx, dy);
    }
}

/// A normalized job touches both axes from the positive side: the lowest
/// corner of its bounding box is the origin.
pub proof fn normalized_frame_starts_at_the_origin(polys: Seq<PolyV>)
    requires
        polys_hull(polys) is Some,
        frame_fits(polys),
    ensures
        polys_hull(at_origin(polys)) is Some,
        polys_hull(at_origin(polys))->0.min == (P { x: 0, y: 0 }),
{
    let b = polys_hull(polys)->0;
    lemma_moved_polys_hull(None, polys, -(b.min.x as int), -(b.min.y as int));
}

/// Two moves in a row are one.
proof fn lemma_moved_twice(polys: Seq<PolyV>, dx: int, dy: int, ex: int, ey: int)
    requires
        polys_move(polys, dx, dy),
    ensures
        moved_polys(moved_polys(polys, dx, dy), ex, ey) == moved_polys(polys, dx + ex, dy + ey),
        polys_move(moved_polys(polys, dx, dy), ex, ey) <==> polys_move(polys, dx + ex, dy + ey),
{
    let once = moved_polys(polys, dx, dy);
    assert forall|i: int| 0 <= i < polys.len() implies #[trigger] moved_poly(once[i], ex, ey)
        == moved_poly(polys[i], dx + ex, dy + ey) && (poly_moves(once[i], ex, ey) <==> poly_moves(
        polys[i],
        dx + ex,
        dy + ey,
    )) by {
        let p = polys[i];
        let q = once[i];
        assert(poly_moves(p, dx, dy));
        lemma_moved_ring_twice(p.outer, dx, dy, ex, ey);
        assert forall|k: int| 0 <= k < p.holes.len() implies #[trigger] moved_ring(
            q.holes[k],
            ex,
            ey,
        ) == moved_ring(p.holes[k], dx + ex, dy + ey) && (ring_moves(q.holes[k], ex, ey)
            <==> ring_moves(p.holes[k], dx + ex, dy + ey)) by {
            assert(ring_moves(p.holes[k], dx, dy));
            lemma_moved_ring_twice(p.holes[k], dx, dy, ex, ey);
        }
        assert(moved_rings(q.holes, ex, ey) =~= moved_rings(p.holes, dx + ex, dy + ey)) by {
            assert forall|k: int| 0 <= k < p.holes.len() implies moved_rings(q.holes, ex, ey)[k]
                == moved_rings(p.holes, dx + ex, dy + ey)[k] by {
                assert(moved_ring(q.holes[k], ex, ey) == moved_ring(p.holes[k], dx + ex, dy + ey));
            }
        }
        if poly_moves(q, ex, ey) {
            assert forall|k: int| 0 <= k < p.holes.len() implies ring_moves(
                #[trigger] p.holes[k],
                dx + ex,
                dy + ey,
            ) by {
                assert(ring_moves(q.holes[k], ex, ey));
                assert(moved_ring(q.holes[k], ex, ey) == moved_ring(p.holes[k], dx + ex, dy + ey));
            }
        }
        if poly_moves(p, dx + ex, dy + ey) {
            assert forall|k: int| 0 <= k < q.holes.len() implies ring_moves(
                #[trigger] q.holes[k],
                ex,
                ey,
            ) by {
                assert(ring_moves(p.holes[k], dx + ex, dy + ey));
                assert(moved_ring(q.holes[k], ex, ey) == moved_ring(p.holes[k], dx + ex, dy + ey));
            }
        }
    }
    assert(moved_polys(once, ex, ey) =~= moved_polys(polys, dx + ex, dy + ey)) by {
        assert forall|i: int| 0 <= i < polys.len() implies moved_polys(once, ex, ey)[i]
            == moved_polys(polys, dx + ex, dy + ey)[i] by {
            assert(moved_poly(once[i], ex, ey) == moved_poly(polys[i], dx + ex, dy + ey));
        }
    }
    if polys_move(once, ex, ey) {
        assert forall|i: int| 0 <= i < polys.len() implies poly_moves(
            #[trigger] polys[i],
            dx + ex,
            dy + ey,
        ) by {
            assert(poly_moves(once[i], ex, ey));
            assert(moved_poly(once[i], ex, ey) == moved_poly(polys[i], dx + ex, dy + ey));
        }
    }
    if polys_move(polys, dx + ex, dy + ey) {
        assert forall|i: int| 0 <= i < once.len() implies poly_moves(#[trigger] once[i], ex, ey) by {
            assert(poly_moves(polys[i], dx + ex, dy + ey));
            assert(moved_poly(once[i], ex, ey) == moved_poly(polys[i], dx + ex, dy + ey));
        }
    }
}

proof fn lemma_moved_ring_twice(s: Seq<P>, dx: int, dy: int, ex: int, ey: int)
    requires
        ring_moves(s, dx, dy),
    ensures
        moved_ring(moved_ring(s, dx, dy), ex, ey) == moved_ring(s, dx + ex, dy + ey),
        ring_moves(moved_ring(s, dx, dy), ex, ey) <==> ring_moves(s, dx + ex, dy + ey),
{
    let once = moved_ring(s, dx, dy);
    assert forall|i: int| 0 <= i < s.len() implies #[trigger] moved(once[i], ex, ey) == moved(
        s[i],
        dx + ex,
        dy + ey,
    ) && (moves(once[i], ex, ey) <==> moves(s[i], dx + ex, dy + ey)) by {
        assert(moves(s[i], dx, dy));
    }
    assert(moved_ring(once, ex, ey) =~= moved_ring(s, dx + ex, dy + ey)) by {
        assert forall|i: int| 0 <= i < s.len() implies moved_ring(once, ex, ey)[i] == moved_ring(
            s,
            dx + ex,
            dy + ey,
        )[i] by {
            assert(moved(once[i], ex, ey) == moved(s[i], dx + ex, dy + ey));
        }
    }
    if ring_moves(once, ex, ey) {
        assert forall|i: int| 0 <= i < s.len() implies moves(
            #[trigger] s[i],
            dx + ex,
            dy + ey,
        ) by {
            assert(moves(once[i], ex, ey));
            assert(moved(once[i], ex, ey) == moved(s[i], dx + ex, dy + ey));
        }
    }
    if ring_moves(s, dx + ex, dy + ey) {
        assert forall|i: int| 0 <= i < once.len() implies moves(#[trigger] once[i], ex, ey) by {
            assert(moves(s[i], dx + ex, dy + ey));
            assert(moved(once[i], ex, ey) == moved(s[i], dx + ex, dy + ey));
        }
    }
}

/// Where a job lies does not matter to its normalized frame: a moved job is
/// normalized to the same, and can be exactly if the job can.
pub proof fn normalized_frame_ignores_moves(polys: Seq<PolyV>, dx: int, dy: int)
    requires
        polys_move(polys, dx, dy),
    ensures
        frame_fits(moved_polys(polys, dx, dy)) <==> frame_fits(polys),
        at_origin(moved_polys(polys, dx, dy)) == at_origin(polys),
{
    lemma_moved_polys_hull(None, polys, dx, dy);
    if let Some(b) = polys_hull(polys) {
        let c = polys_hull(moved_polys(polys, dx, dy))->0;
        lemma_moved_twice(polys, dx, dy, -(c.min.x as int), -(c.min.y as int));
    }
}

/// Normalizing a normalized job changes nothing.
pub proof fn normalizing_again_changes_nothing(polys: Seq<PolyV>)
    requires
        frame_fits(polys),
    ensures
        frame_fits(at_origin(polys)),
        at_origin(at_origin(polys)) == at_origin(polys),
{
    if let Some(b) = polys_hull(polys) {
        normalized_frame_ignores_moves(polys, -(b.min.x as int), -(b.min.y as int));
    }
}

// ---------------------------------------------------------------------------
// Placement
// ---------------------------------------------------------------------------

/// The point of a box that is placed: its lowest corner or its center.
pub open spec fn anchor_of(b: Bounds, center: bool) -> (int, int) {
    if center {
        (b.min.x + (b.max.x - b.min.x) / 2, b.min.y + (b.max.y - b.min.y) / 2)
    } else {
        (b.min.x as int, b.min.y as int)
    }
}

/// The box is not turned inside out.
pub open spec fn upright(b: Bounds) -> bool {
    b.min.x <= b.max.x && b.min.y <= b.max.y
}

/// A job moved so that the anchor of a box comes to a target.
pub open spec fn placed(polys: Seq<PolyV>, b: Bounds, target: P, center: bool) -> Seq<PolyV> {
    let a = anchor_of(b, center);
    moved_polys(polys, target.x - a.0, target.y - a.1)
}

/// Every point of the placed job has coordinates.
pub open spec fn places(polys: Seq<PolyV>, b: Bounds, target: P, center: bool) -> bool {
    let a = anchor_of(b, center);
    polys_move(polys, target.x - a.0, target.y - a.1)
}

/// Move a job so that the anchor of a box, the board's or its own, comes to a
/// target.
pub fn place_on(polys: &[Poly], b: Bounds, target: P, center: bool) -> (r: Vec<Poly>)
    requires
        upright(b),
        places(polys.deep_view(), b, target, center),
    ensures
        r.deep_view() == placed(polys.deep_view(), b, target, center),
{
    let ax: i128 = if center {
        b.min.x as i128 + (b.max.x as i128 - b.min.x as i128) / 2
    } else {
        b.min.x as i128
    };
    let ay: i128 = if center {
        b.min.y as i128 + (b.max.y as i128 - b.min.y as i128) / 2
    } else {
        b.min.y as i128
    };
    translate_polys(polys, target.x as i128 - ax, target.y as i128 - ay)
}

/// Move a job so that its own corner, or its center, comes to a target; nothing
/// if it has no points.
pub fn place_frame(polys: &[Poly], target: P, center: bool) -> (r: Vec<Poly>)
    requires
        polys_hull(polys.deep_view()) matches Some(b) ==> places(
            polys.deep_view(),
            b,
            target,
            center,
        ),
    ensures
        r.deep_view() == match polys_hull(polys.deep_view()) {
            None => Seq::empty(),
            Some(b) => placed(polys.deep_view(), b, target, center),
        },
{
    match polys_bbox(polys) {
        None => {
            let r: Vec<Poly> = Vec::new();
            assert(r.deep_view() =~= Seq::<PolyV>::empty());
            r
        },
        Some(b) => {
            proof {
                lemma_polys_hull_upright(None, polys.deep_view());
            }
            place_on(polys, b, target, center)
        },
    }
}

spec fn box_upright(b: Option<Bounds>) -> bool {
    b matches Some(c) ==> upright(c)
}

proof fn lemma_hull_upright(b: Option<Bounds>, s: Seq<P>)
    requires
        box_upright(b),
    ensures
        box_upright(hull_from(b, s)),
    decreases s.len(),
{
    if s.len() > 0 {
        lemma_hull_upright(b, s.drop_last());
    }
}

proof fn lemma_rings_hull_upright(b: Option<Bounds>, rings: Seq<Seq<P>>)
    requires
        box_upright(b),
    ensures
        box_upright(rings_hull_from(b, rings)),
    decreases rings.len(),
{
    if rings.len() > 0 {
        lemma_rings_hull_upright(b, rings.drop_last());
        lemma_hull_upright(rings_hull_from(b, rings.drop_last()), rings.last());
    }
}

proof fn lemma_polys_hull_upright(b: Option<Bounds>, polys: Seq<PolyV>)
    requires
        box_upright(b),
    ensures
        box_upright(polys_hull_from(b, polys)),
    decreases polys.len(),
{
    if polys.len() > 0 {
        lemma_polys_hull_upright(b, polys.drop_last());
        let h = polys_hull_from(b, polys.drop_last());
        lemma_hull_upright(h, polys.last().outer);
        lemma_rings_hull_upright(hull_from(h, polys.last().outer), polys.last().holes);
    }
}

/// A placed job lands on its target: the anchor of its bounding box is there.
pub proof fn placed_job_lands_on_target(polys: Seq<PolyV>, target: P, center: bool)
    requires
        polys_hull(polys) is Some,
        places(polys, polys_hull(polys)->0, target, center),
    ensures
        ({
            let r = placed(polys, polys_hull(polys)->0, target, center);
            &&& polys_hull(r) is Some
            &&& anchor_of(polys_hull(r)->0, center) == (target.x as int, target.y as int)
        }),
{
    let b = polys_hull(polys)->0;
    let a = anchor_of(b, center);
    lemma_moved_polys_hull(None, polys, target.x - a.0, target.y - a.1);
}

/// How many rings a region has.
pub open spec fn ring_total(polys: Seq<PolyV>) -> nat
    decreases polys.len(),
{
    if polys.len() == 0 {
        0
    } else {
        ring_total(polys.drop_last()) + 1 + polys.last().holes.len()
    }
}

/// How many rings a region has.
pub fn ring_count(polys: &[Poly]) -> (n: u128)
    ensures
        n == ring_total(polys.deep_view()),
{
    let ghost pv = polys.deep_view();
    let mut n: u128 = 0;
    let len: usize = polys.len();
    let mut i: usize = 0;
    while i < len
        invariant
            i <= len == polys@.len(),
            pv == polys.deep_view(),
            n == ring_total(pv.take(i as int)),
            n <= 0x1_0000_0000_0000_0000 * i,
        decreases len - i,
    {
        assert(pv.take(i + 1).drop_last() =~= pv.take(i as int));
        assert(pv[i as int] == polys@[i as int].deep_view());
        let holes: usize = polys[i].holes.len();
        n = n + 1 + holes as u128;
        i += 1;
    }
    assert(pv.take(i as int) =~= pv);
    n
}

/// Where a job lies, in millimeters: its bounds and its center.
pub open spec fn bounds_text(b: Bounds) -> Seq<char> {
    "commanded bounds ("@ + fixed_text(b.min.x as int, 6, 2) + ", "@ + fixed_text(
        b.min.y as int,
        6,
        2,
    ) + ")..("@ + fixed_text(b.max.x as int, 6, 2) + ", "@ + fixed_text(b.max.y as int, 6, 2)
        + ") mm, center ("@ + unit_text(b.min.x + b.max.x, 20_000, 2) + ", "@ + unit_text(
        b.min.y + b.max.y,
        20_000,
        2,
    ) + ") mm"@
}

/// Where a job lies, for the operator.
pub fn describe_bounds(b: Bounds) -> (s: String)
    ensures
        s@ == bounds_text(b),
{
    let mut s = String::new();
    put(&mut s, "commanded bounds (");
    put_fixed(&mut s, b.min.x as i128, 6, 2);
    put(&mut s, ", ");
    put_fixed(&mut s, b.min.y as i128, 6, 2);
    put(&mut s, ")..(");
    put_fixed(&mut s, b.max.x as i128, 6, 2);
    put(&mut s, ", ");
    put_fixed(&mut s, b.max.y as i128, 6, 2);
    put(&mut s, ") mm, center (");
    put_unit(&mut s, b.min.x as i128 + b.max.x as i128, 20_000, 2);
    put(&mut s, ", ");
    put_unit(&mut s, b.min.y as i128 + b.max.y as i128, 20_000, 2);
    put(&mut s, ") mm");
    assert(s@ =~= bounds_text(b));
    s
}

} // verus!
