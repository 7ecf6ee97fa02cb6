//! Isolation contours, rub-out hatching, and the point-in-region test.
//!
//! Offsets and rotations are floating-point work and come in as their rounded
//! results. Everything on the nanometer grid is exact: the scanlines of a
//! hatch, the parity that pairs their crossings, and the assembly of the job.
use vstd::prelude::*;
use crate::bounds::{covers, include_rings, rings_hull_from, rings_hull_is_the_least, Bounds};
use crate::counting::{lemma_occ_contains, lemma_occ_multiset, lemma_occ_remove, occ};
use crate::geom::{
    boolean_of, in_range, next, normal_of, normalized, poly_in_range, polys_in_range, ring_in_range,
    rings_in_range, xor, BoolOp, COORD_LIMIT,
};
use crate::model::{clone_ring, lemma_ring_view, ElemV, Nm, PathElem, PathKind, Paths, Poly, PolyV, Ring, P};
use crate::num::{
    div_round_nearest, lemma_nearest_bounds, nearest, nearest_is_close, nearest_signed,
};
use crate::offset::rings_of;
use crate::sorting::{
    ascending, is_ascending, lemma_ascending, lemma_ascending_contains, sort_ascending,
};
use crate::wide::product_le;

verus! {

broadcast use lemma_ring_view;

/// Hatch segments shorter than this are dropped: they are far below any spot
/// size.
pub const MIN_HATCH_SEG_NM: Nm = 1_000;

// ---------------------------------------------------------------------------
// Point in region
// ---------------------------------------------------------------------------

/// The point lies within `tol` of the segment from `a` to `b`.
#[verifier::opaque]
pub open spec fn near_segment(pt: P, a: P, b: P, tol: int) -> bool {
    let abx = b.x - a.x;
    let aby = b.y - a.y;
    let apx = pt.x - a.x;
    let apy = pt.y - a.y;
    let bpx = pt.x - b.x;
    let bpy = pt.y - b.y;
    let dot = apx * abx + apy * aby;
    let len2 = abx * abx + aby * aby;
    let cross = abx * apy - aby * apx;
    if dot <= 0 {
        apx * apx + apy * apy <= tol * tol
    } else if dot >= len2 {
        bpx * bpx + bpy * bpy <= tol * tol
    } else {
        cross * cross <= (tol * tol) * len2
    }
}

/// A ray from the point to the right crosses the segment. Each segment counts
/// at its lower end and not at its upper one; horizontal ones never cross.
#[verifier::opaque]
pub open spec fn ray_crosses(pt: P, a: P, b: P) -> bool {
    let den = b.y - a.y;
    let diff = (pt.y - a.y) * (b.x - a.x) + (a.x - pt.x) * den;
    (a.y > pt.y) != (b.y > pt.y) && diff != 0 && (diff > 0) == (den > 0)
}

pub open spec fn near_ring(pt: P, ring: Seq<P>, tol: int) -> bool {
    exists|i: int| 0 <= i < ring.len() && near_segment(pt, #[trigger] ring[i], next(ring, i), tol)
}

pub open spec fn near_rings(pt: P, rings: Seq<Seq<P>>, tol: int) -> bool {
    exists|k: int| 0 <= k < rings.len() && near_ring(pt, #[trigger] rings[k], tol)
}

/// How many of the first `n` edges of a ring the ray crosses.
pub open spec fn ring_crossings(pt: P, ring: Seq<P>, n: nat) -> nat
    decreases n,
{
    if n == 0 {
        0
    } else {
        ring_crossings(pt, ring, (n - 1) as nat) + if ray_crosses(
            pt,
            ring[n - 1],
            next(ring, n - 1),
        ) {
            1nat
        } else {
            0nat
        }
    }
}

/// How many edges of a list of rings the ray crosses.
pub open spec fn crossings(pt: P, rings: Seq<Seq<P>>) -> nat
    decreases rings.len(),
{
    if rings.len() == 0 {
        0
    } else {
        crossings(pt, rings.drop_last()) + ring_crossings(pt, rings.last(), rings.last().len())
    }
}

/// The point belongs to the region: it lies inside by even-odd parity, or
/// within `tol` of a boundary.
#[verifier::opaque]
pub open spec fn in_region(pt: P, rings: Seq<Seq<P>>, tol: int) -> bool {
    near_rings(pt, rings, tol) || crossings(pt, rings) % 2 == 1
}

proof fn lemma_product_bound(a: int, b: int, m: int)
    requires
        -m <= a <= m,
        -m <= b <= m,
    ensures
        -(m * m) <= a * b <= m * m,
{
    assert(-(m * m) <= a * b <= m * m) by (nonlinear_arith)
        requires
            -m <= a <= m,
            -m <= b <= m,
    ;
}

/// Whether the point lies within `tol` of the segment from `a` to `b`.
pub fn is_near_segment(pt: P, a: P, b: P, tol: Nm) -> (r: bool)
    requires
        in_range(pt),
        in_range(a),
        in_range(b),
    ensures
        r == near_segment(pt, a, b, tol as int),
{
    reveal(near_segment);
    let abx: i128 = b.x as i128 - a.x as i128;
    let aby: i128 = b.y as i128 - a.y as i128;
    let apx: i128 = pt.x as i128 - a.x as i128;
    let apy: i128 = pt.y as i128 - a.y as i128;
    let bpx: i128 = pt.x as i128 - b.x as i128;
    let bpy: i128 = pt.y as i128 - b.y as i128;
    let t: i128 = tol as i128;
    proof {
        let m: int = 0x7fff_ffff_ffff_ffff;
        lemma_product_bound(apx as int, abx as int, m);
        lemma_product_bound(apy as int, aby as int, m);
        lemma_product_bound(abx as int, abx as int, m);
        lemma_product_bound(aby as int, aby as int, m);
        lemma_product_bound(apx as int, apx as int, m);
        lemma_product_bound(apy as int, apy as int, m);
        lemma_product_bound(bpx as int, bpx as int, m);
        lemma_product_bound(bpy as int, bpy as int, m);
        lemma_product_bound(abx as int, apy as int, m);
        lemma_product_bound(aby as int, apx as int, m);
        lemma_product_bound(t as int, t as int, 0x8000_0000_0000_0000);
        assert(t * t >= 0) by (nonlinear_arith);
    }
    let dot: i128 = apx * abx + apy * aby;
    let len2: i128 = abx * abx + aby * aby;
    let tol2: i128 = t * t;
    if dot <= 0 {
        apx * apx + apy * apy <= tol2
    } else if dot >= len2 {
        bpx * bpx + bpy * bpy <= tol2
    } else {
        let cross: i128 = abx * apy - aby * apx;
        let c: u128 = if cross < 0 {
            (-cross) as u128
        } else {
            cross as u128
        };
        assert((-cross) * (-cross) == cross * cross) by (nonlinear_arith);
        product_le(c, c, tol2 as u128, len2 as u128)
    }
}

fn does_ray_cross(pt: P, a: P, b: P) -> (r: bool)
    requires
        in_range(pt),
        in_range(a),
        in_range(b),
    ensures
        r == ray_crosses(pt, a, b),
{
    reveal(ray_crosses);
    if (a.y > pt.y) == (b.y > pt.y) {
        return false;
    }
    let den: i128 = b.y as i128 - a.y as i128;
    let dx: i128 = b.x as i128 - a.x as i128;
    let up: i128 = pt.y as i128 - a.y as i128;
    let off: i128 = a.x as i128 - pt.x as i128;
    proof {
        let m: int = 0x7fff_ffff_ffff_ffff;
        lemma_product_bound(up as int, dx as int, m);
        lemma_product_bound(off as int, den as int, m);
    }
    let diff: i128 = up * dx + off * den;
    diff != 0 && (diff > 0) == (den > 0)
}

/// Probe one ring: whether the point is near it, and whether the ray crosses it
/// an odd number of times.
fn probe_ring(pt: P, ring: &Ring, tol: Nm) -> (r: (bool, bool))
    requires
        in_range(pt),
        ring_in_range(ring@),
    ensures
        r.0 == near_ring(pt, ring@, tol as int),
        r.1 == (ring_crossings(pt, ring@, ring@.len()) % 2 == 1),
{
    let mut near = false;
    let mut odd = false;
    let n: usize = ring.len();
    let mut i: usize = 0;
    while i < n
        invariant
            n == ring.len(),
            i <= n,
            in_range(pt),
            ring_in_range(ring@),
            near == (exists|k: int|
                0 <= k < i && near_segment(pt, #[trigger] ring@[k], next(ring@, k), tol as int)),
            odd == (ring_crossings(pt, ring@, i as nat) % 2 == 1),
        decreases n - i,
    {
        let a = ring[i];
        let b = if i + 1 == n {
            ring[0]
        } else {
            ring[i + 1]
        };
        assert(a == ring@[i as int] && b == next(ring@, i as int));
        assert(in_range(ring@[i as int]) && in_range(next(ring@, i as int)));
        let ghost was = near;
        if is_near_segment(pt, a, b, tol) {
            near = true;
        }
        if does_ray_cross(pt, a, b) {
            odd = !odd;
        }
        proof {
            if was {
                let k = choose|k: int|
                    0 <= k < i && near_segment(
                        pt,
                        #[trigger] ring@[k],
                        next(ring@, k),
                        tol as int,
                    );
                assert(near_segment(pt, ring@[k], next(ring@, k), tol as int));
            }
        }
        i += 1;
    }
    (near, odd)
}

/// What probing a list of rings finds: whether the point is near one, and
/// whether the ray crosses them an odd number of times.
#[verifier::opaque]
spec fn probed(pt: P, rings: Seq<Seq<P>>, tol: int) -> (bool, bool) {
    (near_rings(pt, rings, tol), crossings(pt, rings) % 2 == 1)
}

/// Probe more rings on top of those that `seen` stands for.
fn probe_rings(
    pt: P,
    rings: &Vec<Ring>,
    tol: Nm,
    seen: (bool, bool),
    Ghost(head): Ghost<Seq<Seq<P>>>,
) -> (r: (bool, bool))
    requires
        in_range(pt),
        rings_in_range(rings.deep_view()),
        seen == probed(pt, head, tol as int),
    ensures
        r == probed(pt, head + rings.deep_view(), tol as int),
{
    let ghost rv = rings.deep_view();
    let mut seen = seen;
    let mut k: usize = 0;
    assert(head + rv.take(0) =~= head);
    while k < rings.len()
        invariant
            k <= rings.len(),
            in_range(pt),
            rv == rings.deep_view(),
            rings_in_range(rv),
            seen == probed(pt, head + rv.take(k as int), tol as int),
        decreases rings.len() - k,
    {
        assert(ring_in_range(rv[k as int]));
        seen = probe_one(pt, &rings[k], tol, seen, Ghost(head + rv.take(k as int)));
        assert((head + rv.take(k as int)).push(rv[k as int]) =~= head + rv.take(k + 1));
        k += 1;
    }
    assert(rv.take(k as int) =~= rv);
    seen
}

/// Probe one more ring.
fn probe_one(
    pt: P,
    ring: &Ring,
    tol: Nm,
    seen: (bool, bool),
    Ghost(head): Ghost<Seq<Seq<P>>>,
) -> (r: (bool, bool))
    requires
        in_range(pt),
        ring_in_range(ring@),
        seen == probed(pt, head, tol as int),
    ensures
        r == probed(pt, head.push(ring@), tol as int),
{
    let one = probe_ring(pt, ring, tol);
    proof {
        reveal(probed);
        lemma_one_more_ring(pt, head, ring@, tol as int);
    }
    (seen.0 || one.0, seen.1 != one.1)
}

/// Whether a point belongs to a region: inside by even-odd parity, or within
/// `tol_nm` of any ring edge. The polygons must not overlap each other, since
/// parity reads a doubly covered area as outside.
pub fn point_in_polys(pt: P, polys: &[Poly], tol_nm: Nm) -> (r: bool)
    requires
        in_range(pt),
        polys_in_range(polys.deep_view()),
    ensures
        r == in_region(pt, rings_of(polys.deep_view()), tol_nm as int),
{
    let ghost pv = polys.deep_view();
    let mut seen = (false, false);
    let mut i: usize = 0;
    proof {
        reveal(probed);
    }
    assert(rings_of(pv.take(0)) =~= Seq::<Seq<P>>::empty());
    while i < polys.len()
        invariant
            i <= polys.len(),
            in_range(pt),
            pv == polys.deep_view(),
            polys_in_range(pv),
            seen == probed(pt, rings_of(pv.take(i as int)), tol_nm as int),
        decreases polys.len() - i,
    {
        let ghost head = rings_of(pv.take(i as int));
        let p = &polys[i];
        assert(pv.take(i + 1).drop_last() =~= pv.take(i as int));
        assert(pv[i as int] == p.deep_view());
        assert(poly_in_range(pv[i as int]));
        seen = probe_one(pt, &p.outer, tol_nm, seen, Ghost(head));
        seen = probe_rings(pt, &p.holes, tol_nm, seen, Ghost(head.push(p.outer@)));
        assert(rings_of(pv.take(i + 1)) =~= head.push(p.outer@) + p.holes.deep_view());
        i += 1;
    }
    assert(pv.take(i as int) =~= pv);
    proof {
        reveal(probed);
        reveal(in_region);
    }
    seen.0 || seen.1
}

proof fn lemma_one_more_ring(pt: P, rings: Seq<Seq<P>>, ring: Seq<P>, tol: int)
    ensures
        near_rings(pt, rings.push(ring), tol) == (near_rings(pt, rings, tol) || near_ring(
            pt,
            ring,
            tol,
        )),
        crossings(pt, rings.push(ring)) == crossings(pt, rings) + ring_crossings(
            pt,
            ring,
            ring.len(),
        ),
{
    let all = rings.push(ring);
    assert(all.drop_last() =~= rings);
    if near_rings(pt, rings, tol) {
        let k = choose|k: int| 0 <= k < rings.len() && near_ring(pt, #[trigger] rings[k], tol);
        assert(near_ring(pt, all[k], tol));
    }
    if near_ring(pt, ring, tol) {
        assert(near_ring(pt, all[rings.len() as int], tol));
    }
    if near_rings(pt, all, tol) {
        let k = choose|k: int| 0 <= k < all.len() && near_ring(pt, #[trigger] all[k], tol);
        if k < rings.len() {
            assert(near_ring(pt, rings[k], tol));
        }
    }
}

// ---------------------------------------------------------------------------
// Hatching: integer scanlines in the rotated frame
// ---------------------------------------------------------------------------

/// The horizontal line at `y` meets the edge: one end lies above it and the
/// other does not.
pub open spec fn straddles(a: P, b: P, y: int) -> bool {
    (a.y > y) != (b.y > y)
}

/// Where the line at `y` meets the edge, rounded to the nearest nanometer.
pub open spec fn meeting_x(a: P, b: P, y: int) -> int {
    a.x + nearest_signed((y - a.y) * (b.x - a.x), b.y - a.y)
}

/// Where the line meets the first `n` edges of a ring, in ring order.
pub open spec fn ring_meetings(ring: Seq<P>, y: int, n: nat) -> Seq<i64>
    decreases n,
{
    if n == 0 {
        Seq::empty()
    } else {
        let before = ring_meetings(ring, y, (n - 1) as nat);
        if straddles(ring[n - 1], next(ring, n - 1), y) {
            before.push(meeting_x(ring[n - 1], next(ring, n - 1), y) as i64)
        } else {
            before
        }
    }
}

/// Where the line meets a list of rings.
pub open spec fn meetings(rings: Seq<Seq<P>>, y: int) -> Seq<i64>
    decreases rings.len(),
{
    if rings.len() == 0 {
        Seq::empty()
    } else {
        meetings(rings.drop_last(), y) + ring_meetings(rings.last(), y, rings.last().len())
    }
}

/// One hatch segment in the frame where hatch lines are horizontal.
#[derive(Debug, Clone, Copy, PartialEq, Eq, Structural)]
pub struct Span {
    pub x0: Nm,
    pub x1: Nm,
    pub y: Nm,
}

/// The segments between the first `n` pairs of meeting points, short ones
/// dropped.
pub open spec fn row_spans(xs: Seq<i64>, y: Nm, n: nat) -> Seq<Span>
    decreases n,
{
    if n == 0 {
        Seq::empty()
    } else {
        let before = row_spans(xs, y, (n - 1) as nat);
        let x0 = xs[2 * (n - 1)];
        let x1 = xs[2 * (n - 1) + 1];
        if x1 - x0 >= MIN_HATCH_SEG_NM {
            before.push(Span { x0, x1, y })
        } else {
            before
        }
    }
}

/// The segments of the scanline at `y`: its meeting points in order, paired.
pub open spec fn scanline(rings: Seq<Seq<P>>, y: Nm) -> Seq<Span> {
    let xs = ascending(meetings(rings, y as int));
    row_spans(xs, y, xs.len() / 2)
}

/// The segments of the first `k` scanlines, which start at `y0` and are
/// `interval` apart.
pub open spec fn scanlines(rings: Seq<Seq<P>>, y0: int, interval: int, k: nat) -> Seq<Span>
    decreases k,
{
    if k == 0 {
        Seq::empty()
    } else {
        scanlines(rings, y0, interval, (k - 1) as nat) + scanline(
            rings,
            (y0 + (k - 1) * interval) as i64,
        )
    }
}

/// Number of scanlines strictly below `top`.
pub open spec fn scanline_count(y0: int, interval: int, top: int) -> nat {
    if y0 >= top {
        0
    } else {
        ((top - y0 + interval - 1) / interval) as nat
    }
}

/// The hatch of rotated rings: scanlines from half an interval above the
/// lowest point up to the highest.
pub open spec fn hatch_of(rings: Seq<Seq<P>>, interval: int) -> Seq<Span> {
    match rings_hull_from(None, rings) {
        None => Seq::empty(),
        Some(b) => {
            let y0 = b.min.y + interval / 2;
            scanlines(rings, y0, interval, scanline_count(y0, interval, b.max.y as int))
        },
    }
}

/// How often a line at `y` changes sides along the first `n` steps of a ring,
/// compared with its two ends.
proof fn lemma_side_changes(ring: Seq<P>, y: int, n: nat)
    requires
        n < ring.len(),
    ensures
        (ring_meetings(ring, y, n).len() % 2 == 1) == straddles(ring[0], ring[n as int], y),
    decreases n,
{
    if n > 0 {
        lemma_side_changes(ring, y, (n - 1) as nat);
        assert(next(ring, n - 1) == ring[n as int]);
    }
}

proof fn lemma_ring_parity(ring: Seq<P>, y: int)
    ensures
        ring_meetings(ring, y, ring.len()).len() % 2 == 0,
{
    if ring.len() > 0 {
        let n = ring.len();
        lemma_side_changes(ring, y, (n - 1) as nat);
        assert(next(ring, n - 1) == ring[0]);
    }
}

/// A scanline meets closed rings an even number of times, so its meeting
/// points always pair up.
pub proof fn meetings_pair_up(rings: Seq<Seq<P>>, y: int)
    ensures
        meetings(rings, y).len() % 2 == 0,
    decreases rings.len(),
{
    if rings.len() > 0 {
        meetings_pair_up(rings.drop_last(), y);
        lemma_ring_parity(rings.last(), y);
    }
}

/// A meeting point lies between the ends of its edge.
proof fn lemma_meeting_between(a: P, b: P, y: int)
    requires
        straddles(a, b, y),
    ensures
        a.x <= meeting_x(a, b, y) <= b.x || b.x <= meeting_x(a, b, y) <= a.x,
{
    let up = y - a.y;
    let dx = b.x - a.x;
    let den = b.y - a.y;
    let (u, d) = if den > 0 {
        (up, den)
    } else {
        (-up, -den)
    };
    assert(0 <= u <= d && d > 0);
    assert(nearest_signed(up * dx, den) == nearest(u * dx, d)) by {
        assert((-up) * dx == -(up * dx)) by (nonlinear_arith);
    }
    if dx >= 0 {
        assert(0 * d <= u * dx <= dx * d) by (nonlinear_arith)
            requires
                0 <= u <= d,
                dx >= 0,
        ;
        lemma_nearest_bounds(u * dx, d, 0, dx);
    } else {
        assert(dx * d <= u * dx <= 0 * d) by (nonlinear_arith)
            requires
                0 <= u <= d,
                dx < 0,
        ;
        lemma_nearest_bounds(u * dx, d, dx, 0);
    }
}

/// Exact x of the intersection of an edge with the horizontal line at `y0`,
/// rounded to the nearest nanometer.
pub fn scanline_x(a: P, b: P, y0: Nm) -> (x: Nm)
    requires
        in_range(a),
        in_range(b),
        straddles(a, b, y0 as int),
    ensures
        x == meeting_x(a, b, y0 as int),
{
    let up: i128 = y0 as i128 - a.y as i128;
    let dx: i128 = b.x as i128 - a.x as i128;
    let den: i128 = b.y as i128 - a.y as i128;
    proof {
        lemma_product_bound(up as int, dx as int, 0x7fff_ffff_ffff_ffff);
        lemma_meeting_between(a, b, y0 as int);
    }
    (a.x as i128 + div_round_nearest(up * dx, den)) as i64
}

/// Add the points where the line at `y` meets a ring.
fn add_meetings(ring: &Ring, y: Nm, out: &mut Vec<i64>)
    requires
        ring_in_range(ring@),
    ensures
        final(out)@ == old(out)@ + ring_meetings(ring@, y as int, ring@.len()),
{
    let ghost start = out@;
    let n: usize = ring.len();
    let mut i: usize = 0;
    assert(start + ring_meetings(ring@, y as int, 0) =~= start);
    while i < n
        invariant
            n == ring.len(),
            i <= n,
            ring_in_range(ring@),
            out@ == start + ring_meetings(ring@, y as int, i as nat),
        decreases n - i,
    {
        let a = ring[i];
        let b = if i + 1 == n {
            ring[0]
        } else {
            ring[i + 1]
        };
        assert(a == ring@[i as int] && b == next(ring@, i as int));
        assert(in_range(ring@[i as int]) && in_range(next(ring@, i as int)));
        let ghost before = out@;
        if (a.y > y) != (b.y > y) {
            out.push(scanline_x(a, b, y));
        }
        assert(out@ =~= start + ring_meetings(ring@, y as int, (i + 1) as nat));
        i += 1;
    }
}

proof fn lemma_ring_meetings_range(ring: Seq<P>, y: int, n: nat)
    requires
        ring_in_range(ring),
        n <= ring.len(),
    ensures
        forall|i: int|
            0 <= i < ring_meetings(ring, y, n).len() ==> -COORD_LIMIT < #[trigger] ring_meetings(
                ring,
                y,
                n,
            )[i] < COORD_LIMIT,
    decreases n,
{
    if n > 0 {
        lemma_ring_meetings_range(ring, y, (n - 1) as nat);
        let a = ring[n - 1];
        let b = next(ring, n - 1);
        assert(in_range(a) && in_range(b));
        if straddles(a, b, y) {
            lemma_meeting_between(a, b, y);
        }
        let before = ring_meetings(ring, y, (n - 1) as nat);
        let all = ring_meetings(ring, y, n);
        assert forall|i: int| 0 <= i < all.len() implies -COORD_LIMIT < #[trigger] all[i]
            < COORD_LIMIT by {
            if i < before.len() {
                assert(all[i] == before[i]);
            }
        }
    }
}

proof fn lemma_meetings_range(rings: Seq<Seq<P>>, y: int)
    requires
        rings_in_range(rings),
    ensures
        forall|i: int|
            0 <= i < meetings(rings, y).len() ==> -COORD_LIMIT < #[trigger] meetings(rings, y)[i]
                < COORD_LIMIT,
    decreases rings.len(),
{
    if rings.len() > 0 {
        let head = rings.drop_last();
        assert forall|i: int| 0 <= i < head.len() implies ring_in_range(#[trigger] head[i]) by {
            assert(head[i] == rings[i]);
        }
        lemma_meetings_range(head, y);
        assert(ring_in_range(rings[rings.len() - 1]));
        lemma_ring_meetings_range(rings.last(), y, rings.last().len());
        let before = meetings(head, y);
        let last = ring_meetings(rings.last(), y, rings.last().len());
        let all = meetings(rings, y);
        assert forall|i: int| 0 <= i < all.len() implies -COORD_LIMIT < #[trigger] all[i]
            < COORD_LIMIT by {
            if i < before.len() {
                assert(all[i] == before[i]);
            } else {
                assert(all[i] == last[i - before.len()]);
            }
        }
    }
}

/// Add the segments of the scanline at `y`.
fn add_scanline(rings: &Vec<Ring>, y: Nm, out: &mut Vec<Span>)
    requires
        rings_in_range(rings.deep_view()),
    ensures
        final(out)@ == old(out)@ + scanline(rings.deep_view(), y),
{
    let ghost rv = rings.deep_view();
    let ghost start = out@;
    let mut found: Vec<i64> = Vec::new();
    let mut i: usize = 0;
    while i < rings.len()
        invariant
            i <= rings.len(),
            rv == rings.deep_view(),
            rings_in_range(rv),
            found@ == meetings(rv.take(i as int), y as int),
        decreases rings.len() - i,
    {
        assert(rv.take(i + 1).drop_last() =~= rv.take(i as int));
        assert(ring_in_range(rv[i as int]));
        add_meetings(&rings[i], y, &mut found);
        i += 1;
    }
    assert(rv.take(i as int) =~= rv);
    let xs = sort_ascending(&found);
    proof {
        lemma_ascending(found@);
        lemma_meetings_range(rv, y as int);
        assert forall|k: int| 0 <= k < xs@.len() implies -COORD_LIMIT < #[trigger] xs@[k]
            < COORD_LIMIT by {
            lemma_occ_contains(xs@, xs@[k]);
            lemma_occ_contains(found@, xs@[k]);
            lemma_occ_multiset(xs@, xs@[k]);
            lemma_occ_multiset(found@, xs@[k]);
            assert(xs@.contains(xs@[k]));
            assert(found@.contains(xs@[k]));
            let j = choose|j: int| 0 <= j < found@.len() && found@[j] == xs@[k];
            assert(-COORD_LIMIT < meetings(rv, y as int)[j] < COORD_LIMIT);
        }
    }
    let n: usize = xs.len();
    let pairs: usize = n / 2;
    let mut k: usize = 0;
    assert(start + row_spans(xs@, y, 0) =~= start);
    while k < pairs
        invariant
            k <= pairs,
            n == xs@.len(),
            pairs == n / 2,
            forall|k: int| 0 <= k < xs@.len() ==> -COORD_LIMIT < #[trigger] xs@[k] < COORD_LIMIT,
            out@ == start + row_spans(xs@, y, k as nat),
        decreases pairs - k,
    {
        let x0: i64 = xs[2 * k];
        let x1: i64 = xs[2 * k + 1];
        let ghost before = out@;
        if x1 - x0 >= MIN_HATCH_SEG_NM {
            out.push(Span { x0, x1, y });
        }
        assert(out@ =~= start + row_spans(xs@, y, (k + 1) as nat));
        k += 1;
    }
}

/// Hatch rings that have been rotated so that hatch lines are horizontal, with
/// lines `interval_nm` apart.
pub fn hatch_rows(rings: &Vec<Ring>, interval_nm: Nm) -> (out: Vec<Span>)
    requires
        interval_nm > 0,
        rings_in_range(rings.deep_view()),
    ensures
        out@ == hatch_of(rings.deep_view(), interval_nm as int),
{
    let mut out: Vec<Span> = Vec::new();
    let ghost rv = rings.deep_view();
    let b = match include_rings(None, rings) {
        None => {
            assert(out@ =~= hatch_of(rv, interval_nm as int));
            return out;
        },
        Some(b) => b,
    };
    let start: i128 = b.min.y as i128 + (interval_nm / 2) as i128;
    let top: i128 = b.max.y as i128;
    let step: i128 = interval_nm as i128;
    let ghost n = scanline_count(start as int, step as int, top as int);
    let mut y: i128 = start;
    let ghost mut k: nat = 0;
    assert(0 * step == 0);
    while y < top
        invariant
            rv == rings.deep_view(),
            rings_in_range(rv),
            interval_nm > 0,
            step == interval_nm,
            top == b.max.y,
            i64::MIN <= start <= y,
            y <= i64::MAX + step,
            y == start + k * step,
            n == scanline_count(start as int, step as int, top as int),
            k <= n,
            out@ == scanlines(rv, start as int, step as int, k),
        decreases top + step - y,
    {
        add_scanline(rings, y as i64, &mut out);
        proof {
            lemma_scan_step(start as int, step as int, top as int, k);
            k = k + 1;
        }
        y = y + step;
    }
    proof {
        lemma_scan_done(start as int, step as int, top as int, k);
    }
    out
}

proof fn lemma_scan_step(y0: int, step: int, top: int, k: nat)
    requires
        step > 0,
        y0 + k * step < top,
    ensures
        k + 1 <= scanline_count(y0, step, top),
        y0 + (k + 1) * step == y0 + k * step + step,
{
    assert((k + 1) * step == k * step + step && k * step >= 0) by (nonlinear_arith)
        requires
            step > 0,
            k >= 0,
    ;
    let q = (top - y0 + step - 1) / step;
    vstd::arithmetic::div_mod::lemma_fundamental_div_mod(top - y0 + step - 1, step);
    assert(k + 1 <= q) by (nonlinear_arith)
        requires
            top - y0 + step - 1 == step * q + (top - y0 + step - 1) % step,
            (top - y0 + step - 1) % step < step,
            k * step < top - y0,
            step > 0,
    ;
}

proof fn lemma_scan_done(y0: int, step: int, top: int, k: nat)
    requires
        step > 0,
        y0 + k * step >= top,
        k <= scanline_count(y0, step, top),
    ensures
        k == scanline_count(y0, step, top),
{
    if y0 < top {
        let q = (top - y0 + step - 1) / step;
        vstd::arithmetic::div_mod::lemma_fundamental_div_mod(top - y0 + step - 1, step);
        assert(q <= k) by (nonlinear_arith)
            requires
                top - y0 + step - 1 == step * q + (top - y0 + step - 1) % step,
                0 <= (top - y0 + step - 1) % step,
                k * step >= top - y0,
                step > 0,
        ;
    }
}

// ---------------------------------------------------------------------------
// Strokes lie inside
// ---------------------------------------------------------------------------

/// How many integers of a list exceed `x`.
spec fn above(s: Seq<i64>, x: i64) -> nat
    decreases s.len(),
{
    if s.len() == 0 {
        0
    } else {
        above(s.drop_last(), x) + if s.last() > x {
            1nat
        } else {
            0nat
        }
    }
}

proof fn lemma_above_concat(a: Seq<i64>, b: Seq<i64>, x: i64)
    ensures
        above(a + b, x) == above(a, x) + above(b, x),
    decreases b.len(),
{
    if b.len() == 0 {
        assert(a + b =~= a);
    } else {
        lemma_above_concat(a, b.drop_last(), x);
        assert((a + b).drop_last() =~= a + b.drop_last());
    }
}

proof fn lemma_above_remove(s: Seq<i64>, k: int, x: i64)
    requires
        0 <= k < s.len(),
    ensures
        above(s, x) == above(s.remove(k), x) + if s[k] > x {
            1nat
        } else {
            0nat
        },
    decreases s.len(),
{
    if k == s.len() - 1 {
        assert(s.remove(k) =~= s.drop_last());
    } else {
        lemma_above_remove(s.drop_last(), k, x);
        assert(s.remove(k).drop_last() =~= s.drop_last().remove(k));
    }
}

/// Lists with the same integers have as many above any bound.
proof fn lemma_above_same(s: Seq<i64>, t: Seq<i64>, x: i64)
    requires
        forall|v: i64| #[trigger] occ(s, v) == occ(t, v),
    ensures
        above(s, x) == above(t, x),
    decreases s.len(),
{
    if s.len() == 0 {
        if t.len() > 0 {
            lemma_occ_contains(t, t[0]);
            assert(t.contains(t[0]));
            assert(occ(s, t[0]) == occ(t, t[0]));
        }
    } else {
        let v = s.last();
        lemma_occ_contains(s, v);
        assert(s[s.len() - 1] == v && s.contains(v));
        assert(occ(s, v) == occ(t, v));
        lemma_occ_contains(t, v);
        let k = choose|k: int| 0 <= k < t.len() && t[k] == v;
        assert forall|w: i64| #[trigger] occ(s.drop_last(), w) == occ(t.remove(k), w) by {
            lemma_occ_remove(t, k, w);
            assert(occ(s, w) == occ(t, w));
        }
        lemma_above_same(s.drop_last(), t.remove(k), x);
        lemma_above_remove(t, k, x);
    }
}

/// In an ascending list, what comes after a gap is what exceeds a number in it.
proof fn lemma_above_gap(s: Seq<i64>, k: int, x: i64, n: nat)
    requires
        is_ascending(s),
        0 <= k < s.len(),
        k + 1 < s.len(),
        s[k] < x < s[k + 1],
        n <= s.len(),
    ensures
        above(s.take(n as int), x) == if n > k + 1 {
            (n - (k + 1)) as nat
        } else {
            0
        },
    decreases n,
{
    if n > 0 {
        lemma_above_gap(s, k, x, (n - 1) as nat);
        assert(s.take(n as int).drop_last() =~= s.take(n - 1));
        assert(s.take(n as int).last() == s[n - 1]);
        if n - 1 <= k {
            assert(s[n - 1] <= s[k]);
        } else {
            assert(s[k + 1] <= s[n - 1]);
        }
    }
}

/// The ray from a point crosses an edge exactly if the line through the point
/// meets the edge further right. Rounding moves the meeting point by half a
/// nanometer at most.
proof fn lemma_crosses_beyond(x: i64, y: i64, a: P, b: P)
    requires
        straddles(a, b, y as int) ==> meeting_x(a, b, y as int) != x,
    ensures
        ray_crosses(P { x, y }, a, b) == (straddles(a, b, y as int) && meeting_x(a, b, y as int)
            > x),
{
    reveal(ray_crosses);
    if straddles(a, b, y as int) {
        let up = y - a.y;
        let dx = b.x - a.x;
        let den = b.y - a.y;
        let q = nearest_signed(up * dx, den);
        let off = a.x - x;
        let diff = up * dx + off * den;
        if den > 0 {
            nearest_is_close(up * dx, den);
            if q + off > 0 {
                assert(diff > 0) by (nonlinear_arith)
                    requires
                        den > 0,
                        diff == up * dx + off * den,
                        q + off >= 1,
                        -den <= 2 * (up * dx - den * q),
                ;
            } else {
                assert(diff < 0) by (nonlinear_arith)
                    requires
                        den > 0,
                        diff == up * dx + off * den,
                        q + off <= -1,
                        2 * (up * dx - den * q) <= den,
                ;
            }
        } else {
            nearest_is_close(-(up * dx), -den);
            if q + off > 0 {
                assert(diff < 0) by (nonlinear_arith)
                    requires
                        den < 0,
                        diff == up * dx + off * den,
                        q + off >= 1,
                        -(-den) <= 2 * (-(up * dx) - (-den) * q),
                ;
            } else {
                assert(diff > 0) by (nonlinear_arith)
                    requires
                        den < 0,
                        diff == up * dx + off * den,
                        q + off <= -1,
                        2 * (-(up * dx) - (-den) * q) <= -den,
                ;
            }
        }
    }
}

proof fn lemma_ring_crossings_beyond(x: i64, y: i64, ring: Seq<P>, n: nat)
    requires
        ring_in_range(ring),
        n <= ring.len(),
        !ring_meetings(ring, y as int, n).contains(x),
    ensures
        ring_crossings(P { x, y }, ring, n) == above(ring_meetings(ring, y as int, n), x),
    decreases n,
{
    if n > 0 {
        let a = ring[n - 1];
        let b = next(ring, n - 1);
        let before = ring_meetings(ring, y as int, (n - 1) as nat);
        let all = ring_meetings(ring, y as int, n);
        assert(in_range(a) && in_range(b));
        if straddles(a, b, y as int) {
            lemma_meeting_between(a, b, y as int);
            assert(all.drop_last() =~= before);
            assert(all[all.len() - 1] == meeting_x(a, b, y as int));
        }
        if before.contains(x) {
            let k = choose|k: int| 0 <= k < before.len() && before[k] == x;
            assert(all[k] == x);
        }
        lemma_ring_crossings_beyond(x, y, ring, (n - 1) as nat);
        lemma_crosses_beyond(x, y, a, b);
    }
}

proof fn lemma_crossings_beyond(x: i64, y: i64, rings: Seq<Seq<P>>)
    requires
        rings_in_range(rings),
        !meetings(rings, y as int).contains(x),
    ensures
        crossings(P { x, y }, rings) == above(meetings(rings, y as int), x),
    decreases rings.len(),
{
    if rings.len() > 0 {
        let head = rings.drop_last();
        let before = meetings(head, y as int);
        let last = ring_meetings(rings.last(), y as int, rings.last().len());
        let all = meetings(rings, y as int);
        assert forall|i: int| 0 <= i < head.len() implies ring_in_range(#[trigger] head[i]) by {
            assert(head[i] == rings[i]);
        }
        assert(ring_in_range(rings[rings.len() - 1]));
        if before.contains(x) {
            let k = choose|k: int| 0 <= k < before.len() && before[k] == x;
            assert(all[k] == x);
        }
        if last.contains(x) {
            let k = choose|k: int| 0 <= k < last.len() && last[k] == x;
            assert(all[before.len() + k] == x);
        }
        lemma_crossings_beyond(x, y, head);
        lemma_ring_crossings_beyond(x, y, rings.last(), rings.last().len());
        lemma_above_concat(before, last, x);
    }
}

/// A span lies between the two meeting points of a pair.
proof fn lemma_span_pair(xs: Seq<i64>, y: Nm, n: nat, i: int) -> (k: int)
    requires
        0 <= i < row_spans(xs, y, n).len(),
    ensures
        0 <= k < n,
        row_spans(xs, y, n)[i] == (Span { x0: xs[2 * k], x1: xs[2 * k + 1], y }),
    decreases n,
{
    let before = row_spans(xs, y, (n - 1) as nat);
    if i < before.len() {
        lemma_span_pair(xs, y, (n - 1) as nat, i)
    } else {
        n - 1
    }
}

proof fn lemma_scanline_inside(rings: Seq<Seq<P>>, y: Nm, i: int, x: i64)
    requires
        rings_in_range(rings),
        0 <= i < scanline(rings, y).len(),
        scanline(rings, y)[i].x0 < x < scanline(rings, y)[i].x1,
    ensures
        scanline(rings, y)[i].y == y,
        crossings(P { x, y }, rings) % 2 == 1,
{
    let found = meetings(rings, y as int);
    let xs = ascending(found);
    lemma_ascending(found);
    meetings_pair_up(rings, y as int);
    let k = lemma_span_pair(xs, y, xs.len() / 2, i);
    assert(xs[2 * k] < x < xs[2 * k + 1]);
    if found.contains(x) {
        lemma_ascending_contains(found, x);
        let j = choose|j: int| 0 <= j < xs.len() && xs[j] == x;
        if j <= 2 * k {
            assert(xs[j] <= xs[2 * k]);
        } else {
            assert(xs[2 * k + 1] <= xs[j]);
        }
    }
    lemma_crossings_beyond(x, y, rings);
    assert forall|v: i64| #[trigger] occ(found, v) == occ(xs, v) by {
        lemma_occ_multiset(found, v);
        lemma_occ_multiset(xs, v);
    }
    lemma_above_same(found, xs, x);
    lemma_above_gap(xs, 2 * k, x, xs.len());
    assert(xs.take(xs.len() as int) =~= xs);
}

proof fn lemma_scanlines_inside(
    rings: Seq<Seq<P>>,
    y0: int,
    interval: int,
    k: nat,
    i: int,
    x: i64,
)
    requires
        rings_in_range(rings),
        0 <= i < scanlines(rings, y0, interval, k).len(),
        scanlines(rings, y0, interval, k)[i].x0 < x < scanlines(rings, y0, interval, k)[i].x1,
    ensures
        crossings(P { x, y: scanlines(rings, y0, interval, k)[i].y }, rings) % 2 == 1,
    decreases k,
{
    let before = scanlines(rings, y0, interval, (k - 1) as nat);
    let y = (y0 + (k - 1) * interval) as i64;
    if i < before.len() {
        lemma_scanlines_inside(rings, y0, interval, (k - 1) as nat, i, x);
    } else {
        lemma_scanline_inside(rings, y, i - before.len(), x);
    }
}

/// No stroke of a hatch leaves the region: every point of it but its two ends
/// lies inside by parity.
pub proof fn strokes_lie_inside(rings: Seq<Seq<P>>, interval: int, i: int, x: i64, tol: int)
    requires
        interval > 0,
        rings_in_range(rings),
        0 <= i < hatch_of(rings, interval).len(),
        hatch_of(rings, interval)[i].x0 < x < hatch_of(rings, interval)[i].x1,
    ensures
        in_region(P { x, y: hatch_of(rings, interval)[i].y }, rings, tol),
{
    reveal(in_region);
    let b = rings_hull_from(None, rings)->0;
    let y0 = b.min.y + interval / 2;
    lemma_scanlines_inside(
        rings,
        y0,
        interval,
        scanline_count(y0, interval, b.max.y as int),
        i,
        x,
    );
}

// ---------------------------------------------------------------------------
// Strokes fill the region
// ---------------------------------------------------------------------------

/// The line at `y` meets the edge at `x`, up to half a nanometer.
pub open spec fn edge_meets(a: P, b: P, y: int, x: int) -> bool {
    let den = b.y - a.y;
    let off = 2 * ((x - a.x) * den - (y - a.y) * (b.x - a.x));
    (a.y > y) != (b.y > y) && if den > 0 {
        -den <= off <= den
    } else {
        den <= off <= -den
    }
}

/// Some edge of the rings meets the line at `y` at `x`.
pub open spec fn meets_at(rings: Seq<Seq<P>>, y: int, x: int) -> bool {
    exists|k: int, i: int|
        0 <= k < rings.len() && 0 <= i < rings[k].len() && edge_meets(
            #[trigger] rings[k][i],
            next(rings[k], i),
            y,
            x,
        )
}

/// The points of the rings reach from `lo` up to `hi`.
pub open spec fn reaches(rings: Seq<Seq<P>>, lo: int, hi: int) -> bool {
    &&& forall|k: int, i: int|
        0 <= k < rings.len() && 0 <= i < rings[k].len() ==> lo <= (#[trigger] rings[k][i]).y <= hi
    &&& exists|k: int, i: int|
        0 <= k < rings.len() && 0 <= i < rings[k].len() && (#[trigger] rings[k][i]).y == lo
    &&& exists|k: int, i: int|
        0 <= k < rings.len() && 0 <= i < rings[k].len() && (#[trigger] rings[k][i]).y == hi
}

proof fn lemma_reaches(rings: Seq<Seq<P>>, lo: int, hi: int)
    requires
        reaches(rings, lo, hi),
    ensures
        rings_hull_from(None, rings) matches Some(b) && b.min.y == lo && b.max.y == hi,
{
    let (k0, i0) = choose|k: int, i: int|
        0 <= k < rings.len() && 0 <= i < rings[k].len() && (#[trigger] rings[k][i]).y == lo;
    let (k1, i1) = choose|k: int, i: int|
        0 <= k < rings.len() && 0 <= i < rings[k].len() && (#[trigger] rings[k][i]).y == hi;
    let c = Bounds {
        min: P { x: i64::MIN, y: lo as i64 },
        max: P { x: i64::MAX, y: hi as i64 },
    };
    assert(rings[k0][i0].y == lo && rings[k1][i1].y == hi);
    assert forall|k: int| 0 <= k < rings.len() implies covers(c, #[trigger] rings[k]) by {
        assert forall|i: int| 0 <= i < rings[k].len() implies c.contains(
            #[trigger] rings[k][i],
        ) by {
            assert(lo <= rings[k][i].y <= hi);
        }
    }
    rings_hull_is_the_least(rings, c);
    assert(rings[k0].len() > 0);
    let b = rings_hull_from(None, rings)->0;
    assert(covers(b, rings[k0]) && covers(b, rings[k1]));
    assert(b.contains(rings[k0][i0]) && b.contains(rings[k1][i1]));
}

proof fn lemma_meeting_close(a: P, b: P, y: int)
    requires
        straddles(a, b, y),
    ensures
        edge_meets(a, b, y, meeting_x(a, b, y)),
{
    let up = y - a.y;
    let dx = b.x - a.x;
    let den = b.y - a.y;
    let q = nearest_signed(up * dx, den);
    assert(q * den == den * q) by (nonlinear_arith);
    if den > 0 {
        nearest_is_close(up * dx, den);
    } else {
        nearest_is_close(-(up * dx), -den);
        assert((-den) * q == -(den * q)) by (nonlinear_arith);
    }
}

proof fn lemma_ring_meeting(rings: Seq<Seq<P>>, k: int, y: int, n: nat, v: i64)
    requires
        0 <= k < rings.len(),
        n <= rings[k].len(),
        ring_in_range(rings[k]),
        ring_meetings(rings[k], y, n).contains(v),
    ensures
        meets_at(rings, y, v as int),
    decreases n,
{
    let ring = rings[k];
    let all = ring_meetings(ring, y, n);
    let j = choose|j: int| 0 <= j < all.len() && all[j] == v;
    let before = ring_meetings(ring, y, (n - 1) as nat);
    if j < before.len() {
        assert(before[j] == v);
        lemma_ring_meeting(rings, k, y, (n - 1) as nat, v);
    } else {
        let a = ring[n - 1];
        let b = next(ring, n - 1);
        assert(in_range(a) && in_range(b));
        lemma_meeting_between(a, b, y);
        lemma_meeting_close(a, b, y);
        assert(edge_meets(rings[k][n - 1], next(rings[k], n - 1), y, v as int));
    }
}

/// What a scanline meets lies on an edge.
proof fn lemma_meeting_of(rings: Seq<Seq<P>>, y: int, n: nat, v: i64)
    requires
        n <= rings.len(),
        rings_in_range(rings),
        meetings(rings.take(n as int), y).contains(v),
    ensures
        meets_at(rings, y, v as int),
    decreases n,
{
    let part = rings.take(n as int);
    let all = meetings(part, y);
    let j = choose|j: int| 0 <= j < all.len() && all[j] == v;
    assert(part.drop_last() =~= rings.take(n - 1));
    let before = meetings(rings.take(n - 1), y);
    let last = ring_meetings(part.last(), y, part.last().len());
    if j < before.len() {
        assert(before[j] == v);
        lemma_meeting_of(rings, y, (n - 1) as nat, v);
    } else {
        assert(last[j - before.len()] == v);
        assert(ring_in_range(rings[n - 1]));
        lemma_ring_meeting(rings, n - 1, y, rings[n - 1].len(), v);
    }
}

/// Where in an ascending list a number would stand.
proof fn lemma_place_between(s: Seq<i64>, x: i64) -> (m: int)
    requires
        is_ascending(s),
        !s.contains(x),
    ensures
        0 <= m <= s.len(),
        forall|i: int| 0 <= i < m ==> #[trigger] s[i] < x,
        forall|i: int| m <= i < s.len() ==> x < #[trigger] s[i],
        above(s, x) == s.len() - m,
    decreases s.len(),
{
    if s.len() == 0 {
        0
    } else {
        let r = s.drop_last();
        assert(s[s.len() - 1] != x);
        if r.contains(x) {
            let k = choose|k: int| 0 <= k < r.len() && r[k] == x;
            assert(s[k] == x);
        }
        let m = lemma_place_between(r, x);
        assert forall|i: int| 0 <= i < m implies #[trigger] s[i] < x by {
            assert(r[i] < x);
        }
        if s.last() > x {
            assert forall|i: int| m <= i < s.len() implies x < #[trigger] s[i] by {
                if i < r.len() {
                    assert(x < r[i]);
                }
            }
            m
        } else {
            if m < r.len() {
                assert(x < r[m]);
                assert(s[m] <= s[s.len() - 1]);
            }
            s.len() as int
        }
    }
}

/// The stroke between a pair of meeting points that is long enough.
proof fn lemma_pair_span(xs: Seq<i64>, y: Nm, n: nat, k: int) -> (i: int)
    requires
        0 <= k < n,
        xs[2 * k + 1] - xs[2 * k] >= 1_000,
    ensures
        0 <= i < row_spans(xs, y, n).len(),
        row_spans(xs, y, n)[i] == (Span { x0: xs[2 * k], x1: xs[2 * k + 1], y }),
    decreases n,
{
    let before = row_spans(xs, y, (n - 1) as nat);
    if k < n - 1 {
        lemma_pair_span(xs, y, (n - 1) as nat, k)
    } else {
        before.len() as int
    }
}

/// The strokes of one scanline among those of all.
proof fn lemma_row_among(rings: Seq<Seq<P>>, y0: int, interval: int, n: nat, k: int, j: int) -> (i:
    int)
    requires
        0 <= k < n,
        0 <= j < scanline(rings, (y0 + k * interval) as i64).len(),
    ensures
        0 <= i < scanlines(rings, y0, interval, n).len(),
        scanlines(rings, y0, interval, n)[i] == scanline(rings, (y0 + k * interval) as i64)[j],
    decreases n,
{
    let before = scanlines(rings, y0, interval, (n - 1) as nat);
    if k < n - 1 {
        lemma_row_among(rings, y0, interval, (n - 1) as nat, k, j)
    } else {
        before.len() + j
    }
}

/// A hatch fills all of its region: on every row, from half an interval above
/// the lowest point on and an interval apart, whatever lies inside by parity
/// lies on a stroke, unless the boundary is met on both sides of it less than a
/// micrometer apart.
pub proof fn strokes_fill_the_region(
    rings: Seq<Seq<P>>,
    interval: int,
    lo: int,
    hi: int,
    k: nat,
    x: i64,
    y: i64,
)
    requires
        interval > 0,
        rings_in_range(rings),
        reaches(rings, lo, hi),
        y == lo + interval / 2 + k * interval,
        y < hi,
        crossings(P { x, y }, rings) % 2 == 1,
    ensures
        (exists|i: int|
            0 <= i < hatch_of(rings, interval).len() && (#[trigger] hatch_of(rings, interval)[i]).y
                == y && hatch_of(rings, interval)[i].x0 <= x <= hatch_of(rings, interval)[i].x1) || (
        exists|a: int, b: int|
            a <= x <= b < a + 1_000 && #[trigger] meets_at(rings, y as int, a)
                && #[trigger] meets_at(rings, y as int, b)),
{
    lemma_reaches(rings, lo, hi);
    let y0 = lo + interval / 2;
    let count = scanline_count(y0, interval, hi);
    lemma_scan_step(y0, interval, hi, k);
    let found = meetings(rings, y as int);
    let xs = ascending(found);
    lemma_ascending(found);
    meetings_pair_up(rings, y as int);
    assert(rings.take(rings.len() as int) =~= rings);
    if found.contains(x) {
        lemma_meeting_of(rings, y as int, rings.len(), x);
        assert(meets_at(rings, y as int, x as int) && meets_at(rings, y as int, x as int));
    } else {
        lemma_ascending_contains(found, x);
        lemma_crossings_beyond(x, y, rings);
        assert forall|v: i64| #[trigger] occ(found, v) == occ(xs, v) by {
            lemma_occ_multiset(found, v);
            lemma_occ_multiset(xs, v);
        }
        lemma_above_same(found, xs, x);
        let m = lemma_place_between(xs, x);
        let p = (m - 1) / 2;
        assert(m == 2 * p + 1);
        let a = xs[2 * p];
        let b = xs[2 * p + 1];
        assert(a < x < b);
        if b - a >= 1_000 {
            let j = lemma_pair_span(xs, y, xs.len() / 2, p);
            let i = lemma_row_among(rings, y0, interval, count, k as int, j);
            assert(hatch_of(rings, interval)[i].y == y);
        } else {
            assert(xs.contains(a) && xs.contains(b));
            lemma_ascending_contains(found, a);
            lemma_ascending_contains(found, b);
            lemma_meeting_of(rings, y as int, rings.len(), a);
            lemma_meeting_of(rings, y as int, rings.len(), b);
            assert(meets_at(rings, y as int, a as int) && meets_at(rings, y as int, b as int));
        }
    }
}

proof fn lemma_row_order(xs: Seq<i64>, y: Nm, n: nat, i: int, j: int)
    requires
        is_ascending(xs),
        2 * n <= xs.len(),
        0 <= i < j < row_spans(xs, y, n).len(),
    ensures
        row_spans(xs, y, n)[i].x1 <= row_spans(xs, y, n)[j].x0,
    decreases n,
{
    let before = row_spans(xs, y, (n - 1) as nat);
    if j < before.len() {
        lemma_row_order(xs, y, (n - 1) as nat, i, j);
    } else {
        let k = lemma_span_pair(xs, y, (n - 1) as nat, i);
        assert(xs[2 * k + 1] <= xs[2 * (n - 1)]);
    }
}

proof fn lemma_span_of_row(rings: Seq<Seq<P>>, y0: int, interval: int, n: nat, i: int) -> (r: (
    int,
    int,
))
    requires
        0 <= i < scanlines(rings, y0, interval, n).len(),
    ensures
        0 <= r.0 < n,
        0 <= r.1 < scanline(rings, (y0 + r.0 * interval) as i64).len(),
        scanlines(rings, y0, interval, n)[i] == scanline(rings, (y0 + r.0 * interval) as i64)[r.1],
    decreases n,
{
    let before = scanlines(rings, y0, interval, (n - 1) as nat);
    if i < before.len() {
        lemma_span_of_row(rings, y0, interval, (n - 1) as nat, i)
    } else {
        (n - 1, i - before.len())
    }
}

proof fn lemma_rows_order(
    rings: Seq<Seq<P>>,
    y0: int,
    interval: int,
    n: nat,
    i: int,
    j: int,
) -> (r: (int, int))
    requires
        interval > 0,
        0 <= i < j < scanlines(rings, y0, interval, n).len(),
    ensures
        0 <= r.0 <= r.1 < n,
        scanlines(rings, y0, interval, n)[i].y == (y0 + r.0 * interval) as i64,
        scanlines(rings, y0, interval, n)[j].y == (y0 + r.1 * interval) as i64,
        r.0 == r.1 ==> scanlines(rings, y0, interval, n)[i].x1 <= scanlines(
            rings,
            y0,
            interval,
            n,
        )[j].x0,
    decreases n,
{
    let before = scanlines(rings, y0, interval, (n - 1) as nat);
    let y = (y0 + (n - 1) * interval) as i64;
    let xs = ascending(meetings(rings, y as int));
    lemma_ascending(meetings(rings, y as int));
    if j < before.len() {
        lemma_rows_order(rings, y0, interval, (n - 1) as nat, i, j)
    } else {
        let b = j - before.len();
        let kb = lemma_span_pair(xs, y, xs.len() / 2, b);
        if i < before.len() {
            let (k, m) = lemma_span_of_row(rings, y0, interval, (n - 1) as nat, i);
            let yk = (y0 + k * interval) as i64;
            let zs = ascending(meetings(rings, yk as int));
            let km = lemma_span_pair(zs, yk, zs.len() / 2, m);
            (k, n - 1)
        } else {
            let a = i - before.len();
            let ka = lemma_span_pair(xs, y, xs.len() / 2, a);
            lemma_row_order(xs, y, xs.len() / 2, a, b);
            (n - 1, n - 1)
        }
    }
}

proof fn lemma_span_long(xs: Seq<i64>, y: Nm, n: nat, i: int)
    requires
        0 <= i < row_spans(xs, y, n).len(),
    ensures
        row_spans(xs, y, n)[i].x1 - row_spans(xs, y, n)[i].x0 >= 1_000,
    decreases n,
{
    let before = row_spans(xs, y, (n - 1) as nat);
    if i < before.len() {
        lemma_span_long(xs, y, (n - 1) as nat, i);
    }
}

/// Every stroke lies on a row: half an interval above the lowest point, or whole
/// intervals further up, below the highest one. It is a micrometer long at
/// least, and both its ends lie on the boundary.
pub proof fn strokes_lie_on_rows(rings: Seq<Seq<P>>, interval: int, lo: int, hi: int, i: int) -> (k:
    int)
    requires
        interval > 0,
        rings_in_range(rings),
        reaches(rings, lo, hi),
        0 <= i < hatch_of(rings, interval).len(),
    ensures
        0 <= k,
        ({
            let s = hatch_of(rings, interval)[i];
            &&& s.y == lo + interval / 2 + k * interval
            &&& s.y < hi
            &&& s.x1 - s.x0 >= 1_000
            &&& meets_at(rings, s.y as int, s.x0 as int)
            &&& meets_at(rings, s.y as int, s.x1 as int)
        }),
{
    lemma_reaches(rings, lo, hi);
    let y0 = lo + interval / 2;
    let n = scanline_count(y0, interval, hi);
    let (k, j) = lemma_span_of_row(rings, y0, interval, n, i);
    lemma_rows_below(y0, interval, hi, k);
    let y = (y0 + k * interval) as i64;
    let found = meetings(rings, y as int);
    let xs = ascending(found);
    lemma_ascending(found);
    let p = lemma_span_pair(xs, y, xs.len() / 2, j);
    lemma_span_long(xs, y, xs.len() / 2, j);
    assert(xs.contains(xs[2 * p]) && xs.contains(xs[2 * p + 1]));
    lemma_ascending_contains(found, xs[2 * p]);
    lemma_ascending_contains(found, xs[2 * p + 1]);
    assert(rings.take(rings.len() as int) =~= rings);
    lemma_meeting_of(rings, y as int, rings.len(), xs[2 * p]);
    lemma_meeting_of(rings, y as int, rings.len(), xs[2 * p + 1]);
    let (ka, ia) = choose|k: int, i: int|
        0 <= k < rings.len() && 0 <= i < rings[k].len() && (#[trigger] rings[k][i]).y == lo;
    let (kb, ib) = choose|k: int, i: int|
        0 <= k < rings.len() && 0 <= i < rings[k].len() && (#[trigger] rings[k][i]).y == hi;
    assert(rings[ka][ia].y == lo && rings[kb][ib].y == hi);
    k
}

proof fn lemma_rows_below(y0: int, step: int, top: int, k: int)
    requires
        step > 0,
        0 <= k < scanline_count(y0, step, top),
    ensures
        y0 <= y0 + k * step < top,
{
    let q = (top - y0 + step - 1) / step;
    vstd::arithmetic::div_mod::lemma_fundamental_div_mod(top - y0 + step - 1, step);
    assert(0 <= k * step < top - y0) by (nonlinear_arith)
        requires
            top - y0 + step - 1 == step * q + (top - y0 + step - 1) % step,
            0 <= (top - y0 + step - 1) % step,
            0 <= k <= q - 1,
            step > 0,
    ;
}

/// Strokes run row by row upwards, and to the right within a row: none overlaps
/// another or is drawn twice.
pub proof fn strokes_run_in_order(rings: Seq<Seq<P>>, interval: int, lo: int, hi: int, i: int, j: int)
    requires
        interval > 0,
        rings_in_range(rings),
        reaches(rings, lo, hi),
        0 <= i < j < hatch_of(rings, interval).len(),
    ensures
        ({
            let s = hatch_of(rings, interval)[i];
            let t = hatch_of(rings, interval)[j];
            s.y < t.y || (s.y == t.y && s.x1 <= t.x0)
        }),
{
    lemma_reaches(rings, lo, hi);
    let y0 = lo + interval / 2;
    let n = scanline_count(y0, interval, hi);
    let (a, b) = lemma_rows_order(rings, y0, interval, n, i, j);
    lemma_rows_below(y0, interval, hi, a);
    lemma_rows_below(y0, interval, hi, b);
    let (ka, ia) = choose|k: int, i: int|
        0 <= k < rings.len() && 0 <= i < rings[k].len() && (#[trigger] rings[k][i]).y == lo;
    let (kb, ib) = choose|k: int, i: int|
        0 <= k < rings.len() && 0 <= i < rings[k].len() && (#[trigger] rings[k][i]).y == hi;
    assert(rings[ka][ia].y == lo && rings[kb][ib].y == hi);
    assert(a < b ==> a * interval < b * interval) by (nonlinear_arith)
        requires
            interval > 0,
    ;
}

// ---------------------------------------------------------------------------
// Assembly
// ---------------------------------------------------------------------------

/// A straight stroke.
#[derive(Debug, Clone, Copy, PartialEq, Eq, Structural)]
pub struct Segment {
    pub a: P,
    pub b: P,
}

/// Closed elements along the rings of at least three vertices.
pub open spec fn closed_elems(rings: Seq<Seq<P>>, kind: PathKind) -> Seq<ElemV>
    decreases rings.len(),
{
    if rings.len() == 0 {
        Seq::empty()
    } else {
        let before = closed_elems(rings.drop_last(), kind);
        if rings.last().len() >= 3 {
            before.push(ElemV { kind, pts: rings.last(), closed: true })
        } else {
            before
        }
    }
}

/// Open two-point elements along strokes.
pub open spec fn stroke_elems(strokes: Seq<Segment>, kind: PathKind) -> Seq<ElemV> {
    strokes.map_values(|s: Segment| ElemV { kind, pts: seq![s.a, s.b], closed: false })
}

/// The isolation contours of the first `n` offsets, each tagged with its index.
pub open spec fn isolation_elems(contours: Seq<Seq<PolyV>>, n: nat) -> Seq<ElemV>
    decreases n,
{
    if n == 0 {
        Seq::empty()
    } else {
        isolation_elems(contours, (n - 1) as nat) + closed_elems(
            rings_of(contours[n - 1]),
            PathKind::Isolation((n - 1) as u32),
        )
    }
}

/// The hatch strokes of the first `n` sets, each tagged with its index.
pub open spec fn rubout_elems(hatches: Seq<Seq<Segment>>, n: nat) -> Seq<ElemV>
    decreases n,
{
    if n == 0 {
        Seq::empty()
    } else {
        rubout_elems(hatches, (n - 1) as nat) + stroke_elems(
            hatches[n - 1],
            PathKind::Rubout((n - 1) as u32),
        )
    }
}

proof fn lemma_closed_push(rings: Seq<Seq<P>>, ring: Seq<P>, kind: PathKind)
    ensures
        closed_elems(rings.push(ring), kind) == if ring.len() >= 3 {
            closed_elems(rings, kind).push(ElemV { kind, pts: ring, closed: true })
        } else {
            closed_elems(rings, kind)
        },
{
    assert(rings.push(ring).drop_last() =~= rings);
}

/// Add a ring as a closed element, unless it is degenerate.
pub fn push_closed(elems: &mut Vec<PathElem>, kind: PathKind, ring: &Ring)
    ensures
        ring@.len() >= 3 ==> final(elems).deep_view() == old(elems).deep_view().push(
            ElemV { kind, pts: ring@, closed: true },
        ),
        ring@.len() < 3 ==> final(elems).deep_view() == old(elems).deep_view(),
{
    let ghost before = elems.deep_view();
    if ring.len() >= 3 {
        elems.push(PathElem { kind, pts: clone_ring(ring), closed: true });
        assert(elems.deep_view() =~= before.push(ElemV { kind, pts: ring@, closed: true }));
    }
}

/// Add every ring of a region as a closed element.
pub fn push_region(elems: &mut Vec<PathElem>, kind: PathKind, polys: &[Poly])
    ensures
        final(elems).deep_view() == old(elems).deep_view() + closed_elems(
            rings_of(polys.deep_view()),
            kind,
        ),
{
    let ghost start = elems.deep_view();
    let ghost pv = polys.deep_view();
    let mut i: usize = 0;
    assert(start + closed_elems(rings_of(pv.take(0)), kind) =~= start);
    while i < polys.len()
        invariant
            i <= polys.len(),
            pv == polys.deep_view(),
            elems.deep_view() == start + closed_elems(rings_of(pv.take(i as int)), kind),
        decreases polys.len() - i,
    {
        let ghost head = rings_of(pv.take(i as int));
        let p = &polys[i];
        assert(pv.take(i + 1).drop_last() =~= pv.take(i as int));
        assert(pv[i as int] == p.deep_view());
        push_closed(elems, kind, &p.outer);
        let ghost with_outer = head.push(p.outer@);
        proof {
            lemma_closed_push(head, p.outer@, kind);
        }
        let ghost hv = p.holes.deep_view();
        let mut k: usize = 0;
        assert(with_outer + hv.take(0) =~= with_outer);
        assert(elems.deep_view() =~= start + closed_elems(with_outer, kind));
        while k < p.holes.len()
            invariant
                k <= p.holes.len(),
                hv == p.holes.deep_view(),
                elems.deep_view() == start + closed_elems(with_outer + hv.take(k as int), kind),
            decreases p.holes.len() - k,
        {
            let ghost so_far = with_outer + hv.take(k as int);
            push_closed(elems, kind, &p.holes[k]);
            proof {
                lemma_closed_push(so_far, hv[k as int], kind);
                assert(so_far.push(hv[k as int]) =~= with_outer + hv.take(k + 1));
                assert(elems.deep_view() =~= start + closed_elems(
                    with_outer + hv.take(k + 1),
                    kind,
                ));
            }
            k += 1;
        }
        assert(hv.take(k as int) =~= hv);
        assert(rings_of(pv.take(i + 1)) =~= with_outer + hv);
        i += 1;
    }
    assert(pv.take(i as int) =~= pv);
}

/// Add strokes as open two-point elements.
pub fn push_strokes(elems: &mut Vec<PathElem>, kind: PathKind, strokes: &Vec<Segment>)
    ensures
        final(elems).deep_view() == old(elems).deep_view() + stroke_elems(strokes@, kind),
{
    let ghost start = elems.deep_view();
    let mut i: usize = 0;
    assert(start + stroke_elems(strokes@, kind).take(0) =~= start);
    while i < strokes.len()
        invariant
            i <= strokes.len(),
            elems.deep_view() == start + stroke_elems(strokes@, kind).take(i as int),
        decreases strokes.len() - i,
    {
        let ghost before = elems.deep_view();
        let s = strokes[i];
        let mut pts: Vec<P> = Vec::new();
        pts.push(s.a);
        pts.push(s.b);
        assert(pts@ =~= seq![s.a, s.b]);
        elems.push(PathElem { kind, pts, closed: false });
        assert(elems.deep_view() =~= before.push(stroke_elems(strokes@, kind)[i as int]));
        assert(elems.deep_view() =~= start + stroke_elems(strokes@, kind).take(i + 1));
        i += 1;
    }
    assert(stroke_elems(strokes@, kind).take(i as int) =~= stroke_elems(strokes@, kind));
}

/// The tool paths of one copper layer: all isolation contours in ascending
/// order, then all hatch sets in ascending order.
///
/// `contours[k]` is the copper offset outward for contour `k`, and `hatches[k]`
/// the strokes of hatch set `k`.
pub fn ablation_paths(contours: &Vec<Vec<Poly>>, hatches: &Vec<Vec<Segment>>) -> (paths: Paths)
    requires
        contours@.len() <= u32::MAX,
        hatches@.len() <= u32::MAX,
    ensures
        paths.deep_view() == isolation_elems(contours.deep_view(), contours@.len())
            + rubout_elems(strokes_view(hatches@), hatches@.len()),
{
    let mut elems: Vec<PathElem> = Vec::new();
    let ghost cv = contours.deep_view();
    let mut k: usize = 0;
    assert(elems.deep_view() =~= isolation_elems(cv, 0));
    while k < contours.len()
        invariant
            k <= contours.len(),
            contours@.len() <= u32::MAX,
            cv == contours.deep_view(),
            elems.deep_view() == isolation_elems(cv, k as nat),
        decreases contours.len() - k,
    {
        assert(cv[k as int] == contours@[k as int].deep_view());
        push_region(&mut elems, PathKind::Isolation(k as u32), contours[k].as_slice());
        assert(isolation_elems(cv, (k + 1) as nat) == isolation_elems(cv, k as nat) + closed_elems(
            rings_of(cv[k as int]),
            PathKind::Isolation(k as u32),
        ));
        k += 1;
    }
    let ghost head = isolation_elems(cv, cv.len());
    let ghost hv = strokes_view(hatches@);
    let mut h: usize = 0;
    assert(head + rubout_elems(hv, 0) =~= head);
    while h < hatches.len()
        invariant
            h <= hatches.len(),
            hatches@.len() <= u32::MAX,
            hv == strokes_view(hatches@),
            elems.deep_view() == head + rubout_elems(hv, h as nat),
        decreases hatches.len() - h,
    {
        let ghost before = rubout_elems(hv, h as nat);
        push_strokes(&mut elems, PathKind::Rubout(h as u32), &hatches[h]);
        assert(elems.deep_view() =~= head + rubout_elems(hv, (h + 1) as nat));
        h += 1;
    }
    Paths { elems }
}

/// Lists of strokes as sequences.
pub open spec fn strokes_view(hatches: Seq<Vec<Segment>>) -> Seq<Seq<Segment>> {
    hatches.map_values(|v: Vec<Segment>| v@)
}

/// Distance of isolation contour `k` from the copper boundary: half a spot,
/// then seven tenths of a spot per contour, rounded to the nearest nanometer.
pub open spec fn isolation_offset(spot: int, k: int) -> int {
    nearest(spot * (5 + 7 * k), 10)
}

/// Centerline offset of isolation contour `k` from the copper boundary, so
/// that the beam edge of contour 0 kisses the copper and adjacent contours
/// overlap by three tenths.
pub fn isolation_offset_nm(spot_nm: Nm, k: u32) -> (d: Nm)
    requires
        i64::MIN <= isolation_offset(spot_nm as int, k as int) <= i64::MAX,
    ensures
        d == isolation_offset(spot_nm as int, k as int),
{
    let factor: i128 = 5 + 7 * (k as i128);
    proof {
        assert(-0x8000_0000_0000_0000 * 0x8_0000_0000 <= spot_nm * factor <= 0x8000_0000_0000_0000
            * 0x8_0000_0000) by (nonlinear_arith)
            requires
                i64::MIN <= spot_nm <= i64::MAX,
                0 <= factor <= 0x8_0000_0000,
        ;
    }
    div_round_nearest((spot_nm as i128) * factor, 10) as i64
}

/// Every ring of three vertices or more becomes a closed element of its kind,
/// vertex for vertex and in order; shorter ones become nothing.
pub proof fn rings_become_closed_elements(rings: Seq<Seq<P>>, kind: PathKind)
    ensures
        closed_elems(rings, kind) == rings.filter(|r: Seq<P>| r.len() >= 3).map_values(
            |r: Seq<P>| ElemV { kind, pts: r, closed: true },
        ),
    decreases rings.len(),
{
    reveal(Seq::filter);
    let proper = |r: Seq<P>| r.len() >= 3;
    let elem = |r: Seq<P>| ElemV { kind, pts: r, closed: true };
    if rings.len() > 0 {
        let head = rings.drop_last();
        let r = rings.last();
        rings_become_closed_elements(head, kind);
        assert(head.filter(proper).push(r).map_values(elem) =~= head.filter(proper).map_values(
            elem,
        ).push(elem(r)));
    } else {
        assert(rings.filter(proper).map_values(elem) =~= closed_elems(rings, kind));
    }
}

/// Every stroke becomes one open element from its start to its end.
pub proof fn strokes_become_open_elements(strokes: Seq<Segment>, kind: PathKind, i: int)
    requires
        0 <= i < strokes.len(),
    ensures
        stroke_elems(strokes, kind).len() == strokes.len(),
        stroke_elems(strokes, kind)[i].kind == kind,
        !stroke_elems(strokes, kind)[i].closed,
        stroke_elems(strokes, kind)[i].pts.len() == 2,
        stroke_elems(strokes, kind)[i].pts[0] == strokes[i].a,
        stroke_elems(strokes, kind)[i].pts[1] == strokes[i].b,
{
}

/// A job traces every contour of every offset under the number of the offset,
/// the offsets in ascending order.
pub proof fn every_contour_is_traced(contours: Seq<Seq<PolyV>>)
    requires
        contours.len() <= u32::MAX,
    ensures
        isolation_elems(contours, contours.len()) == Seq::new(
            contours.len(),
            |k: int|
                rings_of(contours[k]).filter(|r: Seq<P>| r.len() >= 3).map_values(
                    |r: Seq<P>| ElemV { kind: PathKind::Isolation(k as u32), pts: r, closed: true },
                ),
        ).flatten_alt(),
{
    lemma_contours_traced(contours, contours.len());
}

proof fn lemma_contours_traced(contours: Seq<Seq<PolyV>>, n: nat)
    requires
        n <= contours.len() <= u32::MAX,
    ensures
        isolation_elems(contours, n) == Seq::new(
            n,
            |k: int|
                rings_of(contours[k]).filter(|r: Seq<P>| r.len() >= 3).map_values(
                    |r: Seq<P>| ElemV { kind: PathKind::Isolation(k as u32), pts: r, closed: true },
                ),
        ).flatten_alt(),
    decreases n,
{
    let of = |k: int|
        rings_of(contours[k]).filter(|r: Seq<P>| r.len() >= 3).map_values(
            |r: Seq<P>| ElemV { kind: PathKind::Isolation(k as u32), pts: r, closed: true },
        );
    if n > 0 {
        lemma_contours_traced(contours, (n - 1) as nat);
        rings_become_closed_elements(
            rings_of(contours[n - 1]),
            PathKind::Isolation((n - 1) as u32),
        );
        assert(Seq::new(n, of).drop_last() =~= Seq::new((n - 1) as nat, of));
        assert(Seq::new(n, of).last() == of(n - 1));
    }
}

/// A job draws every stroke of every hatch set under the number of the set, the
/// sets in ascending order.
pub proof fn every_hatch_is_drawn(hatches: Seq<Seq<Segment>>)
    requires
        hatches.len() <= u32::MAX,
    ensures
        rubout_elems(hatches, hatches.len()) == Seq::new(
            hatches.len(),
            |k: int|
                hatches[k].map_values(
                    |s: Segment|
                        ElemV {
                            kind: PathKind::Rubout(k as u32),
                            pts: seq![s.a, s.b],
                            closed: false,
                        },
                ),
        ).flatten_alt(),
{
    lemma_hatches_drawn(hatches, hatches.len());
}

proof fn lemma_hatches_drawn(hatches: Seq<Seq<Segment>>, n: nat)
    requires
        n <= hatches.len() <= u32::MAX,
    ensures
        rubout_elems(hatches, n) == Seq::new(
            n,
            |k: int|
                hatches[k].map_values(
                    |s: Segment|
                        ElemV {
                            kind: PathKind::Rubout(k as u32),
                            pts: seq![s.a, s.b],
                            closed: false,
                        },
                ),
        ).flatten_alt(),
    decreases n,
{
    let of = |k: int|
        hatches[k].map_values(
            |s: Segment|
                ElemV { kind: PathKind::Rubout(k as u32), pts: seq![s.a, s.b], closed: false },
        );
    if n > 0 {
        lemma_hatches_drawn(hatches, (n - 1) as nat);
        assert(Seq::new(n, of).drop_last() =~= Seq::new((n - 1) as nat, of));
        assert(Seq::new(n, of).last() == of(n - 1));
        assert(of(n - 1) =~= stroke_elems(hatches[n - 1], PathKind::Rubout((n - 1) as u32)));
    }
}

/// The beam edge of the first contour touches the copper, half a spot away, and
/// each further contour lies seven tenths of a spot further out, so that
/// neighbors overlap by three tenths; both up to rounding.
pub proof fn isolation_contours_overlap(spot: int, k: int)
    ensures
        -1 <= 2 * isolation_offset(spot, 0) - spot <= 1,
        -10 <= 10 * (isolation_offset(spot, k + 1) - isolation_offset(spot, k)) - 7 * spot <= 10,
{
    nearest_is_close(spot * (5 + 7 * 0), 10);
    nearest_is_close(spot * (5 + 7 * k), 10);
    nearest_is_close(spot * (5 + 7 * (k + 1)), 10);
    assert(spot * (5 + 7 * 0) == 5 * spot) by (nonlinear_arith);
    assert(spot * (5 + 7 * (k + 1)) == spot * (5 + 7 * k) + 7 * spot) by (nonlinear_arith);
}

/// The band to rub out: between the copper grown by the clearance and the
/// copper grown by clearance and band.
pub fn rubout_band(inner: &[Poly], outer: &[Poly]) -> (band: Vec<Poly>)
    requires
        polys_in_range(inner.deep_view()),
        polys_in_range(outer.deep_view()),
    ensures
        band.deep_view() == boolean_of(outer.deep_view(), inner.deep_view(), BoolOp::Xor),
        band.deep_view() == boolean_of(inner.deep_view(), outer.deep_view(), BoolOp::Xor),
        outer.deep_view() == inner.deep_view() ==> band@.len() == 0,
        inner@.len() == 0 ==> band.deep_view() == normal_of(outer.deep_view()),
        normalized(band.deep_view()),
        polys_in_range(band.deep_view()),
{
    xor(outer, inner)
}

/// The squared distance of a point from the one that divides a segment at `t` parts
/// of `m`, times the square of `m`.
pub open spec fn apart_at(pt: P, a: P, b: P, t: int, m: int) -> int {
    let x = m * (pt.x - a.x) - t * (b.x - a.x);
    let y = m * (pt.y - a.y) - t * (b.y - a.y);
    x * x + y * y
}

/// A point is near a segment exactly if it lies within the tolerance of some point
/// of it: one that divides the segment in the ratio of two integers.
pub proof fn near_points_are_within_the_tolerance(pt: P, a: P, b: P, tol: int, t: int, m: int)
    requires
        0 <= t <= m,
        m > 0,
    ensures
        apart_at(pt, a, b, t, m) <= (m * m) * (tol * tol) ==> near_segment(pt, a, b, tol),
        near_segment(pt, a, b, tol) ==> exists|s: int, n: int|
            0 <= s <= n && n > 0 && #[trigger] apart_at(pt, a, b, s, n) <= (n * n) * (tol * tol),
{
    reveal(near_segment);
    let (abx, aby) = (b.x - a.x, b.y - a.y);
    let (apx, apy) = (pt.x - a.x, pt.y - a.y);
    let (bpx, bpy) = (pt.x - b.x, pt.y - b.y);
    let dot = apx * abx + apy * aby;
    let len2 = abx * abx + aby * aby;
    let cross = abx * apy - aby * apx;
    assert(bpx == apx - abx && bpy == apy - aby);
    if apart_at(pt, a, b, t, m) <= (m * m) * (tol * tol) {
        lemma_reach_is_near(apx, apy, abx, aby, tol * tol, t, m);
    }
    if near_segment(pt, a, b, tol) {
        assert((1 * 1) * (tol * tol) == tol * tol) by (nonlinear_arith);
        if dot <= 0 {
            assert(apart_at(pt, a, b, 0, 1) == apx * apx + apy * apy);
            assert(apart_at(pt, a, b, 0, 1) <= (1 * 1) * (tol * tol));
        } else if dot >= len2 {
            assert(apart_at(pt, a, b, 1, 1) == bpx * bpx + bpy * bpy);
            assert(apart_at(pt, a, b, 1, 1) <= (1 * 1) * (tol * tol));
        } else {
            lemma_near_is_reached(apx, apy, abx, aby, tol * tol);
            assert(apart_at(pt, a, b, dot, len2) <= (len2 * len2) * (tol * tol));
        }
    }
}

/// Moving on in a direction that does not lead back takes a point no nearer.
proof fn lemma_no_nearer(px: int, py: int, ux: int, uy: int, t: int, m: int)
    requires
        m > 0,
        (t >= 0 && px * ux + py * uy <= 0) || (t <= 0 && px * ux + py * uy >= 0),
    ensures
        (m * m) * (px * px + py * py) <= (m * px - t * ux) * (m * px - t * ux) + (m * py - t * uy)
            * (m * py - t * uy),
{
    lemma_square_apart(px, ux, t, m);
    lemma_square_apart(py, uy, t, m);
    let k = 2 * (m * t);
    let dot = px * ux + py * uy;
    assert(k * (px * ux) + k * (py * uy) == k * dot) by (nonlinear_arith)
        requires
            dot == px * ux + py * uy,
    ;
    assert(k * dot <= 0) by (nonlinear_arith)
        requires
            k == 2 * (m * t),
            m > 0,
            (t >= 0 && dot <= 0) || (t <= 0 && dot >= 0),
    ;
    assert((m * m) * (px * px + py * py) == (m * m) * (px * px) + (m * m) * (py * py))
        by (nonlinear_arith);
    assert((t * t) * (ux * ux) >= 0 && (t * t) * (uy * uy) >= 0) by (nonlinear_arith);
}

proof fn lemma_square_apart(p: int, u: int, t: int, m: int)
    ensures
        (m * p - t * u) * (m * p - t * u) == (m * m) * (p * p) - (2 * (m * t)) * (p * u) + (t * t)
            * (u * u),
{
    let a = m * p;
    let b = t * u;
    assert((a - b) * (a - b) == a * a - 2 * (a * b) + b * b) by (nonlinear_arith);
    assert(a * a == (m * m) * (p * p)) by (nonlinear_arith)
        requires
            a == m * p,
    ;
    assert(b * b == (t * t) * (u * u)) by (nonlinear_arith)
        requires
            b == t * u,
    ;
    assert(a * b == (m * t) * (p * u)) by (nonlinear_arith)
        requires
            a == m * p,
            b == t * u,
    ;
    assert(2 * ((m * t) * (p * u)) == (2 * (m * t)) * (p * u)) by (nonlinear_arith);
}

/// The square of a product of lengths is that of the part along and the part
/// across.
proof fn lemma_along_and_across(x: int, y: int, ux: int, uy: int)
    ensures
        (x * x + y * y) * (ux * ux + uy * uy) == (x * ux + y * uy) * (x * ux + y * uy) + (ux * y - uy
            * x) * (ux * y - uy * x),
{
    let (a, b, c, d) = (x * ux, y * uy, ux * y, uy * x);
    let (xx, yy, uu, vv) = (x * x, y * y, ux * ux, uy * uy);
    assert((a + b) * (a + b) == a * a + 2 * (a * b) + b * b) by (nonlinear_arith);
    assert((c - d) * (c - d) == c * c - 2 * (c * d) + d * d) by (nonlinear_arith);
    assert(a * b == c * d && a * a == xx * uu && b * b == yy * vv && c * c == yy * uu && d * d == xx
        * vv) by (nonlinear_arith)
        requires
            a == x * ux,
            b == y * uy,
            c == ux * y,
            d == uy * x,
            xx == x * x,
            yy == y * y,
            uu == ux * ux,
            vv == uy * uy,
    ;
    assert((xx + yy) * (uu + vv) == xx * uu + xx * vv + yy * uu + yy * vv) by (nonlinear_arith);
}

proof fn lemma_reach_is_near(px: int, py: int, ux: int, uy: int, t2: int, t: int, m: int)
    requires
        0 <= t <= m,
        m > 0,
        (m * px - t * ux) * (m * px - t * ux) + (m * py - t * uy) * (m * py - t * uy) <= (m * m)
            * t2,
    ensures
        ({
            let dot = px * ux + py * uy;
            let len2 = ux * ux + uy * uy;
            let cross = ux * py - uy * px;
            &&& dot <= 0 ==> px * px + py * py <= t2
            &&& dot >= len2 ==> (px - ux) * (px - ux) + (py - uy) * (py - uy) <= t2
            &&& cross * cross <= t2 * len2
        }),
{
    let dot = px * ux + py * uy;
    let len2 = ux * ux + uy * uy;
    let cross = ux * py - uy * px;
    let x = m * px - t * ux;
    let y = m * py - t * uy;
    let (qx, qy) = (px - ux, py - uy);
    if dot <= 0 {
        lemma_no_nearer(px, py, ux, uy, t, m);
        lemma_cancel(m * m, px * px + py * py, t2, m);
    }
    if dot >= len2 {
        let w = t - m;
        assert(m * qx - w * ux == x && m * qy - w * uy == y) by (nonlinear_arith)
            requires
                x == m * px - t * ux,
                y == m * py - t * uy,
                qx == px - ux,
                qy == py - uy,
                w == t - m,
        ;
        assert(qx * ux + qy * uy == dot - len2) by (nonlinear_arith)
            requires
                qx == px - ux,
                qy == py - uy,
                dot == px * ux + py * uy,
                len2 == ux * ux + uy * uy,
        ;
        lemma_no_nearer(qx, qy, ux, uy, w, m);
        lemma_cancel(m * m, qx * qx + qy * qy, t2, m);
    }
    let along = x * ux + y * uy;
    assert(ux * y - uy * x == m * cross) by (nonlinear_arith)
        requires
            x == m * px - t * ux,
            y == m * py - t * uy,
            cross == ux * py - uy * px,
    ;
    lemma_along_and_across(x, y, ux, uy);
    assert(along * along >= 0) by (nonlinear_arith);
    assert((m * cross) * (m * cross) == (m * m) * (cross * cross)) by (nonlinear_arith);
    assert((x * x + y * y) * len2 <= ((m * m) * t2) * len2) by (nonlinear_arith)
        requires
            x * x + y * y <= (m * m) * t2,
            len2 == ux * ux + uy * uy,
    ;
    assert(((m * m) * t2) * len2 == (m * m) * (t2 * len2)) by (nonlinear_arith);
    lemma_cancel(m * m, cross * cross, t2 * len2, m);
}

proof fn lemma_cancel(k: int, a: int, b: int, m: int)
    requires
        m > 0,
        k == m * m,
        k * a <= k * b,
    ensures
        a <= b,
{
    assert(k > 0) by (nonlinear_arith)
        requires
            k == m * m,
            m > 0,
    ;
    assert(a <= b) by (nonlinear_arith)
        requires
            k > 0,
            k * a <= k * b,
    ;
}

proof fn lemma_near_is_reached(px: int, py: int, ux: int, uy: int, t2: int)
    ensures
        ({
            let dot = px * ux + py * uy;
            let len2 = ux * ux + uy * uy;
            let cross = ux * py - uy * px;
            let x = len2 * px - dot * ux;
            let y = len2 * py - dot * uy;
            0 < dot < len2 && cross * cross <= t2 * len2 ==> x * x + y * y <= (len2 * len2) * t2
        }),
{
    let dot = px * ux + py * uy;
    let len2 = ux * ux + uy * uy;
    let cross = ux * py - uy * px;
    let x = len2 * px - dot * ux;
    let y = len2 * py - dot * uy;
    assert(x == -(cross * uy) && y == cross * ux) by (nonlinear_arith)
        requires
            dot == px * ux + py * uy,
            len2 == ux * ux + uy * uy,
            cross == ux * py - uy * px,
            x == len2 * px - dot * ux,
            y == len2 * py - dot * uy,
    ;
    assert(x * x + y * y == (cross * cross) * len2) by (nonlinear_arith)
        requires
            x == -(cross * uy),
            y == cross * ux,
            len2 == ux * ux + uy * uy,
    ;
    if 0 < dot < len2 && cross * cross <= t2 * len2 {
        assert((cross * cross) * len2 <= (len2 * len2) * t2) by (nonlinear_arith)
            requires
                cross * cross <= t2 * len2,
                len2 > 0,
        ;
    }
}

/// A ray to the right crosses an edge that passes the height of its point to the
/// right of it, at the edge's lower end but not at its upper one, whichever way
/// the edge runs. A level edge is never crossed.
pub proof fn rays_cross_what_lies_to_the_right(pt: P, a: P, b: P)
    requires
        a.y <= b.y,
    ensures
        ray_crosses(pt, a, b) == ray_crosses(pt, b, a),
        ray_crosses(pt, a, b) <==> a.y <= pt.y < b.y && (pt.x - a.x) * (b.y - a.y) < (pt.y - a.y)
            * (b.x - a.x),
{
    reveal(ray_crosses);
    lemma_ray_sides(
        pt.x as int,
        pt.y as int,
        a.x as int,
        a.y as int,
        b.x as int,
        b.y as int,
    );
}

proof fn lemma_ray_sides(px: int, py: int, ax: int, ay: int, bx: int, by: int)
    ensures
        (py - ay) * (bx - ax) + (ax - px) * (by - ay) == (py - ay) * (bx - ax) - (px - ax) * (by
            - ay),
        (py - by) * (ax - bx) + (bx - px) * (ay - by) == -((py - ay) * (bx - ax) + (ax - px) * (by
            - ay)),
{
    assert((py - ay) * (bx - ax) + (ax - px) * (by - ay) == (py - ay) * (bx - ax) - (px - ax) * (by
        - ay)) by (nonlinear_arith);
    assert((py - by) * (ax - bx) + (bx - px) * (ay - by) == -((py - ay) * (bx - ax) + (ax - px) * (by
        - ay))) by (nonlinear_arith);
}

/// The edges of a ring that the ray from a point crosses.
pub open spec fn crossed(pt: P, ring: Seq<P>) -> Set<int> {
    Set::new(
        |i: int|
            0 <= i < ring.len() && ray_crosses(
                pt,
                ring[i],
                ring[if i + 1 < ring.len() {
                    i + 1
                } else {
                    0
                }],
            ),
    )
}

/// Crossings are counted edge by edge and ring by ring.
pub proof fn crossings_are_counted(pt: P, rings: Seq<Seq<P>>, ring: Seq<P>)
    ensures
        crossed(pt, ring).finite(),
        crossings(pt, Seq::empty()) == 0,
        crossings(pt, rings.push(ring)) == crossings(pt, rings) + crossed(pt, ring).len(),
{
    assert(rings.push(ring).drop_last() =~= rings);
    lemma_crossed(pt, ring, ring.len());
    assert(crossed(pt, ring) =~= crossed(pt, ring).intersect(
        Set::new(|i: int| 0 <= i < ring.len()),
    ));
}

proof fn lemma_crossed(pt: P, ring: Seq<P>, n: nat)
    requires
        n <= ring.len(),
    ensures
        crossed(pt, ring).intersect(Set::new(|i: int| 0 <= i < n)).finite(),
        crossed(pt, ring).intersect(Set::new(|i: int| 0 <= i < n)).len() == ring_crossings(
            pt,
            ring,
            n,
        ),
    decreases n,
{
    let now = crossed(pt, ring).intersect(Set::new(|i: int| 0 <= i < n));
    if n == 0 {
        assert(now =~= Set::<int>::empty());
    } else {
        lemma_crossed(pt, ring, (n - 1) as nat);
        let before = crossed(pt, ring).intersect(Set::new(|i: int| 0 <= i < n - 1));
        assert(next(ring, n - 1) == ring[if n < ring.len() {
            n as int
        } else {
            0
        }]);
        if ray_crosses(pt, ring[n - 1], next(ring, n - 1)) {
            assert(now =~= before.insert(n - 1));
        } else {
            assert(now =~= before);
        }
    }
}

/// The rows of a hatch reach from the bottom of a region to its top: the last one
/// lies below the top, and the next would not.
pub proof fn rows_reach_to_the_top(y0: int, interval: int, top: int)
    requires
        interval > 0,
        y0 < top,
    ensures
        ({
            let n = scanline_count(y0, interval, top) as int;
            &&& n >= 1
            &&& y0 + (n - 1) * interval < top <= y0 + n * interval
        }),
{
    let d = top - y0 + interval - 1;
    let n = d / interval;
    vstd::arithmetic::div_mod::lemma_fundamental_div_mod(d, interval);
    assert(n >= 1 && (n - 1) * interval < top - y0 && top - y0 <= n * interval) by (nonlinear_arith)
        requires
            d == interval * n + d % interval,
            0 <= d % interval < interval,
            d == top - y0 + interval - 1,
            top - y0 > 0,
            interval > 0,
    ;
}

} // verus!
