//! Two machines on one board: fiber for bulk removal, UV for the edges.
//!
//! The fiber job outlines the removal region eroded by the guard; the UV job
//! holds the isolation contours, the force-clear passes and one contour along
//! the exact copper edge. Both share the board frame.
use vstd::prelude::*;
use crate::ablation::{
    ablation_paths, closed_elems, is_near_segment, isolation_elems, near_segment, push_region,
    rubout_elems, strokes_view, Segment,
};
use crate::bounds::{elems_hull, include_points, paths_bbox, Bounds};
use crate::force_clear::{clear_elems, push_clear, PolylineNm};
use crate::geom::{
    boolean_of, in_range, next, normalize, poly_in_range, polys_in_range, ring_in_range,
    rings_in_range, BoolOp,
};
use crate::model::{
    lemma_ring_view, ElemV, Layer, Nm, PathElem, PathKind, Paths, Poly, PolyV, Ring, NM_PER_MM, P,
};
use crate::offset::rings_of;
use crate::text::{fixed_text, holds, lemma_holds_in, put, put_fixed};

verus! {

broadcast use lemma_ring_view;

/// Slack on the guard: flattening of round joins and rounding to the grid.
pub const GUARD_TOLERANCE_NM: Nm = 2_000;

/// The jobs of the two machines, both in the board frame.
#[derive(Debug, PartialEq, Eq)]
pub struct SplitJobs {
    /// Outline of the bulk removal region.
    pub fiber: Paths,
    /// Isolation contours, force-clear passes and the design edge.
    pub uv: Paths,
}

impl Default for SplitJobs {
    fn default() -> (jobs: Self)
        ensures
            jobs.fiber.deep_view() == Seq::<ElemV>::empty(),
            jobs.uv.deep_view() == Seq::<ElemV>::empty(),
    {
        SplitJobs { fiber: Paths::default(), uv: Paths::default() }
    }
}

/// Split the clearance work on a layer between the two machines.
///
/// `eroded` is the removal region shrunk by the guard, `contours` the copper
/// offset outward for each isolation contour, and `centerlines` the passes
/// through the necks of the removal region.
pub fn split(
    layer: &Layer,
    eroded: &Vec<Poly>,
    contours: &Vec<Vec<Poly>>,
    centerlines: &Vec<PolylineNm>,
) -> (jobs: SplitJobs)
    requires
        contours@.len() <= u32::MAX,
        polys_in_range(layer.polys.deep_view()),
    ensures
        jobs.fiber.deep_view() == closed_elems(
            rings_of(eroded.deep_view()),
            PathKind::Rubout(0),
        ),
        jobs.uv.deep_view() == isolation_elems(contours.deep_view(), contours@.len())
            + clear_elems(centerlines.deep_view()) + closed_elems(
            rings_of(boolean_of(layer.polys.deep_view(), Seq::empty(), BoolOp::Subject)),
            PathKind::Boundary,
        ),
{
    let mut fiber: Vec<PathElem> = Vec::new();
    push_region(&mut fiber, PathKind::Rubout(0), eroded.as_slice());
    assert(fiber.deep_view() =~= closed_elems(
        rings_of(eroded.deep_view()),
        PathKind::Rubout(0),
    ));
    let none: Vec<Vec<Segment>> = Vec::new();
    let mut uv = ablation_paths(contours, &none).elems;
    assert(rubout_elems(strokes_view(none@), 0) =~= Seq::<ElemV>::empty());
    assert(uv.deep_view() =~= isolation_elems(contours.deep_view(), contours@.len()));
    push_clear(&mut uv, centerlines);
    let edge = normalize(layer.polys.as_slice());
    push_region(&mut uv, PathKind::Boundary, edge.as_slice());
    SplitJobs { fiber: Paths { elems: fiber }, uv: Paths { elems: uv } }
}

// ---------------------------------------------------------------------------
// Distance between outlines
// ---------------------------------------------------------------------------

/// Twice the signed area of a triangle: positive when `c` lies to the left of
/// the line from `a` to `b`.
pub open spec fn turn(a: P, b: P, c: P) -> int {
    (b.x - a.x) * (c.y - a.y) - (b.y - a.y) * (c.x - a.x)
}

/// Two numbers are strictly on opposite sides of zero.
pub open spec fn opposite(m: int, n: int) -> bool {
    (m > 0 && n < 0) || (m < 0 && n > 0)
}

/// The point lies in the box of the segment from `a` to `b`.
pub open spec fn in_box(a: P, b: P, p: P) -> bool {
    &&& (a.x <= p.x <= b.x || b.x <= p.x <= a.x)
    &&& (a.y <= p.y <= b.y || b.y <= p.y <= a.y)
}

/// The point lies on the segment from `a` to `b`.
pub open spec fn on_segment(a: P, b: P, p: P) -> bool {
    turn(a, b, p) == 0 && in_box(a, b, p)
}

/// Two segments have a point in common: they cross, or an end of one lies on
/// the other.
#[verifier::opaque]
pub open spec fn segments_meet(a: P, b: P, c: P, d: P) -> bool {
    ||| opposite(turn(a, b, c), turn(a, b, d)) && opposite(turn(c, d, a), turn(c, d, b))
    ||| on_segment(a, b, c)
    ||| on_segment(a, b, d)
    ||| on_segment(c, d, a)
    ||| on_segment(c, d, b)
}

/// Two segments come within `tol` of each other: they meet, or an end of one
/// lies that close to the other.
#[verifier::opaque]
pub open spec fn segments_near(a: P, b: P, c: P, d: P, tol: int) -> bool {
    ||| segments_meet(a, b, c, d)
    ||| near_segment(a, c, d, tol)
    ||| near_segment(b, c, d, tol)
    ||| near_segment(c, a, b, tol)
    ||| near_segment(d, a, b, tol)
}

/// How many segments a polyline has.
pub open spec fn segment_count(pts: Seq<P>, closed: bool) -> int {
    if closed || pts.len() == 0 {
        pts.len() as int
    } else {
        pts.len() - 1
    }
}

/// A segment comes within `tol` of an edge of the ring.
pub open spec fn segment_near_ring(a: P, b: P, ring: Seq<P>, tol: int) -> bool {
    exists|j: int| 0 <= j < ring.len() && segments_near(a, b, #[trigger] ring[j], next(ring, j), tol)
}

pub open spec fn segment_near_rings(a: P, b: P, rings: Seq<Seq<P>>, tol: int) -> bool {
    exists|k: int| 0 <= k < rings.len() && segment_near_ring(a, b, #[trigger] rings[k], tol)
}

/// Some segment of the polyline comes within `tol` of an edge of the rings.
pub open spec fn polyline_near_rings(
    pts: Seq<P>,
    closed: bool,
    rings: Seq<Seq<P>>,
    tol: int,
) -> bool {
    exists|i: int|
        0 <= i < segment_count(pts, closed) && segment_near_rings(
            #[trigger] pts[i],
            next(pts, i),
            rings,
            tol,
        )
}

/// Segments are near each other whichever is named first.
pub proof fn nearness_is_mutual(a: P, b: P, c: P, d: P, tol: int)
    ensures
        segments_meet(a, b, c, d) == segments_meet(c, d, a, b),
        segments_near(a, b, c, d, tol) == segments_near(c, d, a, b, tol),
{
    reveal(segments_meet);
    reveal(segments_near);
}

fn to_turn(a: P, b: P, c: P) -> (t: i128)
    requires
        in_range(a),
        in_range(b),
        in_range(c),
    ensures
        t == turn(a, b, c),
{
    let abx: i128 = b.x as i128 - a.x as i128;
    let aby: i128 = b.y as i128 - a.y as i128;
    let acx: i128 = c.x as i128 - a.x as i128;
    let acy: i128 = c.y as i128 - a.y as i128;
    proof {
        let m = 0x7fff_ffff_ffff_fffeint;
        assert(-(m * m) <= abx * acy <= m * m && -(m * m) <= aby * acx <= m * m) by (nonlinear_arith)
            requires
                -m <= abx <= m,
                -m <= aby <= m,
                -m <= acx <= m,
                -m <= acy <= m,
        ;
    }
    abx * acy - aby * acx
}

fn lies_on(t: i128, a: P, b: P, p: P) -> (r: bool)
    requires
        t == turn(a, b, p),
    ensures
        r == on_segment(a, b, p),
{
    t == 0 && ((a.x <= p.x && p.x <= b.x) || (b.x <= p.x && p.x <= a.x)) && ((a.y <= p.y && p.y
        <= b.y) || (b.y <= p.y && p.y <= a.y))
}

fn differ(m: i128, n: i128) -> (r: bool)
    ensures
        r == opposite(m as int, n as int),
{
    (m > 0 && n < 0) || (m < 0 && n > 0)
}

/// Whether two segments have a point in common.
pub fn segs_intersect(a: P, b: P, c: P, d: P) -> (r: bool)
    requires
        in_range(a),
        in_range(b),
        in_range(c),
        in_range(d),
    ensures
        r == segments_meet(a, b, c, d),
{
    reveal(segments_meet);
    let o1: i128 = to_turn(a, b, c);
    let o2: i128 = to_turn(a, b, d);
    let o3: i128 = to_turn(c, d, a);
    let o4: i128 = to_turn(c, d, b);
    (differ(o1, o2) && differ(o3, o4)) || lies_on(o1, a, b, c) || lies_on(o2, a, b, d) || lies_on(
        o3,
        c,
        d,
        a,
    ) || lies_on(o4, c, d, b)
}

/// Whether two segments come within `tol_nm` of each other.
pub fn seg_seg_near(a: P, b: P, c: P, d: P, tol_nm: Nm) -> (r: bool)
    requires
        in_range(a),
        in_range(b),
        in_range(c),
        in_range(d),
    ensures
        r == segments_near(a, b, c, d, tol_nm as int),
{
    reveal(segments_near);
    segs_intersect(a, b, c, d) || is_near_segment(a, c, d, tol_nm) || is_near_segment(
        b,
        c,
        d,
        tol_nm,
    ) || is_near_segment(c, a, b, tol_nm) || is_near_segment(d, a, b, tol_nm)
}

fn is_segment_near_ring(a: P, b: P, ring: &Ring, tol_nm: Nm) -> (r: bool)
    requires
        in_range(a),
        in_range(b),
        ring_in_range(ring@),
    ensures
        r == segment_near_ring(a, b, ring@, tol_nm as int),
{
    let n: usize = ring.len();
    let mut j: usize = 0;
    while j < n
        invariant
            n == ring@.len(),
            j <= n,
            in_range(a),
            in_range(b),
            ring_in_range(ring@),
            forall|k: int|
                0 <= k < j ==> !segments_near(
                    a,
                    b,
                    #[trigger] ring@[k],
                    next(ring@, k),
                    tol_nm as int,
                ),
        decreases n - j,
    {
        let c = ring[j];
        let d = if j + 1 == n {
            ring[0]
        } else {
            ring[j + 1]
        };
        assert(c == ring@[j as int] && d == next(ring@, j as int));
        assert(in_range(ring@[j as int]) && in_range(next(ring@, j as int)));
        if seg_seg_near(a, b, c, d, tol_nm) {
            return true;
        }
        j += 1;
    }
    false
}

fn is_segment_near_poly(a: P, b: P, poly: &Poly, tol_nm: Nm) -> (r: bool)
    requires
        in_range(a),
        in_range(b),
        poly_in_range(poly.deep_view()),
    ensures
        r == (segment_near_ring(a, b, poly.deep_view().outer, tol_nm as int) || segment_near_rings(
            a,
            b,
            poly.deep_view().holes,
            tol_nm as int,
        )),
{
    let ghost hv = poly.deep_view().holes;
    if is_segment_near_ring(a, b, &poly.outer, tol_nm) {
        return true;
    }
    let mut k: usize = 0;
    while k < poly.holes.len()
        invariant
            k <= poly.holes@.len(),
            in_range(a),
            in_range(b),
            hv == poly.deep_view().holes,
            rings_in_range(hv),
            forall|m: int| 0 <= m < k ==> !segment_near_ring(a, b, #[trigger] hv[m], tol_nm as int),
        decreases poly.holes@.len() - k,
    {
        assert(ring_in_range(hv[k as int]));
        assert(hv[k as int] == poly.holes@[k as int]@);
        if is_segment_near_ring(a, b, &poly.holes[k], tol_nm) {
            return true;
        }
        k += 1;
    }
    false
}

proof fn lemma_near_rings_push(a: P, b: P, rings: Seq<Seq<P>>, more: Seq<Seq<P>>, tol: int)
    ensures
        segment_near_rings(a, b, rings + more, tol) == (segment_near_rings(a, b, rings, tol)
            || segment_near_rings(a, b, more, tol)),
{
    let all = rings + more;
    if segment_near_rings(a, b, all, tol) {
        let k = choose|k: int| 0 <= k < all.len() && segment_near_ring(a, b, #[trigger] all[k], tol);
        if k < rings.len() {
            assert(segment_near_ring(a, b, rings[k], tol));
        } else {
            assert(segment_near_ring(a, b, more[k - rings.len()], tol));
        }
    }
    if segment_near_rings(a, b, rings, tol) {
        let k = choose|k: int|
            0 <= k < rings.len() && segment_near_ring(a, b, #[trigger] rings[k], tol);
        assert(segment_near_ring(a, b, all[k], tol));
    }
    if segment_near_rings(a, b, more, tol) {
        let k = choose|k: int|
            0 <= k < more.len() && segment_near_ring(a, b, #[trigger] more[k], tol);
        assert(segment_near_ring(a, b, all[rings.len() + k], tol));
    }
}

fn is_segment_near(a: P, b: P, polys: &[Poly], tol_nm: Nm) -> (r: bool)
    requires
        in_range(a),
        in_range(b),
        polys_in_range(polys.deep_view()),
    ensures
        r == segment_near_rings(a, b, rings_of(polys.deep_view()), tol_nm as int),
{
    let ghost pv = polys.deep_view();
    let mut near = false;
    let mut i: usize = 0;
    while i < polys.len()
        invariant
            i <= polys@.len(),
            in_range(a),
            in_range(b),
            pv == polys.deep_view(),
            polys_in_range(pv),
            near == segment_near_rings(a, b, rings_of(pv.take(i as int)), tol_nm as int),
        decreases polys@.len() - i,
    {
        proof {
            let head = rings_of(pv.take(i as int));
            let tol = tol_nm as int;
            let p = pv[i as int];
            assert(pv.take(i + 1).drop_last() =~= pv.take(i as int));
            assert(pv[i as int] == polys@[i as int].deep_view());
            assert(poly_in_range(pv[i as int]));
            assert(head.push(p.outer) =~= head + seq![p.outer]);
            lemma_near_rings_push(a, b, head, seq![p.outer], tol);
            lemma_near_rings_push(a, b, head.push(p.outer), p.holes, tol);
            assert(segment_near_rings(a, b, seq![p.outer], tol) == segment_near_ring(
                a,
                b,
                p.outer,
                tol,
            )) by {
                assert(seq![p.outer][0] == p.outer);
            }
        }
        if is_segment_near_poly(a, b, &polys[i], tol_nm) {
            near = true;
        }
        i += 1;
    }
    assert(pv.take(i as int) =~= pv);
    near
}

/// Whether a polyline comes within `tol_nm` of any ring edge of a region.
pub fn comes_within(pts: &Ring, closed: bool, polys: &[Poly], tol_nm: Nm) -> (r: bool)
    requires
        ring_in_range(pts@),
        polys_in_range(polys.deep_view()),
    ensures
        r == polyline_near_rings(pts@, closed, rings_of(polys.deep_view()), tol_nm as int),
{
    let n: usize = pts.len();
    let count: usize = if closed || n == 0 {
        n
    } else {
        n - 1
    };
    let mut i: usize = 0;
    while i < count
        invariant
            n == pts@.len(),
            i <= count <= n,
            count == segment_count(pts@, closed),
            ring_in_range(pts@),
            polys_in_range(polys.deep_view()),
            forall|k: int|
                0 <= k < i ==> !segment_near_rings(
                    #[trigger] pts@[k],
                    next(pts@, k),
                    rings_of(polys.deep_view()),
                    tol_nm as int,
                ),
        decreases count - i,
    {
        let a = pts[i];
        let b = if i + 1 == n {
            pts[0]
        } else {
            pts[i + 1]
        };
        assert(a == pts@[i as int] && b == next(pts@, i as int));
        assert(in_range(pts@[i as int]) && in_range(next(pts@, i as int)));
        if is_segment_near(a, b, polys, tol_nm) {
            return true;
        }
        i += 1;
    }
    false
}

proof fn lemma_elem_of_ring(rings: Seq<Seq<P>>, kind: PathKind, k: int) -> (j: int)
    requires
        0 <= k < closed_elems(rings, kind).len(),
    ensures
        0 <= j < rings.len(),
        closed_elems(rings, kind)[k] == (ElemV { kind, pts: rings[j], closed: true }),
    decreases rings.len(),
{
    let before = closed_elems(rings.drop_last(), kind);
    if k < before.len() {
        lemma_elem_of_ring(rings.drop_last(), kind, k)
    } else {
        rings.len() - 1
    }
}

/// The fiber job keeps whatever distance from the copper the eroded region
/// keeps: it adds no outline of its own.
pub proof fn fiber_keeps_the_guard(eroded: Seq<PolyV>, copper: Seq<PolyV>, guard: int, k: int)
    requires
        forall|j: int|
            0 <= j < rings_of(eroded).len() ==> !polyline_near_rings(
                #[trigger] rings_of(eroded)[j],
                true,
                rings_of(copper),
                guard,
            ),
        0 <= k < closed_elems(rings_of(eroded), PathKind::Rubout(0)).len(),
    ensures
        ({
            let e = closed_elems(rings_of(eroded), PathKind::Rubout(0))[k];
            &&& e.kind == PathKind::Rubout(0)
            &&& !polyline_near_rings(e.pts, e.closed, rings_of(copper), guard)
        }),
{
    let j = lemma_elem_of_ring(rings_of(eroded), PathKind::Rubout(0), k);
}

// ---------------------------------------------------------------------------
// Drawing
// ---------------------------------------------------------------------------

/// Where a drawing lies on the board, with a frame around what it shows.
#[derive(Debug, Clone, Copy, PartialEq, Eq, Structural)]
pub struct Canvas {
    pub left: i128,
    pub top: i128,
    pub width: i128,
    pub height: i128,
}

/// The canvas around a box with half a millimeter to spare; without a box, one
/// square millimeter at the origin.
pub open spec fn canvas_of(b: Option<Bounds>) -> Canvas {
    let c = match b {
        Some(c) => c,
        None => Bounds { min: P { x: 0, y: 0 }, max: P { x: NM_PER_MM, y: NM_PER_MM } },
    };
    Canvas {
        left: (c.min.x - 500_000) as i128,
        top: (c.max.y + 500_000) as i128,
        width: (c.max.x - c.min.x + 1_000_000) as i128,
        height: (c.max.y - c.min.y + 1_000_000) as i128,
    }
}

/// The points of an element in micrometers from the canvas's top left corner.
pub open spec fn points_text(pts: Seq<P>, c: Canvas) -> Seq<char>
    decreases pts.len(),
{
    if pts.len() == 0 {
        Seq::empty()
    } else {
        points_text(pts.drop_last(), c) + (if pts.len() == 1 {
            ""@
        } else {
            " "@
        }) + fixed_text(pts.last().x - c.left, 3, 1) + ","@ + fixed_text(
            c.top - pts.last().y,
            3,
            1,
        )
    }
}

/// One drawn element; nothing below two points.
pub open spec fn elem_text(e: ElemV, c: Canvas, color: Seq<char>, dashed: bool) -> Seq<char> {
    if e.pts.len() < 2 {
        Seq::empty()
    } else {
        (if e.closed {
            "<polygon"@
        } else {
            "<polyline"@
        }) + " points=\""@ + points_text(e.pts, c) + "\" fill=\"none\" stroke=\""@ + color
            + "\" stroke-width=\"25.00\""@ + (if dashed {
            " stroke-dasharray=\"40,20\""@
        } else {
            ""@
        }) + "/>\n"@
    }
}

/// The color of a UV element, by what it is for.
pub open spec fn uv_color(kind: PathKind) -> Seq<char> {
    match kind {
        PathKind::Boundary => "#2ca02c"@,
        PathKind::ForceClear => "#ff7f0e"@,
        _ => "#1f77b4"@,
    }
}

pub open spec fn fiber_text(elems: Seq<ElemV>, c: Canvas) -> Seq<char>
    decreases elems.len(),
{
    if elems.len() == 0 {
        Seq::empty()
    } else {
        fiber_text(elems.drop_last(), c) + elem_text(elems.last(), c, "#d62728"@, false)
    }
}

pub open spec fn uv_text(elems: Seq<ElemV>, c: Canvas) -> Seq<char>
    decreases elems.len(),
{
    if elems.len() == 0 {
        Seq::empty()
    } else {
        uv_text(elems.drop_last(), c) + elem_text(
            elems.last(),
            c,
            uv_color(elems.last().kind),
            elems.last().kind == PathKind::Boundary,
        )
    }
}

/// A share of the height in hundredths, in micrometers.
pub open spec fn share_text(height: int, percent: int) -> Seq<char> {
    fixed_text(height * percent, 5, 1)
}

/// The legend, at fixed shares of the height.
pub open spec fn legend_text(height: int) -> Seq<char> {
    "<g font-family=\"sans-serif\" font-size=\""@ + share_text(height, 3)
        + "\">\n<text x=\"2\" y=\""@ + share_text(height, 4)
        + "\" fill=\"#d62728\">fiber (Rubout)</text>\n<text x=\"2\" y=\""@ + share_text(height, 8)
        + "\" fill=\"#1f77b4\">uv isolation</text>\n<text x=\"2\" y=\""@ + share_text(height, 12)
        + "\" fill=\"#ff7f0e\">uv force-clear</text>\n<text x=\"2\" y=\""@ + share_text(
        height,
        16,
    ) + "\" fill=\"#2ca02c\">uv boundary</text>\n</g>\n"@
}

/// What stands before the elements.
pub open spec fn canvas_text(c: Canvas) -> Seq<char> {
    let w = fixed_text(c.width as int, 3, 1);
    let h = fixed_text(c.height as int, 3, 1);
    "<svg xmlns=\"http://www.w3.org/2000/svg\" viewBox=\"0 0 "@ + w + " "@ + h + "\" width=\""@ + w
        + "\" height=\""@ + h
        + "\">\n<rect x=\"0\" y=\"0\" width=\"100%\" height=\"100%\" fill=\"#ffffff\"/>\n"@
}

/// A drawing of both jobs.
pub open spec fn jobs_text(fiber: Seq<ElemV>, uv: Seq<ElemV>) -> Seq<char> {
    let c = canvas_of(elems_hull(fiber + uv));
    canvas_text(c) + fiber_text(fiber, c) + uv_text(uv, c) + legend_text(c.height as int)
        + "</svg>\n"@
}

/// Every coordinate of a canvas is far from the end of its range.
pub open spec fn canvas_fits(c: Canvas) -> bool {
    let m = 0x2_0000_0000_0000_0000int;
    -m <= c.left <= m && -m <= c.top <= m && -m <= c.width <= m && -m <= c.height <= m
}

fn put_points(out: &mut String, pts: &Ring, c: Canvas)
    requires
        canvas_fits(c),
    ensures
        final(out)@ == old(out)@ + points_text(pts@, c),
{
    let ghost start = out@;
    let mut i: usize = 0;
    assert(start + points_text(pts@.take(0), c) =~= start);
    while i < pts.len()
        invariant
            i <= pts@.len(),
            canvas_fits(c),
            out@ == start + points_text(pts@.take(i as int), c),
        decreases pts@.len() - i,
    {
        assert(pts@.take(i + 1).drop_last() =~= pts@.take(i as int));
        if i == 0 {
            put(out, "");
        } else {
            put(out, " ");
        }
        put_fixed(out, pts[i].x as i128 - c.left, 3, 1);
        put(out, ",");
        put_fixed(out, c.top - pts[i].y as i128, 3, 1);
        assert(out@ =~= start + points_text(pts@.take(i + 1), c));
        i += 1;
    }
    assert(pts@.take(i as int) =~= pts@);
}

fn put_elem(out: &mut String, e: &PathElem, c: Canvas, color: &str, dashed: bool)
    requires
        canvas_fits(c),
    ensures
        final(out)@ == old(out)@ + elem_text(e.deep_view(), c, color@, dashed),
{
    let ghost start = out@;
    if e.pts.len() >= 2 {
        if e.closed {
            put(out, "<polygon");
        } else {
            put(out, "<polyline");
        }
        put(out, " points=\"");
        put_points(out, &e.pts, c);
        put(out, "\" fill=\"none\" stroke=\"");
        put(out, color);
        put(out, "\" stroke-width=\"25.00\"");
        if dashed {
            put(out, " stroke-dasharray=\"40,20\"");
        } else {
            put(out, "");
        }
        put(out, "/>\n");
    }
    assert(out@ =~= start + elem_text(e.deep_view(), c, color@, dashed));
}

fn put_share(out: &mut String, height: i128, percent: i128)
    requires
        -0x2_0000_0000_0000_0000 <= height <= 0x2_0000_0000_0000_0000,
        0 <= percent <= 100,
    ensures
        final(out)@ == old(out)@ + share_text(height as int, percent as int),
{
    assert(-0x100_0000_0000_0000_0000 <= height * percent <= 0x100_0000_0000_0000_0000)
        by (nonlinear_arith)
        requires
            -0x2_0000_0000_0000_0000 <= height <= 0x2_0000_0000_0000_0000,
            0 <= percent <= 100,
    ;
    put_fixed(out, height * percent, 5, 1);
}

fn put_legend(out: &mut String, height: i128)
    requires
        -0x2_0000_0000_0000_0000 <= height <= 0x2_0000_0000_0000_0000,
    ensures
        final(out)@ == old(out)@ + legend_text(height as int),
{
    let ghost start = out@;
    put(out, "<g font-family=\"sans-serif\" font-size=\"");
    put_share(out, height, 3);
    put(out, "\">\n<text x=\"2\" y=\"");
    put_share(out, height, 4);
    put(out, "\" fill=\"#d62728\">fiber (Rubout)</text>\n<text x=\"2\" y=\"");
    put_share(out, height, 8);
    put(out, "\" fill=\"#1f77b4\">uv isolation</text>\n<text x=\"2\" y=\"");
    put_share(out, height, 12);
    put(out, "\" fill=\"#ff7f0e\">uv force-clear</text>\n<text x=\"2\" y=\"");
    put_share(out, height, 16);
    put(out, "\" fill=\"#2ca02c\">uv boundary</text>\n</g>\n");
    assert(out@ =~= start + legend_text(height as int));
}

fn put_canvas(out: &mut String, c: Canvas)
    requires
        canvas_fits(c),
    ensures
        final(out)@ == old(out)@ + canvas_text(c),
{
    let ghost start = out@;
    put(out, "<svg xmlns=\"http://www.w3.org/2000/svg\" viewBox=\"0 0 ");
    put_fixed(out, c.width, 3, 1);
    put(out, " ");
    put_fixed(out, c.height, 3, 1);
    put(out, "\" width=\"");
    put_fixed(out, c.width, 3, 1);
    put(out, "\" height=\"");
    put_fixed(out, c.height, 3, 1);
    put(
        out,
        "\">\n<rect x=\"0\" y=\"0\" width=\"100%\" height=\"100%\" fill=\"#ffffff\"/>\n",
    );
    assert(out@ =~= start + canvas_text(c));
}

fn jobs_bbox(jobs: &SplitJobs) -> (b: Option<Bounds>)
    ensures
        b == elems_hull(jobs.fiber.deep_view() + jobs.uv.deep_view()),
{
    let ghost fv = jobs.fiber.deep_view();
    let ghost uv = jobs.uv.deep_view();
    let mut b = paths_bbox(&jobs.fiber);
    let mut i: usize = 0;
    assert(fv + uv.take(0) =~= fv);
    while i < jobs.uv.elems.len()
        invariant
            i <= jobs.uv.elems@.len(),
            uv == jobs.uv.deep_view(),
            b == elems_hull(fv + uv.take(i as int)),
        decreases jobs.uv.elems@.len() - i,
    {
        assert((fv + uv.take(i + 1)).drop_last() =~= fv + uv.take(i as int));
        assert(uv[i as int] == jobs.uv.elems@[i as int].deep_view());
        b = include_points(b, &jobs.uv.elems[i].pts);
        i += 1;
    }
    assert(uv.take(i as int) =~= uv);
    b
}

fn canvas_around(b: Option<Bounds>) -> (c: Canvas)
    ensures
        c == canvas_of(b),
        canvas_fits(c),
{
    let box_ = match b {
        Some(c) => c,
        None => Bounds { min: P { x: 0, y: 0 }, max: P { x: NM_PER_MM, y: NM_PER_MM } },
    };
    Canvas {
        left: box_.min.x as i128 - 500_000,
        top: box_.max.y as i128 + 500_000,
        width: box_.max.x as i128 - box_.min.x as i128 + 1_000_000,
        height: box_.max.y as i128 - box_.min.y as i128 + 1_000_000,
    }
}

/// A drawing of both jobs: fiber red, isolation blue, force-clear orange, the
/// design edge dashed green.
pub fn debug_svg_string(jobs: &SplitJobs) -> (doc: String)
    ensures
        doc@ == jobs_text(jobs.fiber.deep_view(), jobs.uv.deep_view()),
{
    let ghost fv = jobs.fiber.deep_view();
    let ghost uv = jobs.uv.deep_view();
    let c = canvas_around(jobs_bbox(jobs));
    let mut out = String::new();
    put_canvas(&mut out, c);
    let ghost head = out@;
    assert(head =~= canvas_text(c));
    let mut i: usize = 0;
    assert(head + fiber_text(fv.take(0), c) =~= head);
    while i < jobs.fiber.elems.len()
        invariant
            i <= jobs.fiber.elems@.len(),
            fv == jobs.fiber.deep_view(),
            canvas_fits(c),
            out@ == head + fiber_text(fv.take(i as int), c),
        decreases jobs.fiber.elems@.len() - i,
    {
        assert(fv.take(i + 1).drop_last() =~= fv.take(i as int));
        assert(fv[i as int] == jobs.fiber.elems@[i as int].deep_view());
        put_elem(&mut out, &jobs.fiber.elems[i], c, "#d62728", false);
        assert(out@ =~= head + fiber_text(fv.take(i + 1), c));
        i += 1;
    }
    assert(fv.take(i as int) =~= fv);
    let ghost middle = out@;
    let mut k: usize = 0;
    assert(middle + uv_text(uv.take(0), c) =~= middle);
    while k < jobs.uv.elems.len()
        invariant
            k <= jobs.uv.elems@.len(),
            uv == jobs.uv.deep_view(),
            canvas_fits(c),
            out@ == middle + uv_text(uv.take(k as int), c),
        decreases jobs.uv.elems@.len() - k,
    {
        assert(uv.take(k + 1).drop_last() =~= uv.take(k as int));
        assert(uv[k as int] == jobs.uv.elems@[k as int].deep_view());
        match jobs.uv.elems[k].kind {
            PathKind::Boundary => {
                put_elem(&mut out, &jobs.uv.elems[k], c, "#2ca02c", true);
            },
            PathKind::ForceClear => {
                put_elem(&mut out, &jobs.uv.elems[k], c, "#ff7f0e", false);
            },
            _ => {
                put_elem(&mut out, &jobs.uv.elems[k], c, "#1f77b4", false);
            },
        }
        assert(out@ =~= middle + uv_text(uv.take(k + 1), c));
        k += 1;
    }
    assert(uv.take(k as int) =~= uv);
    put_legend(&mut out, c.height);
    put(&mut out, "</svg>\n");
    assert(out@ =~= jobs_text(fv, uv));
    out
}

/// The canvas leaves half a millimeter on every side of what is drawn.
pub proof fn canvas_leaves_a_margin(b: Bounds)
    ensures
        ({
            let c = canvas_of(Some(b));
            &&& c.left == b.min.x - 500_000
            &&& c.left + c.width == b.max.x + 500_000
            &&& c.top == b.max.y + 500_000
            &&& c.top - c.height == b.min.y - 500_000
        }),
{
}

/// The points of an element are listed in order, from the canvas's top left
/// corner to the right and down, with a blank between two.
pub proof fn points_are_listed_in_order(pts: Seq<P>, c: Canvas)
    ensures
        points_text(pts, c) == Seq::new(
            pts.len(),
            |i: int|
                (if i == 0 {
                    ""@
                } else {
                    " "@
                }) + fixed_text(pts[i].x - c.left, 3, 1) + ","@ + fixed_text(
                    c.top - pts[i].y,
                    3,
                    1,
                ),
        ).flatten_alt(),
    decreases pts.len(),
{
    let all = Seq::new(
        pts.len(),
        |i: int|
            (if i == 0 {
                ""@
            } else {
                " "@
            }) + fixed_text(pts[i].x - c.left, 3, 1) + ","@ + fixed_text(c.top - pts[i].y, 3, 1),
    );
    if pts.len() > 0 {
        let less = pts.drop_last();
        points_are_listed_in_order(less, c);
        assert(all.drop_last() =~= Seq::new(
            less.len(),
            |i: int|
                (if i == 0 {
                    ""@
                } else {
                    " "@
                }) + fixed_text(less[i].x - c.left, 3, 1) + ","@ + fixed_text(
                    c.top - less[i].y,
                    3,
                    1,
                ),
        ));
        assert(points_text(pts, c) =~= points_text(less, c) + all.last());
    }
}

/// Every element of two points or more is drawn: those of the fiber job in red,
/// those of the UV job in the color of their purpose, contours along the copper
/// dashed.
pub proof fn every_job_element_is_drawn(fiber: Seq<ElemV>, uv: Seq<ElemV>, i: int, j: int)
    requires
        0 <= i < fiber.len() && fiber[i].pts.len() >= 2,
        0 <= j < uv.len() && uv[j].pts.len() >= 2,
    ensures
        ({
            let c = canvas_of(elems_hull(fiber + uv));
            let (f, u) = (fiber[i], uv[j]);
            &&& holds(
                jobs_text(fiber, uv),
                (if f.closed {
                    "<polygon"@
                } else {
                    "<polyline"@
                }) + " points=\""@ + points_text(f.pts, c) + "\" fill=\"none\" stroke=\""@
                    + "#d62728"@ + "\" stroke-width=\"25.00\""@ + ""@ + "/>\n"@,
            )
            &&& holds(
                jobs_text(fiber, uv),
                (if u.closed {
                    "<polygon"@
                } else {
                    "<polyline"@
                }) + " points=\""@ + points_text(u.pts, c) + "\" fill=\"none\" stroke=\""@ + (
                if u.kind == PathKind::Boundary {
                    "#2ca02c"@
                } else if u.kind == PathKind::ForceClear {
                    "#ff7f0e"@
                } else {
                    "#1f77b4"@
                }) + "\" stroke-width=\"25.00\""@ + (if u.kind == PathKind::Boundary {
                    " stroke-dasharray=\"40,20\""@
                } else {
                    ""@
                }) + "/>\n"@,
            )
        }),
{
    let c = canvas_of(elems_hull(fiber + uv));
    let f = elem_text(fiber[i], c, "#d62728"@, false);
    let u = elem_text(uv[j], c, uv_color(uv[j].kind), uv[j].kind == PathKind::Boundary);
    lemma_fiber_drawn(fiber, c, i);
    lemma_uv_drawn(uv, c, j);
    lemma_inside_drawing(
        canvas_text(c),
        fiber_text(fiber, c),
        uv_text(uv, c),
        legend_text(c.height as int),
        "</svg>\n"@,
        f,
        u,
    );
}

proof fn lemma_inside_drawing(
    head: Seq<char>,
    first: Seq<char>,
    second: Seq<char>,
    legend: Seq<char>,
    tail: Seq<char>,
    f: Seq<char>,
    u: Seq<char>,
)
    requires
        holds(first, f),
        holds(second, u),
    ensures
        holds(head + first + second + legend + tail, f),
        holds(head + first + second + legend + tail, u),
{
    lemma_holds_in(head, first, f);
    lemma_holds_in(head + first, second, f);
    lemma_holds_in(head + first, second, u);
    lemma_holds_in(head + first + second, legend, f);
    lemma_holds_in(head + first + second, legend, u);
    lemma_holds_in(head + first + second + legend, tail, f);
    lemma_holds_in(head + first + second + legend, tail, u);
}

proof fn lemma_fiber_drawn(elems: Seq<ElemV>, c: Canvas, i: int)
    requires
        0 <= i < elems.len(),
    ensures
        holds(fiber_text(elems, c), elem_text(elems[i], c, "#d62728"@, false)),
    decreases elems.len(),
{
    let part = elem_text(elems[i], c, "#d62728"@, false);
    let last = elem_text(elems.last(), c, "#d62728"@, false);
    lemma_holds_in(fiber_text(elems.drop_last(), c), last, part);
    if i < elems.len() - 1 {
        lemma_fiber_drawn(elems.drop_last(), c, i);
    }
}

proof fn lemma_uv_drawn(elems: Seq<ElemV>, c: Canvas, i: int)
    requires
        0 <= i < elems.len(),
    ensures
        holds(
            uv_text(elems, c),
            elem_text(
                elems[i],
                c,
                uv_color(elems[i].kind),
                elems[i].kind == PathKind::Boundary,
            ),
        ),
    decreases elems.len(),
{
    let part = elem_text(
        elems[i],
        c,
        uv_color(elems[i].kind),
        elems[i].kind == PathKind::Boundary,
    );
    let e = elems.last();
    let last = elem_text(e, c, uv_color(e.kind), e.kind == PathKind::Boundary);
    lemma_holds_in(uv_text(elems.drop_last(), c), last, part);
    if i < elems.len() - 1 {
        lemma_uv_drawn(elems.drop_last(), c, i);
    }
}

} // verus!
