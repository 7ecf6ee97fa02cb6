//! Field correction of placed geometry.
//!
//! A straight edge maps to a curved path, so every edge is cut into segments
//! before its points are warped. Points outside the region a field map was fit
//! over are refused, and so is what a warp moves out of all proportion: a bad
//! point fails the whole job.
use vstd::prelude::*;
use crate::geom::{in_range, next, poly_in_range, polys_in_range, ring_in_range, rings_in_range, COORD_LIMIT};
use crate::model::{lemma_ring_view, Nm, Poly, PolyV, Ring, P};
use crate::num::{
    div_round_nearest, floor_sqrt, is_floor_root, lemma_nearest_bounds, nearest_is_close,
    nearest_signed,
};
use crate::order::{dist2, jump2};
use crate::text::{fixed_text, put, put_fixed};

verus! {

broadcast use lemma_ring_view;

/// Beyond this a coordinate is a broken fit and no machine move.
pub const MAX_COORD_NM: Nm = 10_000_000_000;

// ---------------------------------------------------------------------------
// Refusals
// ---------------------------------------------------------------------------

/// A rectangle a field map was fit over.
#[derive(Debug, Clone, Copy, PartialEq, Eq, Structural)]
pub struct FieldBox {
    pub min: P,
    pub max: P,
}

/// Why a warp refused to produce geometry.
#[derive(Debug, PartialEq, Eq)]
pub enum WarpError {
    /// The transform returned no number for a vertex.
    NonFinite { src: P },
    /// The transform returned a value outside the envelope; `out` is that
    /// value in millimeters, as text.
    OutOfEnvelope { src: P, out: (String, String) },
    /// The vertex lies outside the region the field map was fit over.
    OutsideFieldCalibration { src: P, calib: FieldBox },
}

/// A point in millimeters with three decimals.
pub open spec fn point_text(p: P) -> Seq<char> {
    "("@ + fixed_text(p.x as int, 6, 3) + ", "@ + fixed_text(p.y as int, 6, 3) + ")"@
}

fn put_point(out: &mut String, p: P)
    ensures
        final(out)@ == old(out)@ + point_text(p),
{
    let ghost start = out@;
    put(out, "(");
    put_fixed(out, p.x as i128, 6, 3);
    put(out, ", ");
    put_fixed(out, p.y as i128, 6, 3);
    put(out, ")");
    assert(out@ =~= start + point_text(p));
}

/// A field box in millimeters, axis by axis.
pub open spec fn box_text(b: FieldBox) -> Seq<char> {
    "("@ + fixed_text(b.min.x as int, 6, 3) + ".."@ + fixed_text(b.max.x as int, 6, 3) + ", "@
        + fixed_text(b.min.y as int, 6, 3) + ".."@ + fixed_text(b.max.y as int, 6, 3) + ")"@
}

fn put_box(out: &mut String, b: FieldBox)
    ensures
        final(out)@ == old(out)@ + box_text(b),
{
    let ghost start = out@;
    put(out, "(");
    put_fixed(out, b.min.x as i128, 6, 3);
    put(out, "..");
    put_fixed(out, b.max.x as i128, 6, 3);
    put(out, ", ");
    put_fixed(out, b.min.y as i128, 6, 3);
    put(out, "..");
    put_fixed(out, b.max.y as i128, 6, 3);
    put(out, ")");
    assert(out@ =~= start + box_text(b));
}

impl WarpError {
    /// The message of a refusal.
    pub open spec fn text(self) -> Seq<char> {
        match self {
            WarpError::NonFinite { src } =>
                "transform returned a non-finite (NaN/\u{221e}) coordinate for the vertex at "@
                + point_text(src) + " mm"@,
            WarpError::OutOfEnvelope { src, out } => "transform moved the vertex at "@ + point_text(
                src,
            ) + " mm to ("@ + out.0@ + ", "@ + out.1@
                + ") mm, outside the \u{b1}10000 mm sanity envelope"@,
            WarpError::OutsideFieldCalibration { src, calib } => "the vertex at "@ + point_text(src)
                + " mm lies outside the field map's calibrated region "@ + box_text(calib)
                + " mm (+5% margin) \u{2014} the field correction is not measured there; place the job inside the calibrated box or re-run the laser-field calibration over the area you need"@,
        }
    }

    /// The message of a refusal.
    pub fn message(&self) -> (s: String)
        ensures
            s@ == self.text(),
    {
        let mut s = String::new();
        match self {
            WarpError::NonFinite { src } => {
                put(
                    &mut s,
                    "transform returned a non-finite (NaN/\u{221e}) coordinate for the vertex at ",
                );
                put_point(&mut s, *src);
                put(&mut s, " mm");
            },
            WarpError::OutOfEnvelope { src, out } => {
                put(&mut s, "transform moved the vertex at ");
                put_point(&mut s, *src);
                put(&mut s, " mm to (");
                put(&mut s, out.0.as_str());
                put(&mut s, ", ");
                put(&mut s, out.1.as_str());
                put(&mut s, ") mm, outside the \u{b1}10000 mm sanity envelope");
            },
            WarpError::OutsideFieldCalibration { src, calib } => {
                put(&mut s, "the vertex at ");
                put_point(&mut s, *src);
                put(&mut s, " mm lies outside the field map's calibrated region ");
                put_box(&mut s, *calib);
                put(
                    &mut s,
                    " mm (+5% margin) \u{2014} the field correction is not measured there; place the job inside the calibrated box or re-run the laser-field calibration over the area you need",
                );
            },
        }
        assert(s@ =~= self.text());
        s
    }
}

/// A coordinate lies between two others with a margin of a twentieth of their
/// distance on each side.
pub open spec fn within(v: int, lo: int, hi: int) -> bool {
    20 * (v - lo) >= -(hi - lo) && 20 * (v - hi) <= hi - lo
}

pub open spec fn in_field(p: P, b: FieldBox) -> bool {
    within(p.x as int, b.min.x as int, b.max.x as int) && within(
        p.y as int,
        b.min.y as int,
        b.max.y as int,
    )
}

fn is_within(v: i64, lo: i64, hi: i64) -> (r: bool)
    ensures
        r == within(v as int, lo as int, hi as int),
{
    let span: i128 = hi as i128 - lo as i128;
    20 * (v as i128 - lo as i128) >= -span && 20 * (v as i128 - hi as i128) <= span
}

/// Whether a point lies in the region a field map was fit over.
pub fn within_field_bounds(p: P, calib: FieldBox) -> (r: bool)
    ensures
        r == in_field(p, calib),
{
    is_within(p.x, calib.min.x, calib.max.x) && is_within(p.y, calib.min.y, calib.max.y)
}

/// A point a machine could move to.
pub open spec fn in_envelope(p: P) -> bool {
    -MAX_COORD_NM <= p.x <= MAX_COORD_NM && -MAX_COORD_NM <= p.y <= MAX_COORD_NM
}

/// Whether a machine could move to a point.
pub fn within_envelope(p: P) -> (r: bool)
    ensures
        r == in_envelope(p),
{
    -MAX_COORD_NM <= p.x && p.x <= MAX_COORD_NM && -MAX_COORD_NM <= p.y && p.y <= MAX_COORD_NM
}

/// The first point of a ring outside the field, if there is one.
pub fn first_outside(ring: &Ring, calib: FieldBox) -> (r: Result<(), WarpError>)
    ensures
        r is Ok <==> forall|i: int| 0 <= i < ring@.len() ==> in_field(#[trigger] ring@[i], calib),
        r matches Err(e) ==> exists|i: int|
            0 <= i < ring@.len() && !in_field(#[trigger] ring@[i], calib) && e == (
            WarpError::OutsideFieldCalibration { src: ring@[i], calib }) && forall|k: int|
                0 <= k < i ==> in_field(#[trigger] ring@[k], calib),
{
    let mut i: usize = 0;
    while i < ring.len()
        invariant
            i <= ring@.len(),
            forall|k: int| 0 <= k < i ==> in_field(#[trigger] ring@[k], calib),
        decreases ring@.len() - i,
    {
        if !within_field_bounds(ring[i], calib) {
            assert(!in_field(ring@[i as int], calib));
            return Err(WarpError::OutsideFieldCalibration { src: ring[i], calib });
        }
        i += 1;
    }
    Ok(())
}

// ---------------------------------------------------------------------------
// Subdivision
// ---------------------------------------------------------------------------

/// How many whole segments of length `seg` an edge holds.
pub open spec fn whole_segments(a: P, b: P, seg: int) -> int {
    choose|k: int| is_segment_count(k, a, b, seg)
}

pub open spec fn is_segment_count(k: int, a: P, b: P, seg: int) -> bool {
    &&& 0 <= k
    &&& (k * seg) * (k * seg) <= dist2(a, b)
    &&& dist2(a, b) < ((k + 1) * seg) * ((k + 1) * seg)
}

/// Point `k` of the points that cut an edge into `n + 1` equal parts.
pub open spec fn part_point(a: P, b: P, k: int, n: int) -> P {
    P {
        x: nearest_signed(a.x * (n + 1) + (b.x - a.x) * k, n + 1) as i64,
        y: nearest_signed(a.y * (n + 1) + (b.y - a.y) * k, n + 1) as i64,
    }
}

/// The start of an edge and the points that cut it.
pub open spec fn cut_edge(a: P, b: P, seg: int) -> Seq<P> {
    let n = whole_segments(a, b, seg);
    Seq::new((n + 1) as nat, |k: int| if k == 0 { a } else { part_point(a, b, k, n) })
}

/// The first `n` edges of a ring, cut.
pub open spec fn cut_edges(ring: Seq<P>, seg: int, n: nat) -> Seq<P>
    decreases n,
{
    if n == 0 {
        Seq::empty()
    } else {
        cut_edges(ring, seg, (n - 1) as nat) + cut_edge(ring[n - 1], next(ring, n - 1), seg)
    }
}

/// A ring with every edge cut into segments; a single point stays.
pub open spec fn densified(ring: Seq<P>, seg: int) -> Seq<P> {
    if ring.len() < 2 {
        ring
    } else {
        cut_edges(ring, seg, ring.len())
    }
}

proof fn lemma_segment_count(k: int, a: P, b: P, seg: int)
    requires
        seg > 0,
        is_segment_count(k, a, b, seg),
    ensures
        k == whole_segments(a, b, seg),
{
    let q = whole_segments(a, b, seg);
    assert(is_segment_count(q, a, b, seg));
    assert(!(q < k)) by (nonlinear_arith)
        requires
            seg > 0,
            is_segment_count(k, a, b, seg),
            is_segment_count(q, a, b, seg),
    ;
    assert(!(k < q)) by (nonlinear_arith)
        requires
            seg > 0,
            is_segment_count(k, a, b, seg),
            is_segment_count(q, a, b, seg),
    ;
}

/// Whole segments follow from the rounded-down root.
proof fn lemma_count_from_root(r: int, d: int, seg: int, k: int)
    requires
        seg > 0,
        is_floor_root(r, d),
        k == r / seg,
    ensures
        0 <= k,
        (k * seg) * (k * seg) <= d,
        d < ((k + 1) * seg) * ((k + 1) * seg),
{
    assert(0 <= k && k * seg <= r < (k + 1) * seg) by (nonlinear_arith)
        requires
            seg > 0,
            r >= 0,
            k == r / seg,
    ;
    let lo = k * seg;
    let hi = (k + 1) * seg;
    assert(lo * lo <= r * r) by (nonlinear_arith)
        requires
            0 <= lo <= r,
    ;
    assert((r + 1) * (r + 1) <= hi * hi) by (nonlinear_arith)
        requires
            0 <= r + 1 <= hi,
    ;
}

fn part(a: Nm, b: Nm, k: i128, n: i128) -> (r: Nm)
    requires
        -COORD_LIMIT < a < COORD_LIMIT,
        -COORD_LIMIT < b < COORD_LIMIT,
        0 <= k <= n <= 0xc000_0000_0000_0000,
    ensures
        r == nearest_signed(a * (n + 1) + (b - a) * k, n + 1),
        r == nearest_signed(a * (n + 1) + (b - a) * k, n + 1) as i64,
{
    let ghost num = a * (n + 1) + (b - a) * k;
    proof {
        let m = COORD_LIMIT as int;
        let l = 0xc000_0000_0000_0001int;
        assert(-(m * l) <= a * (n + 1) <= m * l) by (nonlinear_arith)
            requires
                -m <= a <= m,
                0 <= n + 1 <= l,
        ;
        assert(-(2 * (m * l)) <= (b - a) * k <= 2 * (m * l)) by (nonlinear_arith)
            requires
                -m <= a <= m,
                -m <= b <= m,
                0 <= k <= l,
        ;
        assert(m * l <= 0x3000_0000_0000_0000_4000_0000_0000_0000) by (nonlinear_arith)
            requires
                m == 0x4000_0000_0000_0000int,
                l == 0xc000_0000_0000_0001int,
        ;
        let lo = if a <= b { a as int } else { b as int };
        let hi = if a <= b { b as int } else { a as int };
        assert(lo * (n + 1) <= num <= hi * (n + 1)) by (nonlinear_arith)
            requires
                num == a * (n + 1) + (b - a) * k,
                0 <= k <= n,
                (lo == a && hi == b && a <= b) || (lo == b && hi == a && b < a),
        ;
        assert(-(m * l) <= lo * (n + 1) && hi * (n + 1) <= m * l) by (nonlinear_arith)
            requires
                -m <= lo <= m,
                -m <= hi <= m,
                0 <= n + 1 <= l,
        ;
        lemma_nearest_bounds(num, n + 1, lo, hi);
    }
    let first: i128 = (a as i128) * (n + 1);
    let rest: i128 = (b as i128 - a as i128) * k;
    div_round_nearest(first + rest, n + 1) as i64
}

fn push_edge(out: &mut Ring, a: P, b: P, seg_nm: Nm)
    requires
        seg_nm > 0,
        in_range(a),
        in_range(b),
    ensures
        final(out)@ == old(out)@ + cut_edge(a, b, seg_nm as int),
{
    let ghost start = out@;
    let d: i128 = jump2(a, b);
    assert(dist2(a, b) >= 0) by (nonlinear_arith);
    let root: u128 = floor_sqrt(d as u128);
    assert(root <= 0xffff_ffff_ffff_ffff);
    let n: u128 = root / (seg_nm as u128);
    proof {
        lemma_count_from_root(root as int, d as int, seg_nm as int, n as int);
        lemma_segment_count(n as int, a, b, seg_nm as int);
        assert(n <= root) by (nonlinear_arith)
            requires
                n == root / seg_nm as u128,
                seg_nm >= 1,
        ;
        lemma_root_small(root as int, d as int);
    }
    let ghost all = cut_edge(a, b, seg_nm as int);
    out.push(a);
    let mut k: u128 = 1;
    assert(out@ =~= start + all.take(1));
    while k <= n
        invariant
            1 <= k <= n + 1,
            n <= 0xc000_0000_0000_0000,
            n == whole_segments(a, b, seg_nm as int),
            all == cut_edge(a, b, seg_nm as int),
            in_range(a),
            in_range(b),
            out@ == start + all.take(k as int),
        decreases n + 1 - k,
    {
        let x: i64 = part(a.x, b.x, k as i128, n as i128);
        let y: i64 = part(a.y, b.y, k as i128, n as i128);
        out.push(P { x, y });
        assert(all[k as int] == (P { x, y }));
        assert(out@ =~= start + all.take(k + 1));
        k += 1;
    }
    assert(all.take(k as int) =~= all);
}

proof fn lemma_root_small(root: int, d: int)
    requires
        is_floor_root(root, d),
        d <= i128::MAX,
    ensures
        root <= 0xc000_0000_0000_0000,
{
    assert(root <= 0xc000_0000_0000_0000) by (nonlinear_arith)
        requires
            0 <= root,
            root * root <= 0x7fff_ffff_ffff_ffff_ffff_ffff_ffff_ffff,
    ;
}

/// Cut every edge of a closed ring into segments no longer than `seg_nm`, up
/// to the last one that would not be whole.
pub fn densify_ring(ring: &Ring, seg_nm: Nm) -> (r: Ring)
    requires
        seg_nm > 0,
        ring_in_range(ring@),
    ensures
        r@ == densified(ring@, seg_nm as int),
{
    let n: usize = ring.len();
    let mut out: Ring = Vec::new();
    if n < 2 {
        if n == 1 {
            out.push(ring[0]);
        }
        assert(out@ =~= ring@);
        return out;
    }
    let mut i: usize = 0;
    while i < n
        invariant
            i <= n == ring@.len(),
            seg_nm > 0,
            ring_in_range(ring@),
            out@ == cut_edges(ring@, seg_nm as int, i as nat),
        decreases n - i,
    {
        let b = if i + 1 == n {
            ring[0]
        } else {
            ring[i + 1]
        };
        assert(b == next(ring@, i as int));
        assert(in_range(ring@[i as int]) && in_range(next(ring@, i as int)));
        push_edge(&mut out, ring[i], b, seg_nm);
        i += 1;
    }
    out
}

/// The parts of a cut edge are no longer than a segment would be: one more
/// part than whole segments.
pub proof fn cut_edges_are_short(a: P, b: P, seg: int, k: int)
    requires
        seg > 0,
        is_segment_count(k, a, b, seg),
    ensures
        cut_edge(a, b, seg).len() == k + 1,
        cut_edge(a, b, seg)[0] == a,
        dist2(a, b) < ((k + 1) * seg) * ((k + 1) * seg),
{
    lemma_segment_count(k, a, b, seg);
}

/// The rings of a region, every edge cut.
pub open spec fn densified_rings(rings: Seq<Seq<P>>, seg: int) -> Seq<Seq<P>> {
    rings.map_values(|r: Seq<P>| densified(r, seg))
}

pub open spec fn densified_poly(p: PolyV, seg: int) -> PolyV {
    PolyV { outer: densified(p.outer, seg), holes: densified_rings(p.holes, seg) }
}

fn densify_poly(p: &Poly, seg_nm: Nm) -> (r: Poly)
    requires
        seg_nm > 0,
        poly_in_range(p.deep_view()),
    ensures
        r.deep_view() == densified_poly(p.deep_view(), seg_nm as int),
{
    let ghost hv = p.deep_view().holes;
    let outer = densify_ring(&p.outer, seg_nm);
    let mut holes: Vec<Ring> = Vec::new();
    let mut i: usize = 0;
    while i < p.holes.len()
        invariant
            i <= p.holes@.len(),
            seg_nm > 0,
            hv == p.deep_view().holes,
            rings_in_range(hv),
            holes.deep_view() =~= densified_rings(hv, seg_nm as int).take(i as int),
        decreases p.holes@.len() - i,
    {
        assert(ring_in_range(hv[i as int]) && hv[i as int] == p.holes@[i as int]@);
        let ghost before = holes.deep_view();
        let ring = densify_ring(&p.holes[i], seg_nm);
        let ghost view = ring@;
        holes.push(ring);
        assert(holes.deep_view() =~= before.push(view));
        assert(densified_rings(hv, seg_nm as int)[i as int] == view);
        i += 1;
    }
    assert(holes.deep_view() =~= densified_rings(hv, seg_nm as int));
    Poly { outer, holes }
}

/// Cut every edge of a region into segments.
pub fn densify_shapes(shapes: &[Poly], seg_nm: Nm) -> (r: Vec<Poly>)
    requires
        seg_nm > 0,
        polys_in_range(shapes.deep_view()),
    ensures
        r.deep_view() == shapes.deep_view().map_values(
            |p: PolyV| densified_poly(p, seg_nm as int),
        ),
{
    let ghost sv = shapes.deep_view();
    let ghost all = sv.map_values(|p: PolyV| densified_poly(p, seg_nm as int));
    let mut r: Vec<Poly> = Vec::new();
    let mut i: usize = 0;
    while i < shapes.len()
        invariant
            i <= shapes@.len(),
            seg_nm > 0,
            sv == shapes.deep_view(),
            all == sv.map_values(|p: PolyV| densified_poly(p, seg_nm as int)),
            polys_in_range(sv),
            r.deep_view() =~= all.take(i as int),
        decreases shapes@.len() - i,
    {
        assert(poly_in_range(sv[i as int]) && sv[i as int] == shapes@[i as int].deep_view());
        let p = densify_poly(&shapes[i], seg_nm);
        let ghost before = r.deep_view();
        let ghost view = p.deep_view();
        r.push(p);
        assert(r.deep_view() =~= before.push(view));
        assert(all[i as int] == view);
        i += 1;
    }
    assert(all.take(i as int) =~= all);
    r
}

/// A ring is cut edge by edge, in its order and round to its first vertex.
pub proof fn rings_are_cut_edge_by_edge(ring: Seq<P>, seg: int)
    requires
        ring.len() >= 2,
    ensures
        densified(ring, seg) == Seq::new(
            ring.len(),
            |i: int| cut_edge(
                ring[i],
                if i + 1 < ring.len() {
                    ring[i + 1]
                } else {
                    ring[0]
                },
                seg,
            ),
        ).flatten_alt(),
{
    lemma_cut_in_order(ring, seg, ring.len());
}

proof fn lemma_cut_in_order(ring: Seq<P>, seg: int, n: nat)
    requires
        n <= ring.len(),
    ensures
        cut_edges(ring, seg, n) == Seq::new(
            n,
            |i: int| cut_edge(
                ring[i],
                if i + 1 < ring.len() {
                    ring[i + 1]
                } else {
                    ring[0]
                },
                seg,
            ),
        ).flatten_alt(),
    decreases n,
{
    let all = Seq::new(
        n,
        |i: int| cut_edge(
            ring[i],
            if i + 1 < ring.len() {
                ring[i + 1]
            } else {
                ring[0]
            },
            seg,
        ),
    );
    if n > 0 {
        lemma_cut_in_order(ring, seg, (n - 1) as nat);
        assert(all.drop_last() =~= Seq::new(
            (n - 1) as nat,
            |i: int| cut_edge(
                ring[i],
                if i + 1 < ring.len() {
                    ring[i + 1]
                } else {
                    ring[0]
                },
                seg,
            ),
        ));
        assert(next(ring, n - 1) == if n < ring.len() {
            ring[n as int]
        } else {
            ring[0]
        });
    }
}

/// The points that cut an edge lie on it at equal distances, up to half a
/// nanometer.
pub proof fn cut_points_are_spread_evenly(a: P, b: P, seg: int, k: int, n: int)
    requires
        seg > 0,
        in_range(a),
        in_range(b),
        is_segment_count(n, a, b, seg),
        0 <= k <= n,
    ensures
        ({
            let p = cut_edge(a, b, seg)[k];
            &&& -(n + 1) <= 2 * ((n + 1) * p.x - ((n + 1 - k) * a.x + k * b.x)) <= n + 1
            &&& -(n + 1) <= 2 * ((n + 1) * p.y - ((n + 1 - k) * a.y + k * b.y)) <= n + 1
        }),
{
    lemma_segment_count(n, a, b, seg);
    lemma_part_spread(a.x as int, b.x as int, k, n);
    lemma_part_spread(a.y as int, b.y as int, k, n);
}

proof fn lemma_part_spread(a: int, b: int, k: int, n: int)
    requires
        -COORD_LIMIT <= a <= COORD_LIMIT,
        -COORD_LIMIT <= b <= COORD_LIMIT,
        0 <= k <= n,
    ensures
        ({
            let q = nearest_signed(a * (n + 1) + (b - a) * k, n + 1);
            &&& -COORD_LIMIT <= q <= COORD_LIMIT
            &&& -(n + 1) <= 2 * ((n + 1) * q - ((n + 1 - k) * a + k * b)) <= n + 1
            &&& k == 0 ==> (n + 1) * a - ((n + 1 - k) * a + k * b) == 0
        }),
{
    let v = a * (n + 1) + (b - a) * k;
    let q = nearest_signed(v, n + 1);
    nearest_is_close(v, n + 1);
    assert(v == (n + 1 - k) * a + k * b) by (nonlinear_arith)
        requires
            v == a * (n + 1) + (b - a) * k,
    ;
    assert(-COORD_LIMIT * (n + 1) <= v <= COORD_LIMIT * (n + 1)) by (nonlinear_arith)
        requires
            v == (n + 1 - k) * a + k * b,
            -COORD_LIMIT <= a <= COORD_LIMIT,
            -COORD_LIMIT <= b <= COORD_LIMIT,
            0 <= k <= n,
    ;
    assert(-COORD_LIMIT <= q <= COORD_LIMIT) by (nonlinear_arith)
        requires
            -COORD_LIMIT * (n + 1) <= v <= COORD_LIMIT * (n + 1),
            -(n + 1) <= 2 * (v - (n + 1) * q) <= n + 1,
            n >= 0,
    ;
    if k == 0 {
        assert((n + 1) * a - ((n + 1 - k) * a + k * b) == 0) by (nonlinear_arith)
            requires
                k == 0,
        ;
    }
}

/// A field reaches a twentieth of its span beyond its box, and no machine moves
/// more than ten meters from its origin.
pub proof fn fields_reach_a_twentieth_beyond(p: P, b: FieldBox)
    ensures
        in_field(p, b) <==> {
            let w = b.max.x - b.min.x;
            let h = b.max.y - b.min.y;
            &&& 20 * b.min.x - w <= 20 * p.x <= 20 * b.max.x + w
            &&& 20 * b.min.y - h <= 20 * p.y <= 20 * b.max.y + h
        },
        in_envelope(p) <==> -10_000_000_000 <= p.x <= 10_000_000_000 && -10_000_000_000 <= p.y
            <= 10_000_000_000,
{
}

} // verus!
