//! Geometry kernel: exact areas and boolean operations on polygons.
//!
//! Boolean operations go through the integer path of `i_overlay`, so
//! coordinates are never rounded on the way in. The results are normalized:
//! outer rings counter-clockwise, holes clockwise, no ring below three
//! vertices.
use vstd::prelude::*;
use crate::model::{clone_ring, lemma_ring_view, Nm, P, Poly, PolyV, Ring};

verus! {

broadcast use lemma_ring_view;

// ---------------------------------------------------------------------------
// Areas
// ---------------------------------------------------------------------------

/// The cross product of two position vectors.
pub open spec fn cross(a: P, b: P) -> int {
    a.x * b.y - b.x * a.y
}

/// The vertex after vertex `i` of a closed ring.
pub open spec fn next(s: Seq<P>, i: int) -> P {
    s[if i + 1 == s.len() { 0 } else { i + 1 }]
}

/// The shoelace sum of the first `n` edges of a closed ring.
pub open spec fn shoelace(s: Seq<P>, n: nat) -> int
    decreases n,
{
    if n == 0 {
        0
    } else {
        shoelace(s, (n - 1) as nat) + cross(s[n - 1], next(s, n - 1))
    }
}

/// Twice the signed area of a ring: positive when it runs counter-clockwise,
/// zero below three vertices.
pub open spec fn doubled_area(s: Seq<P>) -> int {
    if s.len() < 3 {
        0
    } else {
        shoelace(s, s.len())
    }
}

/// A value of the accumulator that sums areas.
pub open spec fn fits(v: int) -> bool {
    i128::MIN <= v <= i128::MAX
}

/// Every cross product and every partial sum of the shoelace formula fits the
/// accumulator.
#[verifier::opaque]
pub open spec fn area_fits(s: Seq<P>) -> bool {
    forall|i: int| #![trigger s[i]] 0 <= i < s.len() ==> fits(cross(s[i], next(s, i))) && fits(
        shoelace(s, (i + 1) as nat),
    )
}

/// Coordinates that differ from each other by less than the range of [`Nm`].
pub open spec fn in_range(p: P) -> bool {
    &&& -COORD_LIMIT < p.x < COORD_LIMIT
    &&& -COORD_LIMIT < p.y < COORD_LIMIT
}

/// Magnitude below which boolean operations take coordinates.
pub const COORD_LIMIT: Nm = 0x4000_0000_0000_0000;

pub open spec fn ring_in_range(s: Seq<P>) -> bool {
    forall|i: int| 0 <= i < s.len() ==> in_range(#[trigger] s[i])
}

pub open spec fn rings_in_range(rings: Seq<Seq<P>>) -> bool {
    forall|i: int| 0 <= i < rings.len() ==> ring_in_range(#[trigger] rings[i])
}

pub open spec fn poly_in_range(p: PolyV) -> bool {
    ring_in_range(p.outer) && rings_in_range(p.holes)
}

pub open spec fn polys_in_range(polys: Seq<PolyV>) -> bool {
    forall|i: int| 0 <= i < polys.len() ==> poly_in_range(#[trigger] polys[i])
}

/// The product of two coordinates, and the difference of two such products,
/// fit the accumulator.
proof fn lemma_product_fits(a: i64, b: i64)
    ensures
        fits(a * b),
        i64::MIN * i64::MAX <= a * b <= i64::MIN * i64::MIN,
{
    assert(i64::MIN * i64::MAX <= a * b <= i64::MIN * i64::MIN) by (nonlinear_arith)
        requires
            i64::MIN <= a <= i64::MAX,
            i64::MIN <= b <= i64::MAX,
    ;
}

/// Twice the signed shoelace area of `ring`.
pub fn ring_doubled_area(ring: &Ring) -> (area: i128)
    requires
        area_fits(ring@),
    ensures
        area == doubled_area(ring@),
{
    if ring.len() < 3 {
        return 0;
    }
    let mut sum: i128 = 0;
    let mut i: usize = 0;
    while i < ring.len()
        invariant
            i <= ring.len(),
            area_fits(ring@),
            sum == shoelace(ring@, i as nat),
        decreases ring.len() - i,
    {
        let a = ring[i];
        let b = if i + 1 == ring.len() {
            ring[0]
        } else {
            ring[i + 1]
        };
        proof {
            reveal(area_fits);
            lemma_product_fits(a.x, b.y);
            lemma_product_fits(b.x, a.y);
            assert(fits(cross(ring@[i as int], next(ring@, i as int))));
        }
        let term: i128 = (a.x as i128) * (b.y as i128) - (b.x as i128) * (a.y as i128);
        sum = sum + term;
        i += 1;
    }
    sum
}

/// The area sum of the first `n` rings of a list, doubled.
pub open spec fn rings_area(rings: Seq<Seq<P>>, n: nat) -> int
    decreases n,
{
    if n == 0 {
        0
    } else {
        rings_area(rings, (n - 1) as nat) + doubled_area(rings[n - 1])
    }
}

/// Every ring's area, and every partial sum starting from `from`, fits the
/// accumulator.
pub open spec fn rings_area_fits(rings: Seq<Seq<P>>, from: int) -> bool {
    forall|i: int|
        #![trigger rings[i]]
        0 <= i < rings.len() ==> area_fits(rings[i]) && fits(from + rings_area(rings, (i + 1) as nat))
}

/// Net doubled area of a set of loops; holes subtract by orientation.
pub fn loops_doubled_area(loops: &[Ring], from: i128) -> (area: i128)
    requires
        rings_area_fits(loops.deep_view(), from as int),
    ensures
        area == from + rings_area(loops.deep_view(), loops@.len()),
{
    let mut sum: i128 = from;
    let mut i: usize = 0;
    while i < loops.len()
        invariant
            i <= loops.len(),
            rings_area_fits(loops.deep_view(), from as int),
            sum == from + rings_area(loops.deep_view(), i as nat),
        decreases loops.len() - i,
    {
        assert(loops.deep_view()[i as int] == loops@[i as int]@);
        let a: i128 = ring_doubled_area(&loops[i]);
        sum = sum + a;
        i += 1;
    }
    sum
}

/// Twice the signed area of a polygon; clockwise holes subtract.
pub open spec fn poly_area(p: PolyV) -> int {
    doubled_area(p.outer) + rings_area(p.holes, p.holes.len())
}

pub open spec fn poly_area_fits(p: PolyV) -> bool {
    area_fits(p.outer) && rings_area_fits(p.holes, doubled_area(p.outer))
}

/// Twice the signed area of one polygon: the outer ring plus the (negative,
/// by convention) holes.
pub fn poly_doubled_area(p: &Poly) -> (area: i128)
    requires
        poly_area_fits(p.deep_view()),
    ensures
        area == poly_area(p.deep_view()),
{
    let outer: i128 = ring_doubled_area(&p.outer);
    loops_doubled_area(p.holes.as_slice(), outer)
}

/// Twice the signed area of a ring, unless it exceeds the accumulator.
fn try_ring_area(ring: &Ring) -> (area: Option<i128>)
    ensures
        area is Some <==> area_fits(ring@),
        area matches Some(v) ==> v == doubled_area(ring@),
{
    let mut sum: i128 = 0;
    let n: usize = ring.len();
    let mut i: usize = 0;
    while i < n
        invariant
            i <= n == ring@.len(),
            sum == shoelace(ring@, i as nat),
            forall|k: int|
                #![trigger ring@[k]]
                0 <= k < i ==> fits(cross(ring@[k], next(ring@, k))) && fits(
                    shoelace(ring@, (k + 1) as nat),
                ),
        decreases n - i,
    {
        let a = ring[i];
        let b = if i + 1 == n {
            ring[0]
        } else {
            ring[i + 1]
        };
        proof {
            reveal(area_fits);
            lemma_product_fits(a.x, b.y);
            lemma_product_fits(b.x, a.y);
        }
        let term: i128 = (a.x as i128) * (b.y as i128) - (b.x as i128) * (a.y as i128);
        assert(term == cross(ring@[i as int], next(ring@, i as int)));
        match sum.checked_add(term) {
            Some(v) => {
                sum = v;
            },
            None => {
                assert(!fits(shoelace(ring@, (i + 1) as nat)));
                assert(!area_fits(ring@)) by {
                    let p = ring@[i as int];
                }
                return None;
            },
        }
        i += 1;
    }
    assert(area_fits(ring@)) by {
        reveal(area_fits);
    }
    if n < 3 {
        Some(0)
    } else {
        Some(sum)
    }
}

/// Twice the signed area of one polygon, unless it exceeds the accumulator.
pub fn try_poly_area(p: &Poly) -> (area: Option<i128>)
    ensures
        area is Some <==> poly_area_fits(p.deep_view()),
        area matches Some(v) ==> v == poly_area(p.deep_view()),
{
    let ghost pv = p.deep_view();
    let outer: i128 = match try_ring_area(&p.outer) {
        Some(v) => v,
        None => {
            return None;
        },
    };
    let mut sum: i128 = outer;
    let mut i: usize = 0;
    while i < p.holes.len()
        invariant
            i <= p.holes@.len(),
            pv == p.deep_view(),
            outer == doubled_area(pv.outer),
            sum == outer + rings_area(pv.holes, i as nat),
            forall|k: int|
                #![trigger pv.holes[k]]
                0 <= k < i ==> area_fits(pv.holes[k]) && fits(
                    outer + rings_area(pv.holes, (k + 1) as nat),
                ),
        decreases p.holes@.len() - i,
    {
        assert(pv.holes[i as int] == p.holes@[i as int]@);
        match try_ring_area(&p.holes[i]) {
            Some(a) => {
                match sum.checked_add(a) {
                    Some(v) => {
                        sum = v;
                    },
                    None => {
                        assert(!fits(outer + rings_area(pv.holes, (i + 1) as nat)));
                        return None;
                    },
                }
            },
            None => {
                return None;
            },
        }
        i += 1;
    }
    Some(sum)
}

/// The area sum of the first `n` polygons, doubled.
pub open spec fn polys_area(polys: Seq<PolyV>, n: nat) -> int
    decreases n,
{
    if n == 0 {
        0
    } else {
        polys_area(polys, (n - 1) as nat) + poly_area(polys[n - 1])
    }
}

pub open spec fn polys_area_fits(polys: Seq<PolyV>) -> bool {
    forall|i: int|
        #![trigger polys[i]]
        0 <= i < polys.len() ==> poly_area_fits(polys[i]) && fits(polys_area(polys, (i + 1) as nat))
}

/// Twice the total signed area of `polys`, in square nanometers.
pub fn doubled_area_nm2(polys: &[Poly]) -> (area: i128)
    requires
        polys_area_fits(polys.deep_view()),
    ensures
        area == polys_area(polys.deep_view(), polys@.len()),
{
    let mut sum: i128 = 0;
    let mut i: usize = 0;
    while i < polys.len()
        invariant
            i <= polys.len(),
            polys_area_fits(polys.deep_view()),
            sum == polys_area(polys.deep_view(), i as nat),
        decreases polys.len() - i,
    {
        assert(polys.deep_view()[i as int] == polys@[i as int].deep_view());
        let a: i128 = poly_doubled_area(&polys[i]);
        sum = sum + a;
        i += 1;
    }
    sum
}

/// Partial shoelace sums of a reversed ring walk the original backwards.
proof fn lemma_shoelace_reversed(s: Seq<P>, k: nat)
    requires
        s.len() >= 2,
        k < s.len(),
    ensures
        shoelace(s.reverse(), k) == shoelace(s, (s.len() - 1 - k) as nat) - shoelace(
            s,
            (s.len() - 1) as nat,
        ),
    decreases k,
{
    if k > 0 {
        lemma_shoelace_reversed(s, (k - 1) as nat);
        let n = s.len() as int;
        let a = s[n - k];
        let b = s[n - 1 - k];
        assert(s.reverse()[k - 1] == a);
        assert(next(s.reverse(), k - 1) == b);
        assert(next(s, n - 1 - k) == a);
        assert(cross(a, b) == -cross(b, a)) by (nonlinear_arith);
        assert(shoelace(s, (n - k) as nat) == shoelace(s, (n - 1 - k) as nat) + cross(b, a));
    }
}

/// Walking a ring backwards negates its area.
pub proof fn reversal_negates_area(s: Seq<P>)
    ensures
        doubled_area(s.reverse()) == -doubled_area(s),
{
    if s.len() >= 3 {
        let n = s.len();
        lemma_shoelace_reversed(s, (n - 1) as nat);
        let a = s[0];
        let b = s[n - 1];
        assert(s.reverse()[n - 1] == a);
        assert(next(s.reverse(), n - 1) == b);
        assert(next(s, n - 1) == a);
        assert(cross(a, b) == -cross(b, a)) by (nonlinear_arith);
        assert(shoelace(s, 0) == 0);
    }
}

/// Twice the signed area of a triangle, from the coordinates of its corners.
pub open spec fn triangle(a: P, b: P, c: P) -> int {
    (b.x - a.x) * (c.y - a.y) - (c.x - a.x) * (b.y - a.y)
}

proof fn lemma_shoelace_head(s: Seq<P>, p: P, n: nat)
    requires
        n < s.len(),
    ensures
        shoelace(s.push(p), n) == shoelace(s, n),
    decreases n,
{
    if n > 0 {
        lemma_shoelace_head(s, p, (n - 1) as nat);
        assert(s.push(p)[n - 1] == s[n - 1]);
        assert(next(s.push(p), n - 1) == s[n as int]);
        assert(next(s, n - 1) == s[n as int]);
    }
}

proof fn lemma_cross_triangle(lx: int, ly: int, px: int, py: int, fx: int, fy: int)
    ensures
        (lx * py - px * ly) + (px * fy - fx * py) - (lx * fy - fx * ly) == (px - lx) * (fy - ly) - (fx
            - lx) * (py - ly),
{
    assert((px - lx) * (fy - ly) == px * fy - px * ly - lx * fy + lx * ly) by (nonlinear_arith);
    assert((fx - lx) * (py - ly) == fx * py - fx * ly - lx * py + lx * ly) by (nonlinear_arith);
}

/// The area of a ring is made of triangles: one more vertex adds the triangle
/// between its neighbors and itself, and a ring of two vertices has none.
pub proof fn area_adds_triangles(s: Seq<P>, p: P)
    requires
        s.len() >= 2,
    ensures
        doubled_area(s.push(p)) == doubled_area(s) + triangle(s.last(), p, s[0]),
        s.len() == 2 ==> doubled_area(s) == 0,
{
    let n = s.len();
    let t = s.push(p);
    lemma_shoelace_head(s, p, (n - 1) as nat);
    let l = s.last();
    let f = s[0];
    assert(t[n - 1] == l && next(t, n - 1) == p);
    assert(t[n as int] == p && next(t, n as int) == f);
    assert(next(s, n - 1) == f);
    assert(shoelace(t, n) == shoelace(t, (n - 1) as nat) + cross(l, p));
    assert(shoelace(t, n + 1) == shoelace(t, n) + cross(p, f));
    assert(shoelace(s, n) == shoelace(s, (n - 1) as nat) + cross(l, f));
    lemma_cross_triangle(l.x as int, l.y as int, p.x as int, p.y as int, f.x as int, f.y as int);
    if n == 2 {
        reveal_with_fuel(shoelace, 3);
        assert(next(s, 0) == l);
        assert(cross(f, l) + cross(l, f) == 0) by (nonlinear_arith);
    }
}

/// The area of a polygon is that of its rings together: each hole adds its own,
/// which counts against the outer ring where it runs the other way.
pub proof fn holes_add_their_area(outer: Seq<P>, holes: Seq<Seq<P>>, hole: Seq<P>)
    ensures
        poly_area(PolyV { outer, holes: Seq::empty() }) == doubled_area(outer),
        poly_area(PolyV { outer, holes: holes.push(hole) }) == poly_area(PolyV { outer, holes })
            + doubled_area(hole),
{
    lemma_rings_area_head(holes, hole, holes.len());
}

proof fn lemma_rings_area_head(rings: Seq<Seq<P>>, ring: Seq<P>, n: nat)
    requires
        n <= rings.len(),
    ensures
        rings_area(rings.push(ring), n) == rings_area(rings, n),
    decreases n,
{
    if n > 0 {
        lemma_rings_area_head(rings, ring, (n - 1) as nat);
        assert(rings.push(ring)[n - 1] == rings[n - 1]);
    }
}

/// The area of a job is that of its polygons together.
pub proof fn polygons_add_their_area(polys: Seq<PolyV>, p: PolyV)
    ensures
        polys_area(Seq::empty(), 0) == 0,
        polys_area(polys.push(p), polys.len() + 1) == polys_area(polys, polys.len()) + poly_area(p),
{
    lemma_polys_area_head(polys, p, polys.len());
}

proof fn lemma_polys_area_head(polys: Seq<PolyV>, p: PolyV, n: nat)
    requires
        n <= polys.len(),
    ensures
        polys_area(polys.push(p), n) == polys_area(polys, n),
    decreases n,
{
    if n > 0 {
        lemma_polys_area_head(polys, p, (n - 1) as nat);
        assert(polys.push(p)[n - 1] == polys[n - 1]);
    }
}

// ---------------------------------------------------------------------------
// Boolean machinery
// ---------------------------------------------------------------------------

/// The part a contour plays in a boolean operation.
#[derive(Debug, Clone, Copy, PartialEq, Eq, Structural)]
pub enum Role {
    Subject,
    Clip,
}

/// Which combination of subject and clip is kept.
#[derive(Debug, Clone, Copy, PartialEq, Eq, Structural)]
pub enum BoolOp {
    Subject,
    Intersect,
    Union,
    Difference,
    Xor,
}

/// Which winding numbers count as inside.
#[derive(Debug, Clone, Copy, PartialEq, Eq, Structural)]
pub enum Fill {
    NonZero,
    Positive,
}

/// Edges that room is made for in advance, at most.
pub const MAX_CAPACITY: usize = 0x100_0000;

/// A point count as a buffer size.
fn as_capacity(n: usize) -> (c: usize)
    ensures
        c <= MAX_CAPACITY,
        n <= MAX_CAPACITY ==> c == n,
{
    if n > MAX_CAPACITY {
        MAX_CAPACITY
    } else {
        n
    }
}

/// A boolean operation under construction, held by `i_overlay`.
#[verifier::external_body]
pub struct Clipper {
    overlay: i_overlay::core::overlay::Overlay<i64>,
}

/// The contours added to a [`Clipper`] so far, in order.
pub uninterp spec fn contours_of(clipper: Clipper) -> Seq<(Role, Seq<P>)>;

/// The shapes that `i_overlay::core::overlay::Overlay::overlay` extracts from
/// a list of contours: each shape is an outer contour followed by its holes.
pub uninterp spec fn overlay_shapes(contours: Seq<(Role, Seq<P>)>, op: BoolOp, fill: Fill) -> Seq<
    Seq<Seq<P>>,
>;

pub open spec fn contours_in_range(contours: Seq<(Role, Seq<P>)>) -> bool {
    forall|i: int| 0 <= i < contours.len() ==> ring_in_range((#[trigger] contours[i]).1)
}

/// A shape as the kernel hands it out: an outer contour, counter-clockwise,
/// then holes, clockwise, none below three vertices, all coordinates in
/// range.
pub open spec fn shape_normalized(shape: Seq<Seq<P>>) -> bool {
    &&& shape.len() >= 1
    &&& doubled_area(shape[0]) > 0
    &&& forall|i: int| 1 <= i < shape.len() ==> doubled_area(#[trigger] shape[i]) < 0
    &&& forall|i: int|
        0 <= i < shape.len() ==> (#[trigger] shape[i]).len() >= 3 && ring_in_range(shape[i])
}

/// The contours that play a part, in order.
pub open spec fn in_part(contours: Seq<(Role, Seq<P>)>, role: Role) -> Seq<Seq<P>>
    decreases contours.len(),
{
    if contours.len() == 0 {
        Seq::empty()
    } else {
        let before = in_part(contours.drop_last(), role);
        if contours.last().0 == role {
            before.push(contours.last().1)
        } else {
            before
        }
    }
}

/// Contours that all play one part.
pub open spec fn cast_as(rings: Seq<Seq<P>>, role: Role) -> Seq<(Role, Seq<P>)> {
    rings.map_values(|r: Seq<P>| (role, r))
}

impl Clipper {
    /// `i_overlay::core::overlay::Overlay::new`: an operation with no contours
    /// yet. The capacity only sizes a buffer of edges, which must fit in
    /// memory.
    #[verifier::external_body]
    fn new(capacity: usize) -> (c: Self)
        requires
            capacity <= MAX_CAPACITY,
        ensures
            contours_of(c) == Seq::<(Role, Seq<P>)>::empty(),
    {
        Clipper { overlay: i_overlay::core::overlay::Overlay::new(capacity) }
    }

    /// `i_overlay::core::overlay::Overlay::add_contour`: one more closed
    /// contour, behind those already there. Points between collinear edges are
    /// dropped on the way in; the differences of neighboring coordinates and
    /// their products must fit the kernel's integers, hence the bound on the
    /// contour.
    #[verifier::external_body]
    fn add_contour(&mut self, contour: &Ring, role: Role)
        requires
            ring_in_range(contour@),
        ensures
            contours_of(*final(self)) == contours_of(*old(self)).push((role, contour@)),
    {
        let points: Vec<i_overlay::i_float::int::point::IntPoint<i64>> = contour.iter().map(
            |p| i_overlay::i_float::int::point::IntPoint::new(p.x, p.y),
        ).collect();
        let shape_type = match role {
            Role::Subject => i_overlay::core::overlay::ShapeType::Subject,
            Role::Clip => i_overlay::core::overlay::ShapeType::Clip,
        };
        self.overlay.add_contour(&points, shape_type);
    }

    /// `i_overlay::core::overlay::Overlay::overlay`: the shapes that the rule
    /// keeps. They are a function of the contours, the rule and the fill rule.
    /// The first contour of a shape is its outer boundary and runs
    /// counter-clockwise; the others are holes and run clockwise; contours
    /// below three points are dropped. Output points are input points or
    /// rounded crossings of input edges, so they stay in the input's range.
    /// Edges are sorted and equal ones merged, and each carries how often it
    /// winds for the subject and for the clip; so the order of the contours
    /// does not matter, all rules but the difference treat both parts alike,
    /// and where the parts are equal, or there is no clip, what a rule keeps is
    /// nothing or the subject. Coordinate differences and their products must
    /// fit the kernel's integers, hence the bound on the input. The call splits
    /// the held edges in place; nothing is said of the operation afterwards.
    #[verifier::external_body]
    fn overlay(&mut self, op: BoolOp, fill: Fill) -> (shapes: Vec<Vec<Ring>>)
        requires
            contours_in_range(contours_of(*old(self))),
        ensures
            shapes.deep_view() == overlay_shapes(contours_of(*old(self)), op, fill),
            forall|i: int|
                0 <= i < shapes@.len() ==> shape_normalized(#[trigger] shapes.deep_view()[i]),
            op == BoolOp::Union || op == BoolOp::Intersect || op == BoolOp::Xor
                ==> shapes.deep_view() == overlay_shapes(
                cast_as(in_part(contours_of(*old(self)), Role::Clip), Role::Subject) + cast_as(
                    in_part(contours_of(*old(self)), Role::Subject),
                    Role::Clip,
                ),
                op,
                fill,
            ),
            in_part(contours_of(*old(self)), Role::Subject) == in_part(
                contours_of(*old(self)),
                Role::Clip,
            ) ==> match op {
                BoolOp::Difference | BoolOp::Xor => shapes@.len() == 0,
                _ => shapes.deep_view() == overlay_shapes(
                    cast_as(in_part(contours_of(*old(self)), Role::Subject), Role::Subject),
                    BoolOp::Subject,
                    fill,
                ),
            },
            in_part(contours_of(*old(self)), Role::Clip).len() == 0 ==> match op {
                BoolOp::Intersect => shapes@.len() == 0,
                _ => shapes.deep_view() == overlay_shapes(
                    cast_as(in_part(contours_of(*old(self)), Role::Subject), Role::Subject),
                    BoolOp::Subject,
                    fill,
                ),
            },
    {
        let rule = match op {
            BoolOp::Subject => i_overlay::core::overlay_rule::OverlayRule::Subject,
            BoolOp::Intersect => i_overlay::core::overlay_rule::OverlayRule::Intersect,
            BoolOp::Union => i_overlay::core::overlay_rule::OverlayRule::Union,
            BoolOp::Difference => i_overlay::core::overlay_rule::OverlayRule::Difference,
            BoolOp::Xor => i_overlay::core::overlay_rule::OverlayRule::Xor,
        };
        let fill_rule = match fill {
            Fill::NonZero => i_overlay::core::fill_rule::FillRule::NonZero,
            Fill::Positive => i_overlay::core::fill_rule::FillRule::Positive,
        };
        let shapes = self.overlay.overlay(rule, fill_rule).into_iter();
        shapes.map(
            |s| s.into_iter().map(|c| c.iter().map(|q| P { x: q.x, y: q.y }).collect()).collect(),
        ).collect()
    }
}

/// The rings of one polygon that take part in an operation: none if the outer
/// ring is degenerate, else the outer ring and every hole of at least three
/// vertices.
pub open spec fn poly_contours(p: PolyV, role: Role) -> Seq<(Role, Seq<P>)> {
    if p.outer.len() < 3 {
        Seq::empty()
    } else {
        seq![(role, p.outer)] + hole_contours(p.holes, role)
    }
}

pub open spec fn hole_contours(holes: Seq<Seq<P>>, role: Role) -> Seq<(Role, Seq<P>)>
    decreases holes.len(),
{
    if holes.len() == 0 {
        Seq::empty()
    } else {
        let before = hole_contours(holes.drop_last(), role);
        if holes.last().len() >= 3 {
            before.push((role, holes.last()))
        } else {
            before
        }
    }
}

/// The contours of a list of polygons, in order.
pub open spec fn polys_contours(polys: Seq<PolyV>, role: Role) -> Seq<(Role, Seq<P>)>
    decreases polys.len(),
{
    if polys.len() == 0 {
        Seq::empty()
    } else {
        polys_contours(polys.drop_last(), role) + poly_contours(polys.last(), role)
    }
}

/// Shapes read as polygons; empty shapes vanish.
pub open spec fn polys_of(shapes: Seq<Seq<Seq<P>>>) -> Seq<PolyV>
    decreases shapes.len(),
{
    if shapes.len() == 0 {
        Seq::empty()
    } else {
        let before = polys_of(shapes.drop_last());
        if shapes.last().len() == 0 {
            before
        } else {
            before.push(PolyV { outer: shapes.last()[0], holes: shapes.last().skip(1) })
        }
    }
}

/// Vertices of a list of rings.
pub open spec fn rings_points(rings: Seq<Seq<P>>) -> nat
    decreases rings.len(),
{
    if rings.len() == 0 {
        0
    } else {
        rings_points(rings.drop_last()) + rings.last().len()
    }
}

/// Vertices of a list of polygons.
pub open spec fn points(polys: Seq<PolyV>) -> nat
    decreases polys.len(),
{
    if polys.len() == 0 {
        0
    } else {
        points(polys.drop_last()) + polys.last().outer.len() + rings_points(polys.last().holes)
    }
}

/// The value of a boolean operation on two regions.
pub open spec fn boolean_of(subj: Seq<PolyV>, clip: Seq<PolyV>, op: BoolOp) -> Seq<PolyV> {
    if points(subj) + points(clip) == 0 {
        Seq::empty()
    } else {
        polys_of(
            overlay_shapes(
                polys_contours(subj, Role::Subject) + polys_contours(clip, Role::Clip),
                op,
                Fill::NonZero,
            ),
        )
    }
}

/// The output convention: outer rings counter-clockwise, holes clockwise, no
/// ring below three vertices.
pub open spec fn poly_normalized(p: PolyV) -> bool {
    &&& p.outer.len() >= 3
    &&& doubled_area(p.outer) > 0
    &&& forall|i: int|
        0 <= i < p.holes.len() ==> (#[trigger] p.holes[i]).len() >= 3 && doubled_area(p.holes[i])
            < 0
}

pub open spec fn normalized(polys: Seq<PolyV>) -> bool {
    forall|i: int| 0 <= i < polys.len() ==> poly_normalized(#[trigger] polys[i])
}

/// Polygons read off normalized shapes follow the output convention.
proof fn lemma_polys_of_normalized(shapes: Seq<Seq<Seq<P>>>)
    requires
        forall|i: int| 0 <= i < shapes.len() ==> shape_normalized(#[trigger] shapes[i]),
    ensures
        normalized(polys_of(shapes)),
        polys_in_range(polys_of(shapes)),
    decreases shapes.len(),
{
    if shapes.len() > 0 {
        let before = shapes.drop_last();
        assert forall|i: int| 0 <= i < before.len() implies shape_normalized(
            #[trigger] before[i],
        ) by {
            assert(before[i] == shapes[i]);
        }
        lemma_polys_of_normalized(before);
        let last = shapes.last();
        assert(shape_normalized(shapes[shapes.len() - 1]));
        let p = PolyV { outer: last[0], holes: last.skip(1) };
        assert forall|i: int| 0 <= i < p.holes.len() implies (#[trigger] p.holes[i]).len() >= 3
            && doubled_area(p.holes[i]) < 0 && ring_in_range(p.holes[i]) by {
            assert(p.holes[i] == last[i + 1]);
        }
        assert(last[0].len() >= 3);
        assert(poly_normalized(p) && poly_in_range(p));
    }
}

/// A count, held at the largest one the machine has.
pub open spec fn capped(n: nat) -> nat {
    if n > usize::MAX {
        usize::MAX as nat
    } else {
        n
    }
}

/// The sum of two counts, held at the largest.
fn count_up(a: usize, b: usize) -> (n: usize)
    ensures
        n == capped((a + b) as nat),
{
    if b > usize::MAX - a {
        usize::MAX
    } else {
        a + b
    }
}

/// Number of vertices in a list of rings.
fn ring_point_count(rings: &[Ring], from: usize) -> (n: usize)
    ensures
        n == capped((from + rings_points(rings.deep_view())) as nat),
{
    let ghost rv = rings.deep_view();
    let mut n: usize = from;
    let mut k: usize = 0;
    while k < rings.len()
        invariant
            k <= rings.len(),
            rv == rings.deep_view(),
            n == capped((from + rings_points(rv.take(k as int))) as nat),
        decreases rings.len() - k,
    {
        assert(rv.take(k + 1).drop_last() =~= rv.take(k as int));
        n = count_up(n, rings[k].len());
        k += 1;
    }
    assert(rv.take(k as int) =~= rv);
    n
}

/// Number of vertices in `polys`, all rings counted.
pub fn point_count(polys: &[Poly]) -> (n: usize)
    ensures
        n == capped(points(polys.deep_view())),
{
    let mut n: usize = 0;
    let mut i: usize = 0;
    let ghost all = polys.deep_view();
    while i < polys.len()
        invariant
            i <= polys.len(),
            all == polys.deep_view(),
            n == capped(points(all.take(i as int))),
        decreases polys.len() - i,
    {
        proof {
            assert(all.take(i + 1).drop_last() =~= all.take(i as int));
            assert(all[i as int] == polys@[i as int].deep_view());
        }
        n = count_up(n, polys[i].outer.len());
        n = ring_point_count(polys[i].holes.as_slice(), n);
        i += 1;
    }
    assert(all.take(i as int) =~= all);
    n
}

/// Add the rings of one polygon to an operation. A polygon with a degenerate
/// outer ring has no area and adds nothing; degenerate holes are skipped.
fn add_poly(clipper: &mut Clipper, p: &Poly, role: Role)
    requires
        poly_in_range(p.deep_view()),
    ensures
        contours_of(*final(clipper)) == contours_of(*old(clipper)) + poly_contours(
            p.deep_view(),
            role,
        ),
{
    let ghost start = contours_of(*clipper);
    if p.outer.len() < 3 {
        assert(start + poly_contours(p.deep_view(), role) =~= start);
        return;
    }
    clipper.add_contour(&p.outer, role);
    let ghost hv = p.holes.deep_view();
    let ghost head = start.push((role, p.outer@));
    let mut i: usize = 0;
    assert(contours_of(*clipper) =~= head + hole_contours(hv.take(0), role));
    while i < p.holes.len()
        invariant
            i <= p.holes.len(),
            hv == p.holes.deep_view(),
            rings_in_range(hv),
            contours_of(*clipper) == head + hole_contours(hv.take(i as int), role),
        decreases p.holes.len() - i,
    {
        let ghost before = contours_of(*clipper);
        proof {
            assert(hv.take(i + 1).drop_last() =~= hv.take(i as int));
            assert(ring_in_range(hv[i as int]));
        }
        if p.holes[i].len() >= 3 {
            clipper.add_contour(&p.holes[i], role);
        }
        assert(contours_of(*clipper) =~= head + hole_contours(hv.take(i + 1), role));
        i += 1;
    }
    assert(hv.take(i as int) =~= hv);
    assert(contours_of(*clipper) =~= start + poly_contours(p.deep_view(), role));
}

/// Shapes as polygons: the first contour of each is the outer ring, the rest
/// are its holes.
pub fn shapes_to_polys(shapes: Vec<Vec<Ring>>) -> (polys: Vec<Poly>)
    ensures
        polys.deep_view() == polys_of(shapes.deep_view()),
{
    let mut polys: Vec<Poly> = Vec::new();
    let ghost all = shapes.deep_view();
    let mut i: usize = 0;
    while i < shapes.len()
        invariant
            i <= shapes.len(),
            all == shapes.deep_view(),
            polys.deep_view() == polys_of(all.take(i as int)),
        decreases shapes.len() - i,
    {
        proof {
            assert(all.take(i + 1).drop_last() =~= all.take(i as int));
            assert(all[i as int] == shapes@[i as int].deep_view());
        }
        let ghost before = polys.deep_view();
        let shape = &shapes[i];
        if shape.len() > 0 {
            let outer = clone_ring(&shape[0]);
            let mut holes: Vec<Ring> = Vec::new();
            let mut k: usize = 1;
            while k < shape.len()
                invariant
                    1 <= k <= shape.len(),
                    holes.len() == k - 1,
                    forall|j: int| 0 <= j < k - 1 ==> (#[trigger] holes@[j])@ == shape@[j + 1]@,
                decreases shape.len() - k,
            {
                let h = clone_ring(&shape[k]);
                holes.push(h);
                k += 1;
            }
            assert(holes.deep_view() =~= shape.deep_view().skip(1));
            polys.push(Poly { outer, holes });
            assert(polys.deep_view() =~= before.push(
                PolyV { outer: all[i as int][0], holes: all[i as int].skip(1) },
            ));
        }
        i += 1;
    }
    assert(all.take(i as int) =~= all);
    polys
}

proof fn lemma_contours_in_range(polys: Seq<PolyV>, role: Role)
    requires
        polys_in_range(polys),
    ensures
        contours_in_range(polys_contours(polys, role)),
    decreases polys.len(),
{
    if polys.len() > 0 {
        let before = polys.drop_last();
        assert forall|i: int| 0 <= i < before.len() implies poly_in_range(#[trigger] before[i]) by {
            assert(before[i] == polys[i]);
        }
        lemma_contours_in_range(before, role);
        assert(poly_in_range(polys[polys.len() - 1]));
        lemma_hole_contours_in_range(polys.last().holes, role);
    }
}

proof fn lemma_hole_contours_in_range(holes: Seq<Seq<P>>, role: Role)
    requires
        rings_in_range(holes),
    ensures
        contours_in_range(hole_contours(holes, role)),
    decreases holes.len(),
{
    if holes.len() > 0 {
        let before = holes.drop_last();
        assert forall|i: int| 0 <= i < before.len() implies ring_in_range(#[trigger] before[i]) by {
            assert(before[i] == holes[i]);
        }
        lemma_hole_contours_in_range(before, role);
        assert(ring_in_range(holes[holes.len() - 1]));
    }
}

/// The rings of a list of polygons that take part in an operation.
spec fn taking_part(polys: Seq<PolyV>) -> Seq<Seq<P>> {
    polys_contours(polys, Role::Subject).map_values(|c: (Role, Seq<P>)| c.1)
}

proof fn lemma_holes_cast(holes: Seq<Seq<P>>, role: Role)
    ensures
        hole_contours(holes, role) == cast_as(
            hole_contours(holes, Role::Subject).map_values(|c: (Role, Seq<P>)| c.1),
            role,
        ),
    decreases holes.len(),
{
    let f = |c: (Role, Seq<P>)| c.1;
    if holes.len() > 0 {
        lemma_holes_cast(holes.drop_last(), role);
        assert(hole_contours(holes, role) =~= cast_as(
            hole_contours(holes, Role::Subject).map_values(f),
            role,
        ));
    } else {
        assert(hole_contours(holes, role) =~= cast_as(
            hole_contours(holes, Role::Subject).map_values(f),
            role,
        ));
    }
}

/// The rings that take part do not depend on the part.
proof fn lemma_cast(polys: Seq<PolyV>, role: Role)
    ensures
        polys_contours(polys, role) == cast_as(taking_part(polys), role),
    decreases polys.len(),
{
    if polys.len() > 0 {
        lemma_cast(polys.drop_last(), role);
        lemma_holes_cast(polys.last().holes, role);
    }
    assert(polys_contours(polys, role) =~= cast_as(taking_part(polys), role));
}

proof fn lemma_part_of_cast(rings: Seq<Seq<P>>, role: Role, asked: Role)
    ensures
        in_part(cast_as(rings, role), asked) == if role == asked {
            rings
        } else {
            Seq::empty()
        },
    decreases rings.len(),
{
    if rings.len() > 0 {
        lemma_part_of_cast(rings.drop_last(), role, asked);
        assert(cast_as(rings, role).drop_last() =~= cast_as(rings.drop_last(), role));
        assert(rings =~= rings.drop_last().push(rings.last()));
    } else {
        assert(rings =~= Seq::<Seq<P>>::empty());
    }
}

proof fn lemma_part_of_concat(a: Seq<(Role, Seq<P>)>, b: Seq<(Role, Seq<P>)>, role: Role)
    ensures
        in_part(a + b, role) == in_part(a, role) + in_part(b, role),
    decreases b.len(),
{
    if b.len() > 0 {
        lemma_part_of_concat(a, b.drop_last(), role);
        assert((a + b).drop_last() =~= a + b.drop_last());
        assert(in_part(a + b, role) =~= in_part(a, role) + in_part(b, role));
    } else {
        assert(a + b =~= a);
        assert(in_part(a, role) + in_part(b, role) =~= in_part(a, role));
    }
}

/// The parts of an operation on two regions.
proof fn lemma_parts(subj: Seq<PolyV>, clip: Seq<PolyV>)
    ensures
        ({
            let c = polys_contours(subj, Role::Subject) + polys_contours(clip, Role::Clip);
            &&& in_part(c, Role::Subject) == taking_part(subj)
            &&& in_part(c, Role::Clip) == taking_part(clip)
        }),
{
    lemma_cast(subj, Role::Subject);
    lemma_cast(clip, Role::Clip);
    let a = polys_contours(subj, Role::Subject);
    let b = polys_contours(clip, Role::Clip);
    lemma_part_of_concat(a, b, Role::Subject);
    lemma_part_of_concat(a, b, Role::Clip);
    lemma_part_of_cast(taking_part(subj), Role::Subject, Role::Subject);
    lemma_part_of_cast(taking_part(subj), Role::Subject, Role::Clip);
    lemma_part_of_cast(taking_part(clip), Role::Clip, Role::Subject);
    lemma_part_of_cast(taking_part(clip), Role::Clip, Role::Clip);
    assert(in_part(a + b, Role::Subject) =~= taking_part(subj));
    assert(in_part(a + b, Role::Clip) =~= taking_part(clip));
}

/// The region itself, normalized.
pub open spec fn normal_of(polys: Seq<PolyV>) -> Seq<PolyV> {
    boolean_of(polys, Seq::empty(), BoolOp::Subject)
}

/// What an operation gives on a region and itself.
pub open spec fn on_itself(polys: Seq<PolyV>, op: BoolOp) -> Seq<PolyV> {
    match op {
        BoolOp::Difference | BoolOp::Xor => Seq::empty(),
        _ => normal_of(polys),
    }
}

/// What an operation gives on a region and nothing.
pub open spec fn on_nothing(polys: Seq<PolyV>, op: BoolOp) -> Seq<PolyV> {
    match op {
        BoolOp::Intersect => Seq::empty(),
        _ => normal_of(polys),
    }
}

/// A boolean operation on two regions under the non-zero fill rule.
fn boolean(subj: &[Poly], clip: &[Poly], op: BoolOp) -> (r: Vec<Poly>)
    requires
        polys_in_range(subj.deep_view()),
        polys_in_range(clip.deep_view()),
    ensures
        r.deep_view() == boolean_of(subj.deep_view(), clip.deep_view(), op),
        normalized(r.deep_view()),
        polys_in_range(r.deep_view()),
        op == BoolOp::Union || op == BoolOp::Intersect || op == BoolOp::Xor ==> r.deep_view()
            == boolean_of(clip.deep_view(), subj.deep_view(), op),
        subj.deep_view() == clip.deep_view() ==> r.deep_view() == on_itself(subj.deep_view(), op),
        clip@.len() == 0 ==> r.deep_view() == on_nothing(subj.deep_view(), op),
{
    let cap: usize = count_up(point_count(subj), point_count(clip));
    if cap == 0 {
        let r: Vec<Poly> = Vec::new();
        assert(r.deep_view() =~= Seq::<PolyV>::empty());
        return r;
    }
    let mut clipper = Clipper::new(as_capacity(cap));
    let ghost sv = subj.deep_view();
    let ghost cv = clip.deep_view();
    let mut i: usize = 0;
    assert(contours_of(clipper) =~= polys_contours(sv.take(0), Role::Subject));
    while i < subj.len()
        invariant
            i <= subj.len(),
            sv == subj.deep_view(),
            polys_in_range(sv),
            contours_of(clipper) == polys_contours(sv.take(i as int), Role::Subject),
        decreases subj.len() - i,
    {
        proof {
            assert(sv.take(i + 1).drop_last() =~= sv.take(i as int));
            assert(sv[i as int] == subj@[i as int].deep_view());
        }
        add_poly(&mut clipper, &subj[i], Role::Subject);
        i += 1;
    }
    assert(sv.take(i as int) =~= sv);
    let ghost head = polys_contours(sv, Role::Subject);
    let mut k: usize = 0;
    assert(contours_of(clipper) =~= head + polys_contours(cv.take(0), Role::Clip));
    while k < clip.len()
        invariant
            k <= clip.len(),
            cv == clip.deep_view(),
            polys_in_range(cv),
            contours_of(clipper) == head + polys_contours(cv.take(k as int), Role::Clip),
        decreases clip.len() - k,
    {
        let ghost before = polys_contours(cv.take(k as int), Role::Clip);
        proof {
            assert(cv.take(k + 1).drop_last() =~= cv.take(k as int));
            assert(cv[k as int] == clip@[k as int].deep_view());
        }
        add_poly(&mut clipper, &clip[k], Role::Clip);
        assert(contours_of(clipper) =~= head + polys_contours(cv.take(k + 1), Role::Clip));
        k += 1;
    }
    assert(cv.take(k as int) =~= cv);
    proof {
        lemma_contours_in_range(sv, Role::Subject);
        lemma_contours_in_range(cv, Role::Clip);
    }
    let shapes = clipper.overlay(op, Fill::NonZero);
    proof {
        lemma_polys_of_normalized(shapes.deep_view());
        let none = Seq::<PolyV>::empty();
        lemma_parts(sv, cv);
        lemma_cast(sv, Role::Subject);
        lemma_cast(sv, Role::Clip);
        lemma_cast(cv, Role::Subject);
        assert(polys_contours(sv, Role::Subject) + polys_contours(none, Role::Clip)
            =~= polys_contours(sv, Role::Subject));
        if shapes@.len() == 0 {
            assert(polys_of(shapes.deep_view()) =~= none);
        }
        if clip@.len() == 0 {
            assert(cv =~= none);
            assert(taking_part(cv) =~= Seq::<Seq<P>>::empty());
        }
    }
    shapes_to_polys(shapes)
}

/// Union of two regions, in either order. The union of a region with itself,
/// or with nothing, is the region.
pub fn union(a: &[Poly], b: &[Poly]) -> (r: Vec<Poly>)
    requires
        polys_in_range(a.deep_view()),
        polys_in_range(b.deep_view()),
    ensures
        r.deep_view() == boolean_of(a.deep_view(), b.deep_view(), BoolOp::Union),
        normalized(r.deep_view()),
        polys_in_range(r.deep_view()),
        r.deep_view() == boolean_of(b.deep_view(), a.deep_view(), BoolOp::Union),
        a.deep_view() == b.deep_view() ==> r.deep_view() == normal_of(a.deep_view()),
        b@.len() == 0 ==> r.deep_view() == normal_of(a.deep_view()),
{
    boolean(a, b, BoolOp::Union)
}

/// Intersection of two regions, in either order. The intersection of a region
/// with itself is the region, with nothing it is nothing.
pub fn intersect(a: &[Poly], b: &[Poly]) -> (r: Vec<Poly>)
    requires
        polys_in_range(a.deep_view()),
        polys_in_range(b.deep_view()),
    ensures
        r.deep_view() == boolean_of(a.deep_view(), b.deep_view(), BoolOp::Intersect),
        normalized(r.deep_view()),
        polys_in_range(r.deep_view()),
        r.deep_view() == boolean_of(b.deep_view(), a.deep_view(), BoolOp::Intersect),
        a.deep_view() == b.deep_view() ==> r.deep_view() == normal_of(a.deep_view()),
        b@.len() == 0 ==> r@.len() == 0,
{
    boolean(a, b, BoolOp::Intersect)
}

/// The part of `a` outside `b`. Of a region less itself nothing is left.
pub fn difference(a: &[Poly], b: &[Poly]) -> (r: Vec<Poly>)
    requires
        polys_in_range(a.deep_view()),
        polys_in_range(b.deep_view()),
    ensures
        r.deep_view() == boolean_of(a.deep_view(), b.deep_view(), BoolOp::Difference),
        normalized(r.deep_view()),
        polys_in_range(r.deep_view()),
        a.deep_view() == b.deep_view() ==> r@.len() == 0,
        b@.len() == 0 ==> r.deep_view() == normal_of(a.deep_view()),
{
    let r = boolean(a, b, BoolOp::Difference);
    assert(r.deep_view().len() == r@.len());
    r
}

/// The part of two regions, in either order, covered by exactly one of them:
/// nothing, if they are the same.
pub fn xor(a: &[Poly], b: &[Poly]) -> (r: Vec<Poly>)
    requires
        polys_in_range(a.deep_view()),
        polys_in_range(b.deep_view()),
    ensures
        r.deep_view() == boolean_of(a.deep_view(), b.deep_view(), BoolOp::Xor),
        normalized(r.deep_view()),
        polys_in_range(r.deep_view()),
        r.deep_view() == boolean_of(b.deep_view(), a.deep_view(), BoolOp::Xor),
        a.deep_view() == b.deep_view() ==> r@.len() == 0,
        b@.len() == 0 ==> r.deep_view() == normal_of(a.deep_view()),
{
    let r = boolean(a, b, BoolOp::Xor);
    assert(r.deep_view().len() == r@.len());
    r
}

/// The region itself, normalized: an offset by nothing.
pub fn normalize(polys: &[Poly]) -> (r: Vec<Poly>)
    requires
        polys_in_range(polys.deep_view()),
    ensures
        r.deep_view() == normal_of(polys.deep_view()),
        normalized(r.deep_view()),
        polys_in_range(r.deep_view()),
{
    let none: Vec<Poly> = Vec::new();
    assert(none.deep_view() =~= Seq::<PolyV>::empty());
    boolean(polys, none.as_slice(), BoolOp::Subject)
}

/// A soup of loops as subject contours.
pub open spec fn loop_contours(loops: Seq<Seq<P>>) -> Seq<(Role, Seq<P>)> {
    loops.map_values(|l: Seq<P>| (Role::Subject, l))
}

/// The region of positive winding of a soup of loops.
pub open spec fn winding_of(loops: Seq<Seq<P>>) -> Seq<PolyV> {
    if loops.len() == 0 {
        Seq::empty()
    } else {
        polys_of(overlay_shapes(loop_contours(loops), BoolOp::Subject, Fill::Positive))
    }
}

/// Positive-winding extraction of a soup of (possibly self-intersecting,
/// mixed-orientation) closed loops: keeps the region with winding sum above
/// zero and normalizes orientation.
pub fn winding_extract(loops: &[Ring]) -> (r: Vec<Poly>)
    requires
        rings_in_range(loops.deep_view()),
    ensures
        r.deep_view() == winding_of(loops.deep_view()),
        normalized(r.deep_view()),
        polys_in_range(r.deep_view()),
{
    if loops.len() == 0 {
        let r: Vec<Poly> = Vec::new();
        assert(r.deep_view() =~= Seq::<PolyV>::empty());
        return r;
    }
    let ghost lv = loops.deep_view();
    let cap: usize = ring_point_count(loops, 0);
    let mut clipper = Clipper::new(as_capacity(cap));
    let mut i: usize = 0;
    while i < loops.len()
        invariant
            i <= loops.len(),
            lv == loops.deep_view(),
            rings_in_range(lv),
            contours_of(clipper) =~= loop_contours(lv).take(i as int),
        decreases loops.len() - i,
    {
        assert(ring_in_range(lv[i as int]));
        clipper.add_contour(&loops[i], Role::Subject);
        i += 1;
    }
    assert(contours_of(clipper) =~= loop_contours(lv));
    let shapes = clipper.overlay(BoolOp::Subject, Fill::Positive);
    proof {
        lemma_polys_of_normalized(shapes.deep_view());
    }
    shapes_to_polys(shapes)
}

/// Every ring that can enclose something takes part in an operation: of each
/// polygon whose outer ring has three vertices or more, that ring and then the
/// holes that have as many.
pub proof fn contours_hold_every_ring(polys: Seq<PolyV>, role: Role)
    ensures
        polys_contours(polys, role) == polys.filter(|p: PolyV| p.outer.len() >= 3).map_values(
            |p: PolyV|
                seq![(role, p.outer)] + p.holes.filter(|h: Seq<P>| h.len() >= 3).map_values(
                    |h: Seq<P>| (role, h),
                ),
        ).flatten_alt(),
    decreases polys.len(),
{
    reveal(Seq::filter);
    let solid = |p: PolyV| p.outer.len() >= 3;
    let own = |p: PolyV|
        seq![(role, p.outer)] + p.holes.filter(|h: Seq<P>| h.len() >= 3).map_values(
            |h: Seq<P>| (role, h),
        );
    if polys.len() > 0 {
        let r = polys.drop_last();
        let p = polys.last();
        contours_hold_every_ring(r, role);
        lemma_holes_taken(p.holes, role);
        if solid(p) {
            let all = r.filter(solid).push(p).map_values(own);
            assert(all.drop_last() =~= r.filter(solid).map_values(own));
            assert(all.last() == own(p));
        } else {
            assert(polys_contours(r, role) + Seq::<(Role, Seq<P>)>::empty() =~= polys_contours(
                r,
                role,
            ));
        }
    }
}

proof fn lemma_holes_taken(holes: Seq<Seq<P>>, role: Role)
    ensures
        hole_contours(holes, role) == holes.filter(|h: Seq<P>| h.len() >= 3).map_values(
            |h: Seq<P>| (role, h),
        ),
    decreases holes.len(),
{
    reveal(Seq::filter);
    let proper = |h: Seq<P>| h.len() >= 3;
    let cast = |h: Seq<P>| (role, h);
    if holes.len() > 0 {
        let r = holes.drop_last();
        lemma_holes_taken(r, role);
        assert(r.filter(proper).push(holes.last()).map_values(cast) =~= r.filter(proper).map_values(
            cast,
        ).push(cast(holes.last())));
    } else {
        assert(holes.filter(proper).map_values(cast) =~= hole_contours(holes, role));
    }
}

/// Every shape with a contour becomes a polygon, in order: its first contour the
/// outer ring, the others its holes.
pub proof fn shapes_become_polygons(shapes: Seq<Seq<Seq<P>>>)
    ensures
        polys_of(shapes) == shapes.filter(|s: Seq<Seq<P>>| s.len() > 0).map_values(
            |s: Seq<Seq<P>>| PolyV { outer: s[0], holes: s.subrange(1, s.len() as int) },
        ),
    decreases shapes.len(),
{
    reveal(Seq::filter);
    let full = |s: Seq<Seq<P>>| s.len() > 0;
    let read = |s: Seq<Seq<P>>| PolyV { outer: s[0], holes: s.subrange(1, s.len() as int) };
    if shapes.len() > 0 {
        let r = shapes.drop_last();
        let s = shapes.last();
        shapes_become_polygons(r);
        if s.len() > 0 {
            assert(s.skip(1) =~= s.subrange(1, s.len() as int));
        }
        assert(r.filter(full).push(s).map_values(read) =~= r.filter(full).map_values(read).push(
            read(s),
        ));
    } else {
        assert(shapes.filter(full).map_values(read) =~= polys_of(shapes));
    }
}

/// The contours of a part are those cast in it, all of them and in their order.
pub proof fn parts_are_played_in_order(contours: Seq<(Role, Seq<P>)>, role: Role)
    ensures
        in_part(contours, role) == contours.filter(
            |c: (Role, Seq<P>)| c.0 == role,
        ).map_values(|c: (Role, Seq<P>)| c.1),
    decreases contours.len(),
{
    reveal(Seq::filter);
    let f = |c: (Role, Seq<P>)| c.0 == role;
    let g = |c: (Role, Seq<P>)| c.1;
    if contours.len() > 0 {
        let less = contours.drop_last();
        parts_are_played_in_order(less, role);
        if f(contours.last()) {
            assert(less.filter(f).push(contours.last()).map_values(g) =~= less.filter(f).map_values(
                g,
            ).push(contours.last().1));
        }
    } else {
        assert(contours.filter(f).map_values(g) =~= Seq::empty());
    }
}

} // verus!
