//! Mirroring a job for the back side of a board.
use vstd::prelude::*;
use crate::geom::{cross, doubled_area, next, reversal_negates_area, shoelace};
use crate::model::{lemma_ring_view, Nm, Poly, PolyV, Ring, P};

verus! {

broadcast use lemma_ring_view;

/// The line a board is reflected across when flipped for the back side. Its
/// position is given doubled, so that it may lie between two nanometers.
#[derive(Debug, Clone, Copy, PartialEq, Eq, Structural)]
pub enum MirrorAxis {
    /// Reflect x about a vertical line (a left-right flip).
    VerticalX { twice_x_nm: Nm },
    /// Reflect y about a horizontal line (a top-bottom flip).
    HorizontalY { twice_y_nm: Nm },
}

impl MirrorAxis {
    /// The mirror image of a coordinate pair.
    pub open spec fn image(self, x: int, y: int) -> (int, int) {
        match self {
            MirrorAxis::VerticalX { twice_x_nm } => (twice_x_nm - x, y),
            MirrorAxis::HorizontalY { twice_y_nm } => (x, twice_y_nm - y),
        }
    }

    /// The mirror image is a point.
    pub open spec fn maps(self, p: P) -> bool {
        let m = self.image(p.x as int, p.y as int);
        i64::MIN <= m.0 <= i64::MAX && i64::MIN <= m.1 <= i64::MAX
    }

    /// The mirror image of a point.
    pub open spec fn mirrored(self, p: P) -> P {
        let m = self.image(p.x as int, p.y as int);
        P { x: m.0 as i64, y: m.1 as i64 }
    }

    /// Reflect a point across this axis.
    pub fn reflect(&self, p: P) -> (r: P)
        requires
            self.maps(p),
        ensures
            r == self.mirrored(p),
    {
        match *self {
            MirrorAxis::VerticalX { twice_x_nm } => P {
                x: (twice_x_nm as i128 - p.x as i128) as i64,
                y: p.y,
            },
            MirrorAxis::HorizontalY { twice_y_nm } => P {
                x: p.x,
                y: (twice_y_nm as i128 - p.y as i128) as i64,
            },
        }
    }
}

pub open spec fn maps_ring(axis: MirrorAxis, s: Seq<P>) -> bool {
    forall|i: int| 0 <= i < s.len() ==> axis.maps(#[trigger] s[i])
}

pub open spec fn maps_poly(axis: MirrorAxis, p: PolyV) -> bool {
    &&& maps_ring(axis, p.outer)
    &&& forall|i: int| 0 <= i < p.holes.len() ==> maps_ring(axis, #[trigger] p.holes[i])
}

/// The mirror image of a ring, walked backwards: reflection flips the winding,
/// and walking backwards restores it.
pub open spec fn mirrored_ring(axis: MirrorAxis, s: Seq<P>) -> Seq<P> {
    s.reverse().map_values(|p: P| axis.mirrored(p))
}

pub open spec fn mirrored_poly(axis: MirrorAxis, p: PolyV) -> PolyV {
    PolyV {
        outer: mirrored_ring(axis, p.outer),
        holes: p.holes.map_values(|h: Seq<P>| mirrored_ring(axis, h)),
    }
}

/// Reflect one ring and reverse its winding.
fn mirror_ring(ring: &Ring, axis: &MirrorAxis) -> (r: Ring)
    requires
        maps_ring(*axis, ring@),
    ensures
        r@ == mirrored_ring(*axis, ring@),
{
    let mut r: Ring = Vec::new();
    let n: usize = ring.len();
    let mut i: usize = 0;
    while i < n
        invariant
            n == ring.len(),
            i <= n,
            maps_ring(*axis, ring@),
            r@ =~= mirrored_ring(*axis, ring@).take(i as int),
        decreases n - i,
    {
        let p = ring[n - 1 - i];
        assert(p == ring@[n - 1 - i]);
        r.push(axis.reflect(p));
        i += 1;
    }
    assert(r@ =~= mirrored_ring(*axis, ring@));
    r
}

/// Mirror one polygon across `axis`, keeping the winding convention.
pub fn mirror_poly(poly: &Poly, axis: &MirrorAxis) -> (r: Poly)
    requires
        maps_poly(*axis, poly.deep_view()),
    ensures
        r.deep_view() == mirrored_poly(*axis, poly.deep_view()),
{
    let outer = mirror_ring(&poly.outer, axis);
    let mut holes: Vec<Ring> = Vec::new();
    let ghost hv = poly.deep_view().holes;
    let mut i: usize = 0;
    while i < poly.holes.len()
        invariant
            i <= poly.holes.len(),
            hv == poly.holes.deep_view(),
            forall|k: int| 0 <= k < hv.len() ==> maps_ring(*axis, #[trigger] hv[k]),
            holes@.len() == i,
            forall|k: int| 0 <= k < i ==> (#[trigger] holes@[k])@ == mirrored_ring(*axis, hv[k]),
        decreases poly.holes.len() - i,
    {
        assert(maps_ring(*axis, hv[i as int]));
        let h = mirror_ring(&poly.holes[i], axis);
        holes.push(h);
        i += 1;
    }
    let r = Poly { outer, holes };
    assert(r.deep_view().holes =~= mirrored_poly(*axis, poly.deep_view()).holes);
    r
}

/// Mirror a whole job across `axis`.
pub fn mirror_job(shapes: &[Poly], axis: &MirrorAxis) -> (r: Vec<Poly>)
    requires
        forall|i: int|
            0 <= i < shapes@.len() ==> maps_poly(*axis, #[trigger] shapes.deep_view()[i]),
    ensures
        r.deep_view() == shapes.deep_view().map_values(|p: PolyV| mirrored_poly(*axis, p)),
{
    let mut r: Vec<Poly> = Vec::new();
    let ghost sv = shapes.deep_view();
    let mut i: usize = 0;
    while i < shapes.len()
        invariant
            i <= shapes.len(),
            sv == shapes.deep_view(),
            forall|k: int| 0 <= k < sv.len() ==> maps_poly(*axis, #[trigger] sv[k]),
            r@.len() == i,
            forall|k: int|
                0 <= k < i ==> (#[trigger] r@[k]).deep_view() == mirrored_poly(*axis, sv[k]),
        decreases shapes.len() - i,
    {
        assert(sv[i as int] == shapes@[i as int].deep_view());
        let p = mirror_poly(&shapes[i], axis);
        r.push(p);
        i += 1;
    }
    assert(r.deep_view() =~= sv.map_values(|p: PolyV| mirrored_poly(*axis, p)));
    r
}

/// Mirroring a ring twice gives the ring back.
pub proof fn mirroring_twice_is_identity(axis: MirrorAxis, s: Seq<P>)
    requires
        maps_ring(axis, s),
    ensures
        maps_ring(axis, mirrored_ring(axis, s)),
        mirrored_ring(axis, mirrored_ring(axis, s)) == s,
{
    let m = mirrored_ring(axis, s);
    assert forall|i: int| 0 <= i < m.len() implies axis.maps(#[trigger] m[i]) by {
        assert(axis.maps(s[s.len() - 1 - i]));
    }
    assert forall|i: int| 0 <= i < s.len() implies mirrored_ring(axis, m)[i] == s[i] by {
        assert(axis.maps(s[i]));
        assert(m[s.len() - 1 - i] == axis.mirrored(s[i]));
    }
    assert(mirrored_ring(axis, m) =~= s);
}

/// The mirror image of a ring, walked the same way.
spec fn image_ring(axis: MirrorAxis, s: Seq<P>) -> Seq<P> {
    s.map_values(|p: P| axis.mirrored(p))
}

/// How far reflection moves a partial shoelace sum: a multiple of how far the
/// walk has come.
proof fn lemma_image_shoelace(axis: MirrorAxis, s: Seq<P>, k: nat)
    requires
        maps_ring(axis, s),
        k < s.len(),
    ensures
        match axis {
            MirrorAxis::VerticalX { twice_x_nm } => shoelace(image_ring(axis, s), k) == twice_x_nm
                * (s[k as int].y - s[0].y) - shoelace(s, k),
            MirrorAxis::HorizontalY { twice_y_nm } => shoelace(image_ring(axis, s), k) == -(
            twice_y_nm * (s[k as int].x - s[0].x)) - shoelace(s, k),
        },
    decreases k,
{
    if k > 0 {
        lemma_image_shoelace(axis, s, (k - 1) as nat);
        assert(next(s, k - 1) == s[k as int]);
        assert(next(image_ring(axis, s), k - 1) == axis.mirrored(s[k as int]));
        lemma_image_cross(axis, s[k - 1], s[k as int]);
        match axis {
            MirrorAxis::VerticalX { twice_x_nm: c } => {
                assert(c * (s[k as int].y - s[0].y) == c * (s[k - 1].y - s[0].y) + c * (
                s[k as int].y - s[k - 1].y)) by (nonlinear_arith);
            },
            MirrorAxis::HorizontalY { twice_y_nm: c } => {
                assert(c * (s[k as int].x - s[0].x) == c * (s[k - 1].x - s[0].x) + c * (
                s[k as int].x - s[k - 1].x)) by (nonlinear_arith);
            },
        }
    } else {
        match axis {
            MirrorAxis::VerticalX { twice_x_nm: c } => {
                assert(c * (s[0].y - s[0].y) == 0) by (nonlinear_arith);
            },
            MirrorAxis::HorizontalY { twice_y_nm: c } => {
                assert(c * (s[0].x - s[0].x) == 0) by (nonlinear_arith);
            },
        }
    }
}

proof fn lemma_image_cross(axis: MirrorAxis, a: P, b: P)
    requires
        axis.maps(a),
        axis.maps(b),
    ensures
        match axis {
            MirrorAxis::VerticalX { twice_x_nm } => cross(axis.mirrored(a), axis.mirrored(b))
                == twice_x_nm * (b.y - a.y) - cross(a, b),
            MirrorAxis::HorizontalY { twice_y_nm } => cross(axis.mirrored(a), axis.mirrored(b))
                == -(twice_y_nm * (b.x - a.x)) - cross(a, b),
        },
{
    match axis {
        MirrorAxis::VerticalX { twice_x_nm: c } => {
            assert((c - a.x) * b.y - (c - b.x) * a.y == c * (b.y - a.y) - (a.x * b.y - b.x * a.y))
                by (nonlinear_arith);
        },
        MirrorAxis::HorizontalY { twice_y_nm: c } => {
            assert(a.x * (c - b.y) - b.x * (c - a.y) == -(c * (b.x - a.x)) - (a.x * b.y - b.x
                * a.y)) by (nonlinear_arith);
        },
    }
}

/// A mirrored ring winds the same way and encloses the same area.
pub proof fn mirroring_keeps_winding(axis: MirrorAxis, s: Seq<P>)
    requires
        maps_ring(axis, s),
    ensures
        doubled_area(mirrored_ring(axis, s)) == doubled_area(s),
{
    let m = image_ring(axis, s);
    assert(mirrored_ring(axis, s) =~= m.reverse());
    reversal_negates_area(m);
    if s.len() >= 3 {
        let n = s.len();
        lemma_image_shoelace(axis, s, (n - 1) as nat);
        lemma_image_cross(axis, s[n - 1], s[0]);
        assert(next(s, n - 1) == s[0]);
        assert(next(m, n - 1) == axis.mirrored(s[0]));
        match axis {
            MirrorAxis::VerticalX { twice_x_nm: c } => {
                assert(c * (s[n - 1].y - s[0].y) + c * (s[0].y - s[n - 1].y) == 0)
                    by (nonlinear_arith);
            },
            MirrorAxis::HorizontalY { twice_y_nm: c } => {
                assert(c * (s[n - 1].x - s[0].x) + c * (s[0].x - s[n - 1].x) == 0)
                    by (nonlinear_arith);
            },
        }
    }
}

/// A point and its mirror image lie at the same distance on either side of the
/// axis.
pub proof fn axis_lies_midway(axis: MirrorAxis, p: P)
    requires
        axis.maps(p),
    ensures
        axis matches MirrorAxis::VerticalX { twice_x_nm: c } ==> p.x + axis.mirrored(p).x == c
            && axis.mirrored(p).y == p.y,
        axis matches MirrorAxis::HorizontalY { twice_y_nm: c } ==> p.y + axis.mirrored(p).y == c
            && axis.mirrored(p).x == p.x,
{
}

/// A mirrored polygon has the image of every vertex, each ring walked backwards.
pub proof fn every_vertex_is_mirrored(axis: MirrorAxis, p: PolyV, h: int, i: int)
    requires
        0 <= h < p.holes.len(),
    ensures
        mirrored_poly(axis, p).outer.len() == p.outer.len(),
        mirrored_poly(axis, p).holes.len() == p.holes.len(),
        mirrored_poly(axis, p).holes[h].len() == p.holes[h].len(),
        0 <= i < p.outer.len() ==> mirrored_poly(axis, p).outer[i] == axis.mirrored(
            p.outer[p.outer.len() - 1 - i],
        ),
        0 <= i < p.holes[h].len() ==> mirrored_poly(axis, p).holes[h][i] == axis.mirrored(
            p.holes[h][p.holes[h].len() - 1 - i],
        ),
{
}

} // verus!
