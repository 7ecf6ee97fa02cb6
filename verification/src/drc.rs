//! Design-rule check against a machine's process floor.
//!
//! Gaps below the floor show in the closing of the copper, traces below it in
//! the opening. The second offset of each pair is deeper than the first, so
//! that rounded corners do not count. Residues below a crumb's area are
//! dropped; the others are reported with their centroid and with twice their
//! inradius.
use vstd::prelude::*;
use crate::geom::{
    boolean_of, cross, difference, fits, next, normal_of, poly_area, poly_area_fits, polys_in_range,
    triangle, try_poly_area, union, BoolOp,
};
use crate::model::{lemma_ring_view, Layer, Nm, Poly, PolyV, Ring, P};
use crate::num::{ceil_sqrt, div_round_nearest, is_ceil_root, nearest_is_close, nearest_signed};

verus! {

broadcast use lemma_ring_view;

/// What a violation is about.
#[derive(Debug, Clone, Copy, PartialEq, Eq, Hash, Structural)]
pub enum ViolationKind {
    /// Copper-to-copper spacing below the machine floor.
    GapBelowFloor,
    /// Copper feature narrower than the machine floor.
    TraceWidthBelowFloor,
}

/// One hard error with its evidence.
#[derive(Debug, Clone, Copy, PartialEq, Eq, Structural)]
pub struct Violation {
    pub kind: ViolationKind,
    /// Area centroid of the offending region.
    pub location: P,
    /// Twice the inradius of the offending region.
    pub measured_nm: Option<Nm>,
}

/// Margin of the deeper second offset over the diagonal of the first.
pub const CORNER_MARGIN_NM: Nm = 1_000;

/// Tolerance of the width measurement.
pub const MEASURE_TOL_NM: Nm = 250;

/// The radii of the two offsets of a closing or an opening.
#[derive(Debug, Clone, Copy, PartialEq, Eq, Structural)]
pub struct Radii {
    pub near: Nm,
    pub deep: Nm,
}

impl Radii {
    /// The radii for a floor; a floor that is not positive is not checked.
    ///
    /// The first is half the floor, the second its diagonal plus a margin.
    pub fn of(floor_nm: Nm) -> (r: Option<Radii>)
        ensures
            r is Some <==> floor_nm > 0,
            r matches Some(v) ==> {
                &&& v.near == (floor_nm + 1) / 2
                &&& is_ceil_root(v.deep - CORNER_MARGIN_NM, 2 * (v.near * v.near))
            },
    {
        if floor_nm <= 0 {
            return None;
        }
        let near: i64 = floor_nm / 2 + floor_nm % 2;
        assert(0 <= near * near <= 0x4000_0000_0000_0000 * 0x4000_0000_0000_0000)
            by (nonlinear_arith)
            requires
                0 <= near <= 0x4000_0000_0000_0000,
        ;
        let square: u128 = (near as u128) * (near as u128);
        let root: u128 = ceil_sqrt(2 * square);
        assert(root <= 0x6000_0000_0000_0000) by (nonlinear_arith)
            requires
                is_ceil_root(root as int, 2 * square),
                square <= 0x4000_0000_0000_0000 * 0x4000_0000_0000_0000,
        ;
        Some(Radii { near, deep: root as i64 + CORNER_MARGIN_NM })
    }
}

// ---------------------------------------------------------------------------
// Width of a region
// ---------------------------------------------------------------------------

/// What to do next for a width.
#[derive(Debug, Clone, Copy, PartialEq, Eq, Structural)]
pub enum WidthStep {
    /// Shrink the region by this radius and report whether it vanished.
    Erode(Nm),
    /// The measured width; none when the region survives the full floor.
    Measured(Option<Nm>),
}

/// The bisection of the radius at which a region vanishes.
#[derive(Debug, Clone, Copy, PartialEq, Eq, Structural)]
pub enum WidthSearch {
    /// Nothing known yet.
    Start { floor: Nm },
    /// The region survives `lo` and vanishes at `hi`.
    Between { lo: Nm, hi: Nm },
    /// The region survives the floor.
    Survived,
}

impl WidthSearch {
    pub open spec fn wf(self) -> bool {
        match self {
            WidthSearch::Start { floor } => 0 <= floor <= i64::MAX / 2,
            WidthSearch::Between { lo, hi } => 0 <= lo <= hi <= i64::MAX / 2,
            WidthSearch::Survived => true,
        }
    }

    /// The next step of the search.
    pub open spec fn due(self) -> WidthStep {
        match self {
            WidthSearch::Start { floor } => WidthStep::Erode(floor),
            WidthSearch::Between { lo, hi } => if hi - lo > MEASURE_TOL_NM {
                WidthStep::Erode((lo + (hi - lo) / 2) as i64)
            } else {
                WidthStep::Measured(Some((lo + hi) as i64))
            },
            WidthSearch::Survived => WidthStep::Measured(None),
        }
    }

    /// The search after an erosion.
    pub open spec fn told(self, vanished: bool) -> WidthSearch {
        match self {
            WidthSearch::Start { floor } => if vanished {
                WidthSearch::Between { lo: 0, hi: floor }
            } else {
                WidthSearch::Survived
            },
            WidthSearch::Between { lo, hi } => {
                let mid = (lo + (hi - lo) / 2) as i64;
                if vanished {
                    WidthSearch::Between { lo, hi: mid }
                } else {
                    WidthSearch::Between { lo: mid, hi }
                }
            },
            WidthSearch::Survived => self,
        }
    }

    /// Search for the width of a region that should be below the floor.
    pub fn new(floor_nm: Nm) -> (s: Self)
        requires
            0 <= floor_nm <= i64::MAX / 2,
        ensures
            s == (WidthSearch::Start { floor: floor_nm }),
            s.wf(),
    {
        WidthSearch::Start { floor: floor_nm }
    }

    /// What to do next.
    pub fn next_step(&self) -> (r: WidthStep)
        requires
            self.wf(),
        ensures
            r == self.due(),
    {
        match *self {
            WidthSearch::Start { floor } => WidthStep::Erode(floor),
            WidthSearch::Between { lo, hi } => if hi - lo > MEASURE_TOL_NM {
                WidthStep::Erode(lo + (hi - lo) / 2)
            } else {
                WidthStep::Measured(Some(lo + hi))
            },
            WidthSearch::Survived => WidthStep::Measured(None),
        }
    }

    /// Take the outcome of the erosion that was asked for.
    pub fn tell(&mut self, vanished: bool)
        requires
            old(self).wf(),
        ensures
            *final(self) == old(self).told(vanished),
            final(self).wf(),
    {
        let next = match *self {
            WidthSearch::Start { floor } => if vanished {
                WidthSearch::Between { lo: 0, hi: floor }
            } else {
                WidthSearch::Survived
            },
            WidthSearch::Between { lo, hi } => {
                let mid: i64 = lo + (hi - lo) / 2;
                if vanished {
                    WidthSearch::Between { lo, hi: mid }
                } else {
                    WidthSearch::Between { lo: mid, hi }
                }
            },
            WidthSearch::Survived => WidthSearch::Survived,
        };
        *self = next;
    }
}

/// What the search measures on a region that vanishes from radius `inradius`
/// on.
pub open spec fn width_found(s: WidthSearch, inradius: int) -> Option<Nm>
    recommends
        s.wf(),
    decreases
            (match s {
                WidthSearch::Start { .. } => 2int,
                WidthSearch::Between { .. } => 1int,
                WidthSearch::Survived => 0int,
            }),
            (match s {
                WidthSearch::Between { lo, hi } => hi - lo,
                _ => 0,
            }),
{
    match s.due() {
        WidthStep::Measured(w) => w,
        WidthStep::Erode(r) => if s.wf() {
            width_found(s.told(r >= inradius), inradius)
        } else {
            None
        },
    }
}

/// The measured width is twice the inradius, up to the tolerance; nothing is
/// measured on a region that survives the floor.
pub proof fn measured_width_is_close(floor: Nm, inradius: int)
    requires
        0 <= floor <= i64::MAX / 2,
        inradius > 0,
    ensures
        width_found(WidthSearch::Start { floor }, inradius) is Some <==> inradius <= floor,
        width_found(WidthSearch::Start { floor }, inradius) matches Some(w) ==> -250 <= w - 2
            * inradius <= 250,
{
    reveal_with_fuel(width_found, 2);
    if inradius <= floor {
        lemma_bracket(0, floor, inradius);
    }
}

proof fn lemma_bracket(lo: Nm, hi: Nm, inradius: int)
    requires
        0 <= lo < inradius <= hi <= i64::MAX / 2,
    ensures
        width_found(WidthSearch::Between { lo, hi }, inradius) matches Some(w) && -MEASURE_TOL_NM
            <= w - 2 * inradius <= MEASURE_TOL_NM,
    decreases hi - lo,
{
    if hi - lo > MEASURE_TOL_NM {
        let mid = (lo + (hi - lo) / 2) as i64;
        if mid >= inradius {
            lemma_bracket(lo, mid, inradius);
        } else {
            lemma_bracket(mid, hi, inradius);
        }
    }
}

// ---------------------------------------------------------------------------
// Centroid
// ---------------------------------------------------------------------------

pub open spec fn coord(p: P, along_x: bool) -> int {
    if along_x {
        p.x as int
    } else {
        p.y as int
    }
}

/// The contribution of edge `i` to six times the area moment of a ring.
pub open spec fn edge_moment(s: Seq<P>, i: int, along_x: bool) -> int {
    (coord(s[i], along_x) + coord(next(s, i), along_x)) * cross(s[i], next(s, i))
}

/// The contribution of the first `n` edges.
pub open spec fn moment(s: Seq<P>, n: nat, along_x: bool) -> int
    decreases n,
{
    if n == 0 {
        0
    } else {
        moment(s, (n - 1) as nat, along_x) + edge_moment(s, n - 1, along_x)
    }
}

/// The contribution of the first `n` rings.
pub open spec fn moments(rings: Seq<Seq<P>>, n: nat, along_x: bool) -> int
    decreases n,
{
    if n == 0 {
        0
    } else {
        moments(rings, (n - 1) as nat, along_x) + moment(rings[n - 1], rings[n - 1].len(), along_x)
    }
}

/// Every term and every partial sum over a ring, starting from `from`, fits
/// the accumulator.
#[verifier::opaque]
pub open spec fn ring_moment_fits(s: Seq<P>, from: int, along_x: bool) -> bool {
    forall|i: int|
        #![trigger s[i]]
        0 <= i < s.len() ==> fits(edge_moment(s, i, along_x)) && fits(
            from + moment(s, (i + 1) as nat, along_x),
        )
}

pub open spec fn moments_fit(rings: Seq<Seq<P>>, along_x: bool) -> bool {
    forall|k: int|
        #![trigger rings[k]]
        0 <= k < rings.len() ==> ring_moment_fits(rings[k], moments(rings, k as nat, along_x), along_x)
}

/// The rings of one polygon, the outer one first.
pub open spec fn own_rings(p: PolyV) -> Seq<Seq<P>> {
    seq![p.outer] + p.holes
}

/// Six times the area moment of a polygon.
pub open spec fn poly_moment(p: PolyV, along_x: bool) -> int {
    moments(own_rings(p), own_rings(p).len(), along_x)
}

/// The centroid of a polygon can be computed: without an area always.
pub open spec fn centroid_fits(p: PolyV) -> bool {
    &&& poly_area_fits(p)
    &&& poly_area(p) != 0 ==> {
        &&& i128::MIN < 3 * poly_area(p) <= i128::MAX
        &&& moments_fit(own_rings(p), true)
        &&& moments_fit(own_rings(p), false)
        &&& poly_moment(p, true) != i128::MIN
        &&& poly_moment(p, false) != i128::MIN
    }
}

/// The nearest coordinate.
pub open spec fn saturated(v: int) -> i64 {
    if v > i64::MAX {
        i64::MAX
    } else if v < i64::MIN {
        i64::MIN
    } else {
        v as i64
    }
}

/// The area centroid of a polygon with holes, on the grid; without an area,
/// its first vertex.
pub open spec fn centroid_of(p: PolyV) -> P {
    if poly_area(p) == 0 {
        if p.outer.len() == 0 {
            P { x: 0, y: 0 }
        } else {
            p.outer[0]
        }
    } else {
        P {
            x: saturated(nearest_signed(poly_moment(p, true), 3 * poly_area(p))),
            y: saturated(nearest_signed(poly_moment(p, false), 3 * poly_area(p))),
        }
    }
}

/// Add a ring's moment, unless it exceeds the accumulator.
fn add_moment(ring: &Ring, from: i128, along_x: bool) -> (r: Option<i128>)
    ensures
        r is Some <==> ring_moment_fits(ring@, from as int, along_x),
        r matches Some(v) ==> v == from + moment(ring@, ring@.len(), along_x),
{
    let mut sum: i128 = from;
    let n: usize = ring.len();
    let mut i: usize = 0;
    while i < n
        invariant
            i <= n == ring@.len(),
            sum == from + moment(ring@, i as nat, along_x),
            forall|k: int|
                #![trigger ring@[k]]
                0 <= k < i ==> fits(edge_moment(ring@, k, along_x)) && fits(
                    from + moment(ring@, (k + 1) as nat, along_x),
                ),
        decreases n - i,
    {
        let a = ring[i];
        let b = if i + 1 == n {
            ring[0]
        } else {
            ring[i + 1]
        };
        let edge: i128 = edge_cross(a, b);
        let pair: i128 = if along_x {
            a.x as i128 + b.x as i128
        } else {
            a.y as i128 + b.y as i128
        };
        assert(edge_moment(ring@, i as int, along_x) == pair * edge);
        let term: i128 = match pair.checked_mul(edge) {
            Some(v) => v,
            None => {
                assert(!ring_moment_fits(ring@, from as int, along_x)) by {
                    reveal(ring_moment_fits);
                    let p = ring@[i as int];
                }
                return None;
            },
        };
        match sum.checked_add(term) {
            Some(v) => {
                sum = v;
            },
            None => {
                assert(!ring_moment_fits(ring@, from as int, along_x)) by {
                    reveal(ring_moment_fits);
                    assert(!fits(from + moment(ring@, (i + 1) as nat, along_x)));
                    let p = ring@[i as int];
                }
                return None;
            },
        }
        i += 1;
    }
    assert(ring_moment_fits(ring@, from as int, along_x)) by {
        reveal(ring_moment_fits);
    }
    Some(sum)
}

fn edge_cross(a: P, b: P) -> (c: i128)
    ensures
        c == cross(a, b),
{
    proof {
        let lo = i64::MIN * i64::MAX;
        let hi = i64::MIN * i64::MIN;
        assert(lo <= a.x * b.y <= hi && lo <= b.x * a.y <= hi) by (nonlinear_arith)
            requires
                lo == i64::MIN * i64::MAX,
                hi == i64::MIN * i64::MIN,
                i64::MIN <= a.x <= i64::MAX,
                i64::MIN <= b.x <= i64::MAX,
                i64::MIN <= a.y <= i64::MAX,
                i64::MIN <= b.y <= i64::MAX,
        ;
    }
    (a.x as i128) * (b.y as i128) - (b.x as i128) * (a.y as i128)
}

/// A polygon's moment, unless it exceeds the accumulator.
fn try_moment(p: &Poly, along_x: bool) -> (r: Option<i128>)
    ensures
        r is Some <==> moments_fit(own_rings(p.deep_view()), along_x),
        r matches Some(v) ==> v == poly_moment(p.deep_view(), along_x),
{
    let ghost rings = own_rings(p.deep_view());
    assert(rings[0] == p.outer@);
    let mut sum: i128 = match add_moment(&p.outer, 0, along_x) {
        Some(v) => v,
        None => {
            assert(moments(rings, 0, along_x) == 0);
            return None;
        },
    };
    assert(moments(rings, 1, along_x) == sum) by {
        reveal_with_fuel(moments, 2);
    }
    let mut k: usize = 0;
    while k < p.holes.len()
        invariant
            k <= p.holes@.len(),
            rings == own_rings(p.deep_view()),
            sum == moments(rings, (k + 1) as nat, along_x),
            forall|m: int|
                #![trigger rings[m]]
                0 <= m <= k ==> ring_moment_fits(
                    rings[m],
                    moments(rings, m as nat, along_x),
                    along_x,
                ),
        decreases p.holes@.len() - k,
    {
        assert(rings[k + 1] == p.holes@[k as int]@);
        match add_moment(&p.holes[k], sum, along_x) {
            Some(v) => {
                sum = v;
            },
            None => {
                return None;
            },
        }
        k += 1;
    }
    Some(sum)
}

fn saturate(v: i128) -> (r: i64)
    ensures
        r == saturated(v as int),
{
    if v > i64::MAX as i128 {
        i64::MAX
    } else if v < i64::MIN as i128 {
        i64::MIN
    } else {
        v as i64
    }
}

/// The area centroid of a polygon; nothing when a moment exceeds the
/// accumulator.
pub fn centroid(p: &Poly) -> (r: Option<P>)
    ensures
        r is Some <==> centroid_fits(p.deep_view()),
        r matches Some(c) ==> c == centroid_of(p.deep_view()),
{
    let area: i128 = match try_poly_area(p) {
        Some(v) => v,
        None => {
            return None;
        },
    };
    if area == 0 {
        if p.outer.len() == 0 {
            return Some(P { x: 0, y: 0 });
        }
        return Some(p.outer[0]);
    }
    let scale: i128 = match area.checked_mul(3) {
        Some(v) => v,
        None => {
            return None;
        },
    };
    let mx: i128 = match try_moment(p, true) {
        Some(v) => v,
        None => {
            return None;
        },
    };
    let my: i128 = match try_moment(p, false) {
        Some(v) => v,
        None => {
            return None;
        },
    };
    if scale == i128::MIN || mx == i128::MIN || my == i128::MIN {
        return None;
    }
    Some(
        P {
            x: saturate(div_round_nearest(mx, scale)),
            y: saturate(div_round_nearest(my, scale)),
        },
    )
}

// ---------------------------------------------------------------------------
// Residues
// ---------------------------------------------------------------------------

/// An offending region and where it is reported.
#[derive(Debug, PartialEq, Eq)]
pub struct Site {
    pub region: Poly,
    pub location: P,
}

impl DeepView for Site {
    type V = (PolyV, P);

    open spec fn deep_view(&self) -> (PolyV, P) {
        (self.region.deep_view(), self.location)
    }
}

/// A component larger than a crumb: its area reaches the square of a twentieth
/// of the floor.
pub open spec fn is_site(comp: PolyV, floor: int) -> bool {
    poly_area(comp) * 200 >= floor * floor
}

/// The components larger than crumbs, each with its centroid.
pub open spec fn sites_of(residue: Seq<PolyV>, floor: int) -> Seq<(PolyV, P)>
    decreases residue.len(),
{
    if residue.len() == 0 {
        Seq::empty()
    } else if is_site(residue.last(), floor) {
        sites_of(residue.drop_last(), floor).push((residue.last(), centroid_of(residue.last())))
    } else {
        sites_of(residue.drop_last(), floor)
    }
}

/// Every area, and the moments of every component larger than a crumb, fit
/// the accumulator.
pub open spec fn sites_fit(residue: Seq<PolyV>, floor: int) -> bool {
    forall|i: int|
        0 <= i < residue.len() ==> poly_area_fits(#[trigger] residue[i]) && (is_site(
            residue[i],
            floor,
        ) ==> centroid_fits(residue[i]))
}

/// The components of a residue that are reported; nothing when one of them
/// exceeds the accumulator.
pub fn sites(residue: &Vec<Poly>, floor_nm: Nm) -> (r: Option<Vec<Site>>)
    requires
        floor_nm > 0,
    ensures
        r is Some <==> sites_fit(residue.deep_view(), floor_nm as int),
        r matches Some(v) ==> v.deep_view() == sites_of(residue.deep_view(), floor_nm as int),
{
    let ghost rv = residue.deep_view();
    assert(0 <= floor_nm * floor_nm <= i64::MAX * i64::MAX) by (nonlinear_arith)
        requires
            0 <= floor_nm <= i64::MAX,
    ;
    let square: i128 = (floor_nm as i128) * (floor_nm as i128);
    let mut found: Vec<Site> = Vec::new();
    let mut i: usize = 0;
    assert(found.deep_view() =~= sites_of(rv.take(0), floor_nm as int));
    while i < residue.len()
        invariant
            i <= residue@.len(),
            rv == residue.deep_view(),
            square == floor_nm * floor_nm,
            0 <= square <= i64::MAX * i64::MAX,
            forall|k: int|
                0 <= k < i ==> poly_area_fits(#[trigger] rv[k]) && (is_site(
                    rv[k],
                    floor_nm as int,
                ) ==> centroid_fits(rv[k])),
            found.deep_view() == sites_of(rv.take(i as int), floor_nm as int),
        decreases residue@.len() - i,
    {
        let ghost before = found.deep_view();
        assert(rv.take(i + 1).drop_last() =~= rv.take(i as int));
        assert(rv[i as int] == residue@[i as int].deep_view());
        let area: i128 = match try_poly_area(&residue[i]) {
            Some(v) => v,
            None => {
                return None;
            },
        };
        let reported: bool = area >= (square + 199) / 200;
        assert(reported == is_site(rv[i as int], floor_nm as int));
        if reported {
            match centroid(&residue[i]) {
                Some(location) => {
                    found.push(Site { region: residue[i].clone(), location });
                    assert(found.deep_view() =~= before.push(
                        (rv[i as int], centroid_of(rv[i as int])),
                    ));
                },
                None => {
                    return None;
                },
            }
        }
        i += 1;
    }
    assert(rv.take(i as int) =~= rv);
    Some(found)
}

/// Every component of a residue whose area reaches the square of a twentieth of
/// the floor is reported, and no other: the sites are these components, in the
/// order of the residue, each at its centroid.
pub proof fn sites_are_all_but_the_crumbs(residue: Seq<PolyV>, floor: int)
    ensures
        sites_of(residue, floor) == residue.filter(
            |c: PolyV| 200 * poly_area(c) >= floor * floor,
        ).map_values(|c: PolyV| (c, centroid_of(c))),
    decreases residue.len(),
{
    reveal(Seq::filter);
    let big = |c: PolyV| 200 * poly_area(c) >= floor * floor;
    let at = |c: PolyV| (c, centroid_of(c));
    if residue.len() > 0 {
        let r = residue.drop_last();
        sites_are_all_but_the_crumbs(r, floor);
        assert(r.filter(big).push(residue.last()).map_values(at) =~= r.filter(big).map_values(
            at,
        ).push(at(residue.last())));
    } else {
        assert(residue.filter(big).map_values(at) =~= Seq::empty());
    }
}

/// A component of at least the square of a twentieth of the floor has a site of
/// its own, and what has a site is such a component.
pub proof fn residues_above_crumbs_have_sites(residue: Seq<PolyV>, floor: int)
    ensures
        forall|i: int|
            0 <= i < residue.len() && 200 * poly_area(#[trigger] residue[i]) >= floor * floor
                ==> sites_of(residue, floor).contains((residue[i], centroid_of(residue[i]))),
        forall|k: int|
            0 <= k < sites_of(residue, floor).len() ==> {
                let c = (#[trigger] sites_of(residue, floor)[k]).0;
                residue.contains(c) && 200 * poly_area(c) >= floor * floor
            },
    decreases residue.len(),
{
    if residue.len() > 0 {
        let r = residue.drop_last();
        residues_above_crumbs_have_sites(r, floor);
        let before = sites_of(r, floor);
        let all = sites_of(residue, floor);
        assert forall|i: int|
            0 <= i < residue.len() && 200 * poly_area(#[trigger] residue[i]) >= floor
                * floor implies all.contains((residue[i], centroid_of(residue[i]))) by {
            let site = (residue[i], centroid_of(residue[i]));
            if i < r.len() {
                assert(r[i] == residue[i]);
                assert(before.contains(site));
                let k = choose|k: int| 0 <= k < before.len() && before[k] == site;
                assert(all[k] == site);
            } else {
                assert(all[all.len() - 1] == site);
            }
        }
        assert forall|k: int| 0 <= k < all.len() implies ({
            let c = (#[trigger] all[k]).0;
            residue.contains(c) && 200 * poly_area(c) >= floor * floor
        }) by {
            if k < before.len() {
                assert(all[k] == before[k]);
                let c = before[k].0;
                let i = choose|i: int| 0 <= i < r.len() && r[i] == c;
                assert(residue[i] == c);
            } else {
                assert(residue[residue.len() - 1] == all[k].0);
            }
        }
    }
}

proof fn lemma_moment_head(s: Seq<P>, p: P, n: nat, along_x: bool)
    requires
        n < s.len(),
    ensures
        moment(s.push(p), n, along_x) == moment(s, n, along_x),
    decreases n,
{
    if n > 0 {
        lemma_moment_head(s, p, (n - 1) as nat, along_x);
        assert(s.push(p)[n - 1] == s[n - 1]);
        assert(next(s.push(p), n - 1) == s[n as int]);
        assert(next(s, n - 1) == s[n as int]);
    }
}

/// The moment of a ring is made of triangles: one more vertex adds that of the
/// triangle between its neighbors and itself, which weighs its doubled area at
/// the sum of its corners; a ring of two vertices has none.
pub proof fn moment_adds_triangles(s: Seq<P>, p: P, along_x: bool)
    requires
        s.len() >= 2,
    ensures
        moment(s.push(p), s.len() + 1, along_x) == moment(s, s.len(), along_x) + (if along_x {
            s.last().x + p.x + s[0].x
        } else {
            s.last().y + p.y + s[0].y
        }) * triangle(s.last(), p, s[0]),
        s.len() == 2 ==> moment(s, 2, along_x) == 0,
{
    let n = s.len();
    let t = s.push(p);
    lemma_moment_head(s, p, (n - 1) as nat, along_x);
    let l = s.last();
    let f = s[0];
    assert(t[n - 1] == l && next(t, n - 1) == p);
    assert(t[n as int] == p && next(t, n as int) == f);
    assert(next(s, n - 1) == f);
    let a = coord(l, along_x);
    let b = coord(p, along_x);
    let c = coord(f, along_x);
    assert(moment(t, n, along_x) == moment(t, (n - 1) as nat, along_x) + (a + b) * cross(l, p));
    assert(moment(t, n + 1, along_x) == moment(t, n, along_x) + (b + c) * cross(p, f));
    assert(moment(s, n, along_x) == moment(s, (n - 1) as nat, along_x) + (a + c) * cross(l, f));
    if along_x {
        lemma_triangle_moment(l.x as int, l.y as int, p.x as int, p.y as int, f.x as int, f.y as int);
    } else {
        lemma_triangle_moment(l.y as int, l.x as int, p.y as int, p.x as int, f.y as int, f.x as int);
        let (u, v, w) = (cross(l, p), cross(p, f), cross(l, f));
        let area = triangle(l, p, f);
        assert((a + b) * (-u) + (b + c) * (-v) - (a + c) * (-w) == -((a + b) * u + (b + c) * v - (a
            + c) * w)) by (nonlinear_arith);
        assert((a + b + c) * (-area) == -((a + b + c) * area)) by (nonlinear_arith);
        assert(p.y * l.x == l.x * p.y && f.y * p.x == p.x * f.y && f.y * l.x == l.x * f.y && l.y
            * p.x == p.x * l.y && p.y * f.x == f.x * p.y && l.y * f.x == f.x * l.y)
            by (nonlinear_arith);
        assert((p.y - l.y) * (f.x - l.x) - (f.y - l.y) * (p.x - l.x) == -area) by (nonlinear_arith)
            requires
                area == (p.x - l.x) * (f.y - l.y) - (f.x - l.x) * (p.y - l.y),
        ;
    }
    if n == 2 {
        reveal_with_fuel(moment, 3);
        assert(next(s, 0) == l);
        let (u, v) = (cross(f, l), cross(l, f));
        assert(u == -v) by (nonlinear_arith)
            requires
                u == f.x * l.y - l.x * f.y,
                v == l.x * f.y - f.x * l.y,
        ;
        assert((c + a) * u + (a + c) * v == 0) by (nonlinear_arith)
            requires
                u == -v,
        ;
    }
}

proof fn lemma_triangle_moment(lx: int, ly: int, px: int, py: int, fx: int, fy: int)
    ensures
        (lx + px) * (lx * py - px * ly) + (px + fx) * (px * fy - fx * py) - (lx + fx) * (lx * fy - fx
            * ly) == (lx + px + fx) * ((px - lx) * (fy - ly) - (fx - lx) * (py - ly)),
{
    let area = (px - lx) * (fy - ly) - (fx - lx) * (py - ly);
    let (u, v, w) = (lx * py - px * ly, px * fy - fx * py, lx * fy - fx * ly);
    assert(area == u + v - w) by (nonlinear_arith)
        requires
            area == (px - lx) * (fy - ly) - (fx - lx) * (py - ly),
            u == lx * py - px * ly,
            v == px * fy - fx * py,
            w == lx * fy - fx * ly,
    ;
    assert(fx * u + lx * v - px * w == 0) by (nonlinear_arith)
        requires
            u == lx * py - px * ly,
            v == px * fy - fx * py,
            w == lx * fy - fx * ly,
    ;
    let total = lx + px + fx;
    assert(total * (u + v - w) == total * u + total * v - total * w) by (nonlinear_arith);
    assert(total * u == (lx + px) * u + fx * u) by (nonlinear_arith)
        requires
            total == lx + px + fx,
    ;
    assert(total * v == (px + fx) * v + lx * v) by (nonlinear_arith)
        requires
            total == lx + px + fx,
    ;
    assert(total * w == (lx + fx) * w + px * w) by (nonlinear_arith)
        requires
            total == lx + px + fx,
    ;
}

/// The moment of a polygon is that of its rings together.
pub proof fn holes_add_their_moment(
    outer: Seq<P>,
    holes: Seq<Seq<P>>,
    hole: Seq<P>,
    along_x: bool,
)
    ensures
        poly_moment(PolyV { outer, holes: Seq::empty() }, along_x) == moment(
            outer,
            outer.len(),
            along_x,
        ),
        poly_moment(PolyV { outer, holes: holes.push(hole) }, along_x) == poly_moment(
            PolyV { outer, holes },
            along_x,
        ) + moment(hole, hole.len(), along_x),
{
    let a = own_rings(PolyV { outer, holes });
    let b = own_rings(PolyV { outer, holes: holes.push(hole) });
    assert(b =~= a.push(hole));
    lemma_moments_head(a, hole, a.len(), along_x);
    reveal_with_fuel(moments, 2);
    assert(own_rings(PolyV { outer, holes: Seq::empty() }) =~= seq![outer]);
}

proof fn lemma_moments_head(rings: Seq<Seq<P>>, ring: Seq<P>, n: nat, along_x: bool)
    requires
        n <= rings.len(),
    ensures
        moments(rings.push(ring), n, along_x) == moments(rings, n, along_x),
    decreases n,
{
    if n > 0 {
        lemma_moments_head(rings, ring, (n - 1) as nat, along_x);
        assert(rings.push(ring)[n - 1] == rings[n - 1]);
    }
}

/// The centroid balances a polygon: its moment is the doubled area times three
/// times the centroid, up to half a nanometer.
pub proof fn centroid_balances_the_polygon(p: PolyV)
    requires
        poly_area(p) != 0,
        i64::MIN < centroid_of(p).x < i64::MAX,
        i64::MIN < centroid_of(p).y < i64::MAX,
    ensures
        ({
            let a = 3 * poly_area(p);
            let half = if a > 0 {
                a
            } else {
                -a
            };
            let c = centroid_of(p);
            &&& -half <= 2 * (poly_moment(p, true) - a * c.x) <= half
            &&& -half <= 2 * (poly_moment(p, false) - a * c.y) <= half
        }),
{
    let a = 3 * poly_area(p);
    let mx = poly_moment(p, true);
    let my = poly_moment(p, false);
    let x = nearest_signed(mx, a);
    let y = nearest_signed(my, a);
    if a > 0 {
        nearest_is_close(mx, a);
        nearest_is_close(my, a);
    } else {
        nearest_is_close(-mx, -a);
        nearest_is_close(-my, -a);
        assert((-a) * x == -(a * x) && (-a) * y == -(a * y)) by (nonlinear_arith);
    }
}

/// The copper a check works on.
pub fn copper_of(layer: &Layer) -> (copper: Vec<Poly>)
    requires
        polys_in_range(layer.polys.deep_view()),
    ensures
        copper.deep_view() == boolean_of(layer.polys.deep_view(), Seq::empty(), BoolOp::Union),
        copper.deep_view() == normal_of(layer.polys.deep_view()),
        polys_in_range(copper.deep_view()),
{
    let none: Vec<Poly> = Vec::new();
    assert(none.deep_view() =~= Seq::<PolyV>::empty());
    union(layer.polys.as_slice(), none.as_slice())
}

/// Where the copper's closing bridges gaps. `closing` is the copper grown by
/// the near radius and shrunk by the deep one.
pub fn gap_sites(copper: &[Poly], closing: &[Poly], floor_nm: Nm) -> (r: Option<Vec<Site>>)
    requires
        floor_nm > 0,
        polys_in_range(copper.deep_view()),
        polys_in_range(closing.deep_view()),
    ensures
        ({
            let residue = boolean_of(closing.deep_view(), copper.deep_view(), BoolOp::Difference);
            &&& r is Some <==> sites_fit(residue, floor_nm as int)
            &&& r matches Some(v) ==> v.deep_view() == sites_of(residue, floor_nm as int)
        }),
        closing.deep_view() == copper.deep_view() ==> (r matches Some(v) && v@.len() == 0),
{
    let residue = difference(closing, copper);
    sites(&residue, floor_nm)
}

/// Where the copper is thinner than the floor. `opening` is the copper shrunk
/// by the near radius and grown by the deep one.
pub fn trace_sites(copper: &[Poly], opening: &[Poly], floor_nm: Nm) -> (r: Option<Vec<Site>>)
    requires
        floor_nm > 0,
        polys_in_range(copper.deep_view()),
        polys_in_range(opening.deep_view()),
    ensures
        ({
            let residue = boolean_of(copper.deep_view(), opening.deep_view(), BoolOp::Difference);
            &&& r is Some <==> sites_fit(residue, floor_nm as int)
            &&& r matches Some(v) ==> v.deep_view() == sites_of(residue, floor_nm as int)
        }),
        opening.deep_view() == copper.deep_view() ==> (r matches Some(v) && v@.len() == 0),
{
    let residue = difference(copper, opening);
    sites(&residue, floor_nm)
}

/// The violations at the sites of one kind, with their measured widths.
pub fn violations(kind: ViolationKind, found: &Vec<Site>, widths: &Vec<Option<Nm>>) -> (r: Vec<
    Violation,
>)
    requires
        found@.len() == widths@.len(),
    ensures
        r@.len() == found@.len(),
        forall|i: int|
            0 <= i < r@.len() ==> #[trigger] r@[i] == (Violation {
                kind,
                location: found@[i].location,
                measured_nm: widths@[i],
            }),
{
    let mut r: Vec<Violation> = Vec::new();
    let mut i: usize = 0;
    while i < found.len()
        invariant
            i == r@.len(),
            i <= found@.len(),
            found@.len() == widths@.len(),
            forall|k: int|
                0 <= k < i ==> #[trigger] r@[k] == (Violation {
                    kind,
                    location: found@[k].location,
                    measured_nm: widths@[k],
                }),
        decreases found@.len() - i,
    {
        r.push(Violation { kind, location: found[i].location, measured_nm: widths[i] });
        i += 1;
    }
    r
}

} // verus!
