//! Shared types: points, polygons, tool paths and process parameters.
use vstd::prelude::*;

verus! {

/// Integer nanometers.
pub type Nm = i64;

/// Nanometers in one micrometer.
pub const NM_PER_UM: Nm = 1_000;

/// Nanometers in one millimeter.
pub const NM_PER_MM: Nm = 1_000_000;

/// A point in board space, nanometers.
#[derive(Debug, Clone, Copy, PartialEq, Eq, Hash, PartialOrd, Ord, Structural)]
pub struct P {
    pub x: Nm,
    pub y: Nm,
}

impl P {
    pub fn new(x: Nm, y: Nm) -> (p: Self)
        ensures
            p.x == x,
            p.y == y,
    {
        P { x, y }
    }
}

impl Default for P {
    fn default() -> (p: Self)
        ensures
            p.x == 0,
            p.y == 0,
    {
        P { x: 0, y: 0 }
    }
}

impl DeepView for P {
    type V = P;

    open spec fn deep_view(&self) -> P {
        *self
    }
}

/// A closed ring of vertices. Closure is implicit: the last vertex connects
/// back to the first, which is not repeated at the end.
pub type Ring = Vec<P>;

/// A polygon with holes. By convention `outer` is counter-clockwise and each
/// hole is clockwise.
#[derive(Debug, PartialEq, Eq)]
pub struct Poly {
    pub outer: Ring,
    pub holes: Vec<Ring>,
}

/// The mathematical value of a [`Poly`].
#[verifier::ext_equal]
pub struct PolyV {
    pub outer: Seq<P>,
    pub holes: Seq<Seq<P>>,
}

impl DeepView for Poly {
    type V = PolyV;

    open spec fn deep_view(&self) -> PolyV {
        PolyV { outer: self.outer.deep_view(), holes: self.holes.deep_view() }
    }
}

impl Default for Poly {
    fn default() -> (p: Self)
        ensures
            p.outer@.len() == 0,
            p.holes@.len() == 0,
    {
        Poly { outer: Vec::new(), holes: Vec::new() }
    }
}

impl Clone for Poly {
    fn clone(&self) -> (p: Self)
        ensures
            p.deep_view() == self.deep_view(),
    {
        let outer = clone_ring(&self.outer);
        let holes = clone_rings(&self.holes);
        Poly { outer, holes }
    }
}

/// A ring read through its elements' views is the ring itself.
pub broadcast proof fn lemma_ring_view(r: Ring)
    ensures
        #[trigger] r.deep_view() == r@,
{
    assert(r.deep_view() =~= r@);
}

/// A copy of one ring.
pub fn clone_ring(ring: &Ring) -> (copy: Ring)
    ensures
        copy@ == ring@,
        copy.deep_view() == ring.deep_view(),
{
    let mut copy: Ring = Vec::new();
    let mut i: usize = 0;
    while i < ring.len()
        invariant
            i <= ring.len(),
            copy@ =~= ring@.take(i as int),
        decreases ring.len() - i,
    {
        copy.push(ring[i]);
        i += 1;
    }
    copy
}

/// A copy of a list of rings.
pub fn clone_rings(rings: &Vec<Ring>) -> (copy: Vec<Ring>)
    ensures
        copy.deep_view() == rings.deep_view(),
{
    let mut copy: Vec<Ring> = Vec::new();
    let mut i: usize = 0;
    while i < rings.len()
        invariant
            i <= rings.len(),
            copy.len() == i,
            forall|j: int| 0 <= j < i ==> (#[trigger] copy@[j]).deep_view() == rings@[j].deep_view(),
        decreases rings.len() - i,
    {
        let r = clone_ring(&rings[i]);
        copy.push(r);
        i += 1;
    }
    assert(copy.deep_view() =~= rings.deep_view());
    copy
}

/// A copy of a list of polygons.
pub fn clone_polys(polys: &[Poly]) -> (copy: Vec<Poly>)
    ensures
        copy.deep_view() == polys.deep_view(),
{
    let mut copy: Vec<Poly> = Vec::new();
    let mut i: usize = 0;
    while i < polys.len()
        invariant
            i <= polys.len(),
            copy.len() == i,
            forall|j: int| 0 <= j < i ==> (#[trigger] copy@[j]).deep_view() == polys@[j].deep_view(),
        decreases polys.len() - i,
    {
        let p = polys[i].clone();
        copy.push(p);
        i += 1;
    }
    assert(copy.deep_view() =~= polys.deep_view());
    copy
}

/// One board layer (copper, mask, silk, paste) as filled polygons.
#[derive(Debug, PartialEq, Eq)]
pub struct Layer {
    pub polys: Vec<Poly>,
}

impl DeepView for Layer {
    type V = Seq<PolyV>;

    open spec fn deep_view(&self) -> Seq<PolyV> {
        self.polys.deep_view()
    }
}

impl Default for Layer {
    fn default() -> (l: Self)
        ensures
            l.polys@.len() == 0,
    {
        Layer { polys: Vec::new() }
    }
}

impl Clone for Layer {
    fn clone(&self) -> (l: Self)
        ensures
            l.deep_view() == self.deep_view(),
    {
        Layer { polys: clone_polys(self.polys.as_slice()) }
    }
}

/// What a path element is for.
#[derive(Debug, Clone, Copy, PartialEq, Eq, Hash, Structural)]
pub enum PathKind {
    /// Isolation contour; 0 = closest to the copper boundary.
    Isolation(u32),
    /// Rub-out hatch line, tagged with the pass index whose angle it carries.
    Rubout(u32),
    /// Force-clear centerline through a sliver below the minimum feature.
    ForceClear,
    /// The exact design-edge contour (UV finishing set).
    Boundary,
    /// Fiducial / tooling mark.
    Mark,
    /// Board-outline through-cut segment, broken by holding tabs.
    Cut,
}

/// A single polyline the laser will trace.
#[derive(Debug, PartialEq, Eq)]
pub struct PathElem {
    pub kind: PathKind,
    pub pts: Vec<P>,
    /// If true the last vertex connects back to the first.
    pub closed: bool,
}

/// The mathematical value of a [`PathElem`].
#[verifier::ext_equal]
pub struct ElemV {
    pub kind: PathKind,
    pub pts: Seq<P>,
    pub closed: bool,
}

impl DeepView for PathElem {
    type V = ElemV;

    open spec fn deep_view(&self) -> ElemV {
        ElemV { kind: self.kind, pts: self.pts.deep_view(), closed: self.closed }
    }
}

impl Clone for PathElem {
    fn clone(&self) -> (e: Self)
        ensures
            e.deep_view() == self.deep_view(),
    {
        PathElem { kind: self.kind, pts: clone_ring(&self.pts), closed: self.closed }
    }
}

/// An ordered collection of path elements (one machine's job geometry).
#[derive(Debug, PartialEq, Eq)]
pub struct Paths {
    pub elems: Vec<PathElem>,
}

impl DeepView for Paths {
    type V = Seq<ElemV>;

    open spec fn deep_view(&self) -> Seq<ElemV> {
        self.elems.deep_view()
    }
}

impl Default for Paths {
    fn default() -> (p: Self)
        ensures
            p.elems@.len() == 0,
    {
        Paths { elems: Vec::new() }
    }
}

impl Clone for Paths {
    fn clone(&self) -> (p: Self)
        ensures
            p.deep_view() == self.deep_view(),
    {
        let mut elems: Vec<PathElem> = Vec::new();
        let mut i: usize = 0;
        while i < self.elems.len()
            invariant
                i <= self.elems.len(),
                elems.len() == i,
            forall|j: int| 0 <= j < i ==> (#[trigger] elems@[j]).deep_view() == self.elems@[j].deep_view(),
            decreases self.elems.len() - i,
        {
            let e = self.elems[i].clone();
            elems.push(e);
            i += 1;
        }
        assert(elems.deep_view() =~= self.elems.deep_view());
        Paths { elems }
    }
}

/// Which physical machine a job targets.
#[derive(Debug, Clone, Copy, PartialEq, Eq, Hash, Structural)]
pub enum Machine {
    Fiber,
    Uv,
}

/// Bit pattern of the sign of a double-precision number: the lowest pattern
/// of a negative one.
pub const SIGN_BIT: u64 = 0x8000_0000_0000_0000;

/// Rank of positive infinity; every finite number ranks strictly closer to
/// zero.
pub const INFINITE_RANK: i64 = 0x7ff0_0000_0000_0000;

/// Rank of one hundred.
pub const HUNDRED_RANK: i64 = 0x4059_0000_0000_0000;

/// A double-precision quantity carried by its bit pattern.
#[derive(Debug, Clone, Copy, PartialEq, Eq, Hash, Structural)]
pub struct Quantity {
    pub bits: u64,
}

impl Quantity {
    /// The position of the quantity on the number line. Two quantities that
    /// are numbers compare exactly as their ranks do, and both zeros have
    /// rank 0.
    pub open spec fn rank(self) -> int {
        if self.bits < SIGN_BIT {
            self.bits as int
        } else {
            SIGN_BIT - self.bits
        }
    }

    /// Neither infinite nor not-a-number.
    pub open spec fn finite(self) -> bool {
        -INFINITE_RANK < self.rank() < INFINITE_RANK
    }

    /// Not not-a-number.
    pub open spec fn number(self) -> bool {
        -INFINITE_RANK <= self.rank() <= INFINITE_RANK
    }

    pub fn from_bits(bits: u64) -> (q: Self)
        ensures
            q.bits == bits,
    {
        Quantity { bits }
    }

    /// The rank as an integer.
    pub fn to_rank(self) -> (r: i64)
        ensures
            r == self.rank(),
    {
        if self.bits < SIGN_BIT {
            self.bits as i64
        } else {
            let magnitude: u64 = self.bits - SIGN_BIT;
            -(magnitude as i64)
        }
    }

    pub fn is_finite(self) -> (b: bool)
        ensures
            b == self.finite(),
    {
        let r: i64 = self.to_rank();
        -INFINITE_RANK < r && r < INFINITE_RANK
    }

    pub fn is_number(self) -> (b: bool)
        ensures
            b == self.number(),
    {
        let r: i64 = self.to_rank();
        -INFINITE_RANK <= r && r <= INFINITE_RANK
    }
}

/// Laser process parameters for one op (one material-table row).
#[derive(Debug, Clone, Copy, PartialEq, Eq, Structural)]
pub struct AblationParams {
    pub power_pct: Quantity,
    pub speed_mm_s: Quantity,
    pub frequency_khz: Quantity,
    /// Q-pulse width, ns (MOPA); 0 = source default.
    pub pulse_ns: u32,
    pub passes: u32,
}

/// Validation failure for parameters that can reach a laser or generate a job.
#[derive(Debug, Clone, Copy, PartialEq, Eq)]
pub struct ParamError(pub &'static str);

impl AblationParams {
    /// The complaint about the first parameter out of range, in the order
    /// power, speed, frequency, passes; none if the recipe is usable.
    pub open spec fn fault(self) -> Option<Seq<char>> {
        if !(self.power_pct.finite() && 0 <= self.power_pct.rank() <= HUNDRED_RANK) {
            Some("power_pct must be finite and in 0..=100"@)
        } else if self.power_pct.rank() == 0 {
            Some("power_pct must be greater than zero"@)
        } else if !(self.speed_mm_s.finite() && self.speed_mm_s.rank() > 0) {
            Some("speed_mm_s must be finite and greater than zero"@)
        } else if !(self.frequency_khz.finite() && self.frequency_khz.rank() > 0) {
            Some("frequency_khz must be finite and greater than zero"@)
        } else if self.passes == 0 {
            Some("passes must be at least one"@)
        } else if self.passes > 100_000 {
            Some("passes must not exceed 100000"@)
        } else {
            None
        }
    }

    /// Reject recipes that are silent no-ops or expand into unreasonable work.
    pub fn validate(&self) -> (r: Result<(), ParamError>)
        ensures
            r is Ok <==> self.fault() is None,
            r matches Err(e) ==> self.fault() == Some(e.0@),
    {
        if !self.power_pct.is_finite() || self.power_pct.to_rank() < 0
            || self.power_pct.to_rank() > HUNDRED_RANK {
            return Err(ParamError("power_pct must be finite and in 0..=100"));
        }
        if self.power_pct.to_rank() == 0 {
            return Err(ParamError("power_pct must be greater than zero"));
        }
        if !self.speed_mm_s.is_finite() || self.speed_mm_s.to_rank() <= 0 {
            return Err(ParamError("speed_mm_s must be finite and greater than zero"));
        }
        if !self.frequency_khz.is_finite() || self.frequency_khz.to_rank() <= 0 {
            return Err(ParamError("frequency_khz must be finite and greater than zero"));
        }
        if self.passes == 0 {
            return Err(ParamError("passes must be at least one"));
        }
        if self.passes > 100_000 {
            return Err(ParamError("passes must not exceed 100000"));
        }
        Ok(())
    }
}

/// How passes are grouped into checkpointed job files.
#[derive(Debug, Clone, Copy, PartialEq, Eq, Structural)]
pub struct PassPlan {
    pub group_size: u32,
    pub max_corrective_iters: u32,
}

/// Board-outline through-cut (depaneling) parameters, in millimeters.
///
/// The kerf, the depth per pass and the focal step are machine facts measured
/// on scrap board.
#[derive(Debug, Clone, Copy, PartialEq, Eq, Structural)]
pub struct CutOpts {
    /// Measured beam kerf width at focus.
    pub kerf_mm: Quantity,
    /// Holding tabs left per closed ring.
    pub tab_count: u32,
    /// Width of solid material each tab leaves standing.
    pub tab_mm: Quantity,
    /// Depth removed per pass at the cut process parameters.
    pub mm_per_pass: Quantity,
    /// Maximum focal-plane drop per step.
    pub z_step_mm: Quantity,
    /// Extra commanded depth past the far face so the cut fully severs.
    pub overcut_mm: Quantity,
    /// Which machine cuts.
    pub machine: Machine,
}

impl CutOpts {
    /// The complaint about the first fact out of range, thickness first; none
    /// if a focus schedule can be computed.
    pub open spec fn fault(self, thickness_nm: Nm) -> Option<Seq<char>> {
        if thickness_nm <= 0 {
            Some("board thickness must be greater than zero"@)
        } else if !(self.kerf_mm.finite() && self.kerf_mm.rank() > 0) {
            Some("kerf_mm must be finite and greater than zero"@)
        } else if !(self.tab_mm.finite() && self.tab_mm.rank() >= 0) {
            Some("tab_mm must be finite and non-negative"@)
        } else if !(self.mm_per_pass.finite() && self.mm_per_pass.rank() > 0) {
            Some("mm_per_pass must be finite and greater than zero"@)
        } else if !(self.z_step_mm.finite() && self.z_step_mm.rank() > 0) {
            Some("z_step_mm must be finite and greater than zero"@)
        } else if !(self.overcut_mm.finite() && self.overcut_mm.rank() >= 0) {
            Some("overcut_mm must be finite and non-negative"@)
        } else {
            None
        }
    }

    /// Validate measured machine facts before computing a focus schedule.
    pub fn validate(&self, thickness_nm: Nm) -> (r: Result<(), ParamError>)
        ensures
            r is Ok <==> self.fault(thickness_nm) is None,
            r matches Err(e) ==> self.fault(thickness_nm) == Some(e.0@),
    {
        if thickness_nm <= 0 {
            return Err(ParamError("board thickness must be greater than zero"));
        }
        if !self.kerf_mm.is_finite() || self.kerf_mm.to_rank() <= 0 {
            return Err(ParamError("kerf_mm must be finite and greater than zero"));
        }
        if !self.tab_mm.is_finite() || self.tab_mm.to_rank() < 0 {
            return Err(ParamError("tab_mm must be finite and non-negative"));
        }
        if !self.mm_per_pass.is_finite() || self.mm_per_pass.to_rank() <= 0 {
            return Err(ParamError("mm_per_pass must be finite and greater than zero"));
        }
        if !self.z_step_mm.is_finite() || self.z_step_mm.to_rank() <= 0 {
            return Err(ParamError("z_step_mm must be finite and greater than zero"));
        }
        if !self.overcut_mm.is_finite() || self.overcut_mm.to_rank() < 0 {
            return Err(ParamError("overcut_mm must be finite and non-negative"));
        }
        Ok(())
    }
}

/// A recipe runs exactly if its power lies above nothing and up to full, its speed
/// and frequency are positive, all of them finite, and it has one to a hundred
/// thousand passes.
pub proof fn recipes_that_run(p: AblationParams)
    ensures
        p.fault() is None <==> {
            &&& p.power_pct.finite() && 0 < p.power_pct.rank() <= HUNDRED_RANK
            &&& p.speed_mm_s.finite() && 0 < p.speed_mm_s.rank()
            &&& p.frequency_khz.finite() && 0 < p.frequency_khz.rank()
            &&& 1 <= p.passes <= 100_000
        },
{
}

} // verus!
