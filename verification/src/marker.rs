//! Laser-ablation backends: their life cycle, and what a simulated one stamps.
use vstd::prelude::*;
use crate::geom::next;
use crate::model::{lemma_ring_view, AblationParams, ElemV, Nm, PathElem, NM_PER_UM, P};
use crate::num::{ceil_sqrt, is_ceil_root};
use crate::order::{dist2, jump2};
use crate::text::put;

verus! {

broadcast use lemma_ring_view;

/// Errors a backend can report.
#[derive(Debug, PartialEq, Eq)]
pub enum MarkerError {
    /// Marking came before the process parameters.
    NotConfigured,
    /// The hardware failed in the middle of a job.
    Backend(String),
    /// The process parameters are invalid.
    InvalidParams(String),
    /// The geometry would take an unbounded amount of work.
    InvalidGeometry(String),
}

impl MarkerError {
    /// The message of an error.
    pub open spec fn text(self) -> Seq<char> {
        match self {
            MarkerError::NotConfigured =>
                "marker used before configure() set process parameters"@,
            MarkerError::Backend(msg) => "marker backend fault: "@ + msg@,
            MarkerError::InvalidParams(msg) => "invalid marker parameters: "@ + msg@,
            MarkerError::InvalidGeometry(msg) => "invalid marker geometry: "@ + msg@,
        }
    }

    /// The message of an error.
    pub fn message(&self) -> (s: String)
        ensures
            s@ == self.text(),
    {
        let mut s = String::new();
        match self {
            MarkerError::NotConfigured => {
                put(&mut s, "marker used before configure() set process parameters");
            },
            MarkerError::Backend(msg) => {
                put(&mut s, "marker backend fault: ");
                put(&mut s, msg.as_str());
            },
            MarkerError::InvalidParams(msg) => {
                put(&mut s, "invalid marker parameters: ");
                put(&mut s, msg.as_str());
            },
            MarkerError::InvalidGeometry(msg) => {
                put(&mut s, "invalid marker geometry: ");
                put(&mut s, msg.as_str());
            },
        }
        assert(s@ =~= self.text());
        s
    }
}

/// Coarse backend state.
#[derive(Debug, Clone, Copy, PartialEq, Eq, Structural)]
pub enum MarkerStatus {
    /// Nothing has been marked yet.
    Idle,
    /// At least one job has been marked.
    Complete,
}

/// How far a backend is: its pass count once it is configured, and whether it
/// has marked a job.
#[derive(Debug, Clone, Copy, PartialEq, Eq, Structural)]
pub struct Lifecycle {
    pub passes: Option<u32>,
    pub marked: bool,
}

impl Lifecycle {
    /// A configured backend has at least one pass to run.
    pub open spec fn wf(self) -> bool {
        self.passes matches Some(n) ==> n >= 1
    }

    /// A backend that has not been configured.
    pub fn new() -> (s: Self)
        ensures
            s.wf(),
            s == (Lifecycle { passes: None, marked: false }),
    {
        Lifecycle { passes: None, marked: false }
    }

    /// Load process parameters for the jobs that follow. Without a pass there
    /// would be nothing marked and still a job complete.
    pub fn configure(&mut self, params: &AblationParams) -> (r: Result<(), MarkerError>)
        requires
            old(self).wf(),
        ensures
            final(self).wf(),
            final(self).marked == old(self).marked,
            r is Ok <==> params.fault() is None,
            r is Ok ==> final(self).passes == Some(params.passes),
            r is Err ==> *final(self) == *old(self),
            r matches Err(e) ==> (e matches MarkerError::InvalidParams(msg) && params.fault()
                == Some(msg@)),
    {
        match params.validate() {
            Ok(_) => {
                self.passes = Some(params.passes);
                Ok(())
            },
            Err(e) => Err(MarkerError::InvalidParams(String::from_str(e.0))),
        }
    }

    /// How often the next job is run.
    pub fn begin(&self) -> (r: Result<u32, MarkerError>)
        requires
            self.wf(),
        ensures
            r is Ok <==> self.passes is Some,
            r matches Ok(n) ==> self.passes == Some(n) && n >= 1,
            r matches Err(e) ==> e is NotConfigured,
    {
        match self.passes {
            Some(n) => Ok(n),
            None => Err(MarkerError::NotConfigured),
        }
    }

    /// A job has been marked.
    pub fn finish(&mut self)
        requires
            old(self).wf(),
        ensures
            final(self).wf(),
            final(self).passes == old(self).passes,
            final(self).marked,
    {
        self.marked = true;
    }

    /// The completion signal.
    pub fn status(&self) -> (s: MarkerStatus)
        ensures
            s == if self.marked {
                MarkerStatus::Complete
            } else {
                MarkerStatus::Idle
            },
    {
        if self.marked {
            MarkerStatus::Complete
        } else {
            MarkerStatus::Idle
        }
    }
}

// ---------------------------------------------------------------------------
// Raster frame
// ---------------------------------------------------------------------------

/// How many pixels of size `px` cover a length: at least one.
pub open spec fn pixels(len: int, px: int) -> int {
    if len <= 0 {
        1
    } else {
        (len + px - 1) / px
    }
}

/// Image extent in pixels.
pub fn span_px(len: Nm, px: Nm) -> (n: u32)
    requires
        px > 0,
        pixels(len as int, px as int) <= u32::MAX,
    ensures
        n == pixels(len as int, px as int),
        n >= 1,
{
    if len <= 0 {
        return 1;
    }
    let n: i64 = (len - 1) / px + 1;
    proof {
        assert((len - 1) / px as int + 1 == (len + px - 1) / px as int) by (nonlinear_arith)
            requires
                len > 0,
                px > 0,
        ;
    }
    n as u32
}

/// A frame of pixels over a box of the board.
#[derive(Debug, Clone, Copy, PartialEq, Eq, Structural)]
pub struct Frame {
    pub min: P,
    pub max: P,
    pub um_per_px: u32,
    pub w: u32,
    pub h: u32,
}

impl Frame {
    /// The frame over a box at a pitch in micrometers per pixel.
    pub fn new(min: P, max: P, um_per_px: u32) -> (f: Frame)
        requires
            um_per_px > 0,
            min.x <= max.x,
            min.y <= max.y,
            max.x - min.x <= i64::MAX,
            max.y - min.y <= i64::MAX,
            pixels(max.x - min.x, um_per_px * NM_PER_UM) <= u32::MAX,
            pixels(max.y - min.y, um_per_px * NM_PER_UM) <= u32::MAX,
        ensures
            f.min == min,
            f.max == max,
            f.um_per_px == um_per_px,
            f.w == pixels(max.x - min.x, um_per_px * NM_PER_UM),
            f.h == pixels(max.y - min.y, um_per_px * NM_PER_UM),
            f.w >= 1,
            f.h >= 1,
    {
        let px: i64 = um_per_px as i64 * NM_PER_UM;
        let w: u32 = span_px(max.x - min.x, px);
        let h: u32 = span_px(max.y - min.y, px);
        Frame { min, max, um_per_px, w, h }
    }

    /// Width and height in pixels.
    pub fn dimensions(&self) -> (r: (u32, u32))
        ensures
            r == (self.w, self.h),
    {
        (self.w, self.h)
    }
}

// ---------------------------------------------------------------------------
// Stamps
// ---------------------------------------------------------------------------

/// No segment is stamped more often than this.
pub const MAX_STAMPS_PER_SEGMENT: u64 = 10_000_000;

/// Largest spot, in nanometers.
pub const MAX_SPOT_NM: Nm = 0x100_0000_0000;

/// One piece of stamping work: along a segment without its end, or at a point.
#[derive(Debug, Clone, Copy, PartialEq, Eq, Structural)]
pub enum Stroke {
    Along(P, P),
    At(P),
}

/// The segments of a polyline up to number `n`.
pub open spec fn along(pts: Seq<P>, n: nat) -> Seq<Stroke> {
    Seq::new(n, |k: int| Stroke::Along(pts[k], next(pts, k)))
}

/// What stamping an element takes: nothing without points, one stamp for a
/// single point, else the segments, and the last point of an open element,
/// where no segment starts.
pub open spec fn strokes_of(e: ElemV) -> Seq<Stroke> {
    let n = e.pts.len();
    if n == 0 {
        Seq::empty()
    } else if n == 1 {
        seq![Stroke::At(e.pts[0])]
    } else if e.closed {
        along(e.pts, n)
    } else {
        along(e.pts, (n - 1) as nat).push(Stroke::At(e.pts[n - 1]))
    }
}

/// The stamping work of an element.
pub fn strokes(e: &PathElem) -> (r: Vec<Stroke>)
    ensures
        r@ == strokes_of(e.deep_view()),
{
    let n: usize = e.pts.len();
    let mut r: Vec<Stroke> = Vec::new();
    if n == 0 {
        return r;
    }
    if n == 1 {
        r.push(Stroke::At(e.pts[0]));
        assert(r@ =~= strokes_of(e.deep_view()));
        return r;
    }
    let last: usize = if e.closed {
        n
    } else {
        n - 1
    };
    let mut k: usize = 0;
    while k < last
        invariant
            k <= last <= n == e.pts@.len(),
            r@ =~= along(e.pts@, k as nat),
        decreases last - k,
    {
        let b = if k + 1 == n {
            e.pts[0]
        } else {
            e.pts[k + 1]
        };
        assert(b == next(e.pts@, k as int));
        r.push(Stroke::Along(e.pts[k], b));
        k += 1;
    }
    if !e.closed {
        r.push(Stroke::At(e.pts[n - 1]));
    }
    assert(r@ =~= strokes_of(e.deep_view()));
    r
}

/// The stamps on a segment are no farther apart than a quarter of the spot.
pub open spec fn close_enough(k: int, a: P, b: P, spot_nm: int) -> bool {
    16 * dist2(a, b) <= (k * spot_nm) * (k * spot_nm)
}

/// The least number of stamps on a segment, at least one.
pub open spec fn is_stamp_count(k: int, a: P, b: P, spot_nm: int) -> bool {
    &&& k >= 1
    &&& close_enough(k, a, b, spot_nm)
    &&& k > 1 ==> !close_enough(k - 1, a, b, spot_nm)
}

/// How often a segment is stamped; nothing beyond the limit.
pub fn stamp_count(a: P, b: P, spot_nm: Nm) -> (r: Option<u64>)
    requires
        1 <= spot_nm <= MAX_SPOT_NM,
    ensures
        r is Some <==> close_enough(MAX_STAMPS_PER_SEGMENT as int, a, b, spot_nm as int),
        r matches Some(k) ==> k <= MAX_STAMPS_PER_SEGMENT && is_stamp_count(
            k as int,
            a,
            b,
            spot_nm as int,
        ),
{
    let s: u128 = spot_nm as u128;
    let reach: u128 = MAX_STAMPS_PER_SEGMENT as u128 * s;
    let dx: i128 = a.x as i128 - b.x as i128;
    let dy: i128 = a.y as i128 - b.y as i128;
    let m: i128 = 0x4000_0000_0000_0000;
    assert(reach * reach <= 0x8000_0000_0000_0000_0000_0000_0000_0000) by (nonlinear_arith)
        requires
            reach <= 10_000_000 * 0x100_0000_0000,
    ;
    if dx > m || dx < -m || dy > m || dy < -m {
        proof {
            assert(dx * dx > m * m || dy * dy > m * m) by (nonlinear_arith)
                requires
                    m > 0,
                    dx > m || dx < -m || dy > m || dy < -m,
            ;
            assert(dx * dx >= 0 && dy * dy >= 0) by (nonlinear_arith);
            assert(m * m == 0x1000_0000_0000_0000_0000_0000_0000_0000) by (nonlinear_arith)
                requires
                    m == 0x4000_0000_0000_0000,
            ;
        }
        return None;
    }
    let d: i128 = jump2(a, b);
    assert(dist2(a, b) >= 0) by (nonlinear_arith);
    let limit: u128 = (reach * reach) / 16;
    if d as u128 > limit {
        return None;
    }
    let root: u128 = ceil_sqrt(16 * d as u128);
    let k: u128 = if root == 0 {
        1
    } else {
        (root - 1) / s + 1
    };
    proof {
        lemma_stamp_count(k as int, root as int, a, b, s as int);
        let most = MAX_STAMPS_PER_SEGMENT as int;
        assert(16 * d <= reach * reach);
        if k > most {
            assert((most * s) * (most * s) <= ((k - 1) * s) * ((k - 1) * s)) by (nonlinear_arith)
                requires
                    0 <= most <= k - 1,
                    s >= 1,
            ;
        }
    }
    Some(k as u64)
}

/// The least multiple of the spot that covers the root is the stamp count.
proof fn lemma_stamp_count(k: int, root: int, a: P, b: P, s: int)
    requires
        s >= 1,
        is_ceil_root(root, 16 * dist2(a, b)),
        (root == 0 && k == 1) || (root > 0 && k == (root - 1) / s + 1),
    ensures
        is_stamp_count(k, a, b, s),
{
    let n = 16 * dist2(a, b);
    if root == 0 {
        assert((k * s) * (k * s) >= 0) by (nonlinear_arith);
    } else {
        assert((k - 1) * s <= root - 1 < k * s && k >= 1) by (nonlinear_arith)
            requires
                k == (root - 1) / s + 1,
                s >= 1,
                root >= 1,
        ;
        assert(n <= (k * s) * (k * s)) by (nonlinear_arith)
            requires
                n <= root * root,
                0 <= root <= k * s,
        ;
        if k > 1 {
            assert(((k - 1) * s) * ((k - 1) * s) < n) by (nonlinear_arith)
                requires
                    (root - 1) * (root - 1) < n,
                    0 <= (k - 1) * s <= root - 1,
            ;
        }
    }
}

/// The pixels of a length cover it, and one less would not; there is always one.
pub proof fn pixels_cover_the_length(len: int, px: int)
    requires
        px > 0,
    ensures
        pixels(len, px) >= 1,
        pixels(len, px) * px >= len,
        pixels(len, px) > 1 ==> (pixels(len, px) - 1) * px < len,
{
    if len > 0 {
        let q = (len + px - 1) / px;
        vstd::arithmetic::div_mod::lemma_fundamental_div_mod(len + px - 1, px);
        assert(q >= 1 && q * px >= len && (q - 1) * px < len) by (nonlinear_arith)
            requires
                len + px - 1 == px * q + (len + px - 1) % px,
                0 <= (len + px - 1) % px < px,
                px > 0,
                len > 0,
        ;
    }
}

/// Stamping goes along every segment of an element in turn, round to the start
/// for a closed one and to a stamp on the last point for an open one.
pub proof fn strokes_go_round_the_element(e: ElemV, k: int)
    requires
        e.pts.len() >= 2,
        0 <= k < e.pts.len() - 1,
    ensures
        strokes_of(e).len() == e.pts.len(),
        strokes_of(e)[k] == Stroke::Along(e.pts[k], e.pts[k + 1]),
        strokes_of(e).last() == if e.closed {
            Stroke::Along(e.pts.last(), e.pts.first())
        } else {
            Stroke::At(e.pts.last())
        },
{
}

/// The stamps of a segment lie no farther apart than a quarter of the spot, and
/// no smaller number of stamps would do.
pub proof fn stamps_leave_no_gaps(k: int, a: P, b: P, spot_nm: int, j: int)
    requires
        is_stamp_count(k, a, b, spot_nm),
        spot_nm >= 1,
        1 <= j < k,
    ensures
        16 * ((a.x - b.x) * (a.x - b.x) + (a.y - b.y) * (a.y - b.y)) <= (k * spot_nm) * (k
            * spot_nm),
        16 * ((a.x - b.x) * (a.x - b.x) + (a.y - b.y) * (a.y - b.y)) > (j * spot_nm) * (j
            * spot_nm),
{
    assert((j * spot_nm) * (j * spot_nm) <= ((k - 1) * spot_nm) * ((k - 1) * spot_nm))
        by (nonlinear_arith)
        requires
            1 <= j <= k - 1,
            spot_nm >= 1,
    ;
}

} // verus!
