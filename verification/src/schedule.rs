//! The focus schedule of a board-outline through-cut.
//!
//! The lens has a fixed focal plane and a depth of focus far shallower than a
//! board. Passes are grouped into steps that each stay within the usable depth
//! of focus; between steps the focal plane drops by what the step removed, so
//! that focus follows the cut floor.
use vstd::prelude::*;
use crate::model::Nm;

verus! {

/// One focus step: run `passes` passes at the current focal plane, then lower
/// the head by `focus_drop_nm`. The drop is zero on the final step.
#[derive(Debug, Clone, Copy, PartialEq, Eq, Structural)]
pub struct CutStep {
    pub passes: u32,
    pub focus_drop_nm: Nm,
}

/// The full focus schedule for a through-cut.
#[derive(Debug, PartialEq, Eq)]
pub struct CutSchedule {
    pub steps: Vec<CutStep>,
    /// Total commanded cut depth: thickness plus overcut.
    pub total_depth_nm: Nm,
}

/// No schedule grows past this many full steps.
pub const MAX_FULL_STEPS: usize = 100_000;

/// Depth of one pass, at least a nanometer.
pub open spec fn pass_depth(nm_per_pass: int) -> int {
    if nm_per_pass > 1 {
        nm_per_pass
    } else {
        1
    }
}

/// Passes in a full step: as many as stay within the focal step, at least one.
pub open spec fn passes_per_step(z_step: int, depth: int) -> int {
    if z_step < depth {
        1
    } else {
        z_step / depth
    }
}

/// Full steps before the last one: all that end short of the target.
pub open spec fn full_steps(total: int, step_depth: int) -> int {
    (total - 1) / step_depth
}

/// The quotient rounded up.
pub open spec fn ceil_div(a: int, d: int) -> int {
    (a + d - 1) / d
}

/// The steps that cut to `total`.
pub open spec fn steps_of(total: int, nm_per_pass: int, z_step: int) -> Seq<CutStep> {
    let depth = pass_depth(nm_per_pass);
    let passes = passes_per_step(z_step, depth);
    let step = passes * depth;
    let full = CutStep { passes: passes as u32, focus_drop_nm: step as i64 };
    if total <= 0 {
        seq![CutStep { passes: 1, focus_drop_nm: 0 }]
    } else if full_steps(total, step) >= MAX_FULL_STEPS {
        Seq::new(MAX_FULL_STEPS as nat, |i: int| full)
    } else {
        let n = full_steps(total, step);
        Seq::new(n as nat, |i: int| full).push(
            CutStep { passes: ceil_div(total - n * step, depth) as u32, focus_drop_nm: 0 },
        )
    }
}

/// Depth that a list of steps commands.
pub open spec fn commanded(steps: Seq<CutStep>, depth: int) -> int
    decreases steps.len(),
{
    if steps.len() == 0 {
        0
    } else {
        commanded(steps.drop_last(), depth) + steps.last().passes * depth
    }
}

/// The focus schedule for cutting through a board of `thickness_nm`, with
/// `nm_per_pass` removed per pass, focal steps of at most `z_step_nm`, and
/// `overcut_nm` commanded past the far face.
pub fn schedule(
    thickness_nm: Nm,
    overcut_nm: Nm,
    nm_per_pass: Nm,
    z_step_nm: Nm,
) -> (s: CutSchedule)
    requires
        i64::MIN <= thickness_nm + overcut_nm <= i64::MAX,
        passes_per_step(z_step_nm as int, pass_depth(nm_per_pass as int)) <= u32::MAX,
    ensures
        s.total_depth_nm == thickness_nm + overcut_nm,
        s.steps@ == steps_of(thickness_nm + overcut_nm, nm_per_pass as int, z_step_nm as int),
{
    let total: i64 = thickness_nm + overcut_nm;
    let depth: i64 = if nm_per_pass > 1 {
        nm_per_pass
    } else {
        1
    };
    let mut steps: Vec<CutStep> = Vec::new();
    if total <= 0 {
        steps.push(CutStep { passes: 1, focus_drop_nm: 0 });
        assert(steps@ =~= steps_of(total as int, nm_per_pass as int, z_step_nm as int));
        return CutSchedule { steps, total_depth_nm: total };
    }
    proof {
        lemma_step(z_step_nm as int, depth as int);
    }
    let passes: i64 = if z_step_nm < depth {
        1
    } else {
        z_step_nm / depth
    };
    let step: i64 = (passes as i128 * depth as i128) as i64;
    let full = CutStep { passes: passes as u32, focus_drop_nm: step };
    let n: i64 = (total - 1) / step;
    proof {
        lemma_full(total as int, step as int);
    }
    let count: usize = if n >= MAX_FULL_STEPS as i64 {
        MAX_FULL_STEPS
    } else {
        n as usize
    };
    let mut i: usize = 0;
    while i < count
        invariant
            i <= count,
            steps@ =~= Seq::new(i as nat, |k: int| full),
        decreases count - i,
    {
        steps.push(full);
        i += 1;
    }
    if n < MAX_FULL_STEPS as i64 {
        let done: i64 = (n as i128 * step as i128) as i64;
        let left: i64 = total - done;
        proof {
            lemma_last(left as int, depth as int, passes as int);
        }
        let last: i128 = (left as i128 + depth as i128 - 1) / (depth as i128);
        steps.push(CutStep { passes: last as u32, focus_drop_nm: 0 });
    }
    assert(steps@ =~= steps_of(total as int, nm_per_pass as int, z_step_nm as int));
    CutSchedule { steps, total_depth_nm: total }
}

proof fn lemma_step(z: int, depth: int)
    requires
        depth >= 1,
        z <= i64::MAX,
        depth <= i64::MAX,
    ensures
        passes_per_step(z, depth) >= 1,
        1 <= passes_per_step(z, depth) * depth <= i64::MAX,
        passes_per_step(z, depth) * depth >= depth,
        z >= depth ==> passes_per_step(z, depth) * depth <= z,
{
    let p = passes_per_step(z, depth);
    if z >= depth {
        vstd::arithmetic::div_mod::lemma_fundamental_div_mod(z, depth);
        assert(p >= 1) by (nonlinear_arith)
            requires
                z >= depth,
                depth >= 1,
                p == z / depth,
        ;
        assert(p * depth <= z) by (nonlinear_arith)
            requires
                z == depth * p + z % depth,
                0 <= z % depth,
        ;
    }
    assert(p * depth >= depth) by (nonlinear_arith)
        requires
            p >= 1,
            depth >= 1,
    ;
}

proof fn lemma_full(total: int, step: int)
    requires
        total >= 1,
        step >= 1,
    ensures
        0 <= full_steps(total, step) <= total - 1,
        0 <= full_steps(total, step) * step < total,
        total <= full_steps(total, step) * step + step,
{
    let n = full_steps(total, step);
    vstd::arithmetic::div_mod::lemma_fundamental_div_mod(total - 1, step);
    assert(0 <= n <= total - 1 && n * step == step * n && 0 <= n * step) by (nonlinear_arith)
        requires
            total >= 1,
            step >= 1,
            n == (total - 1) / step,
    ;
}

proof fn lemma_last(left: int, depth: int, passes: int)
    requires
        1 <= left <= passes * depth,
        depth >= 1,
        passes >= 1,
    ensures
        1 <= ceil_div(left, depth) <= passes,
        left <= ceil_div(left, depth) * depth < left + depth,
{
    let q = ceil_div(left, depth);
    vstd::arithmetic::div_mod::lemma_fundamental_div_mod(left + depth - 1, depth);
    let r = (left + depth - 1) % depth;
    assert(left + depth - 1 == depth * q + r && 0 <= r < depth);
    assert(q * depth == depth * q) by (nonlinear_arith);
    assert(q >= 1) by (nonlinear_arith)
        requires
            left + depth - 1 == depth * q + r,
            0 <= r < depth,
            left >= 1,
            depth >= 1,
    ;
    assert(q <= passes) by (nonlinear_arith)
        requires
            left + depth - 1 == depth * q + r,
            0 <= r < depth,
            left <= passes * depth,
            depth >= 1,
    ;
}

/// A schedule that the step limit does not cut short.
pub open spec fn reachable(total: int, nm_per_pass: int, z_step: int) -> bool {
    let depth = pass_depth(nm_per_pass);
    &&& 1 <= total <= i64::MAX
    &&& nm_per_pass <= i64::MAX
    &&& z_step <= i64::MAX
    &&& passes_per_step(z_step, depth) <= u32::MAX
    &&& full_steps(total, passes_per_step(z_step, depth) * depth) < MAX_FULL_STEPS
}

proof fn lemma_commanded_full(full: CutStep, n: nat, depth: int)
    ensures
        commanded(Seq::new(n, |i: int| full), depth) == n * (full.passes * depth),
    decreases n,
{
    if n > 0 {
        lemma_commanded_full(full, (n - 1) as nat, depth);
        assert(Seq::new(n, |i: int| full).drop_last() =~= Seq::new((n - 1) as nat, |i: int| full));
        let d = full.passes * depth;
        assert(n * d == (n - 1) * d + d) by (nonlinear_arith);
    } else {
        assert(0 * (full.passes * depth) == 0);
    }
}

/// The commanded depth reaches the target and overshoots it by less than one
/// pass.
pub proof fn commanded_depth_reaches_the_target(total: int, nm_per_pass: int, z_step: int)
    requires
        reachable(total, nm_per_pass, z_step),
    ensures
        ({
            let depth = pass_depth(nm_per_pass);
            total <= commanded(steps_of(total, nm_per_pass, z_step), depth) < total + depth
        }),
{
    let depth = pass_depth(nm_per_pass);
    let passes = passes_per_step(z_step, depth);
    let step = passes * depth;
    let full = CutStep { passes: passes as u32, focus_drop_nm: step as i64 };
    lemma_step(z_step, depth);
    lemma_full(total, step);
    let n = full_steps(total, step);
    lemma_last(total - n * step, depth, passes);
    let body = Seq::new(n as nat, |i: int| full);
    let last = CutStep { passes: ceil_div(total - n * step, depth) as u32, focus_drop_nm: 0 };
    assert(steps_of(total, nm_per_pass, z_step) == body.push(last));
    assert(body.push(last).drop_last() =~= body);
    lemma_commanded_full(full, n as nat, depth);
}

/// Every step removes at most the focal step (a single pass, where one pass
/// already exceeds it); every step but the last drops the focus by exactly
/// what it removed, and the last does not drop it at all.
pub proof fn focus_tracks_the_floor(total: int, nm_per_pass: int, z_step: int, i: int)
    requires
        reachable(total, nm_per_pass, z_step),
        0 <= i < steps_of(total, nm_per_pass, z_step).len(),
    ensures
        ({
            let depth = pass_depth(nm_per_pass);
            let steps = steps_of(total, nm_per_pass, z_step);
            &&& steps[i].passes >= 1
            &&& steps[i].passes * depth <= z_step || (z_step < depth && steps[i].passes == 1)
            &&& i < steps.len() - 1 ==> steps[i].focus_drop_nm == steps[i].passes * depth
            &&& i == steps.len() - 1 ==> steps[i].focus_drop_nm == 0
        }),
{
    let depth = pass_depth(nm_per_pass);
    let passes = passes_per_step(z_step, depth);
    let step = passes * depth;
    lemma_step(z_step, depth);
    lemma_full(total, step);
    let n = full_steps(total, step);
    lemma_last(total - n * step, depth, passes);
    let q = ceil_div(total - n * step, depth);
    assert(q * depth <= passes * depth) by (nonlinear_arith)
        requires
            q <= passes,
            depth >= 1,
    ;
}

/// A schedule cuts through: run in order, its passes reach the commanded depth
/// and overshoot it by less than one; every step but the last takes as many
/// passes as stay within the focal step and lowers the focus by what they
/// removed; the last lowers it no more.
pub proof fn schedule_cuts_through(total: int, nm_per_pass: int, z_step: int)
    requires
        1 <= nm_per_pass <= i64::MAX,
        1 <= total <= i64::MAX,
        total <= 100_000 * nm_per_pass,
        z_step <= i64::MAX,
        z_step < 0x1_0000_0000 * nm_per_pass,
    ensures
        ({
            let steps = steps_of(total, nm_per_pass, z_step);
            &&& steps.len() > 0
            &&& total <= commanded(steps, nm_per_pass) < total + nm_per_pass
            &&& forall|i: int|
                0 <= i < steps.len() ==> {
                    let s = #[trigger] steps[i];
                    &&& s.passes >= 1
                    &&& s.passes * nm_per_pass <= z_step || s.passes == 1
                    &&& i < steps.len() - 1 ==> s.focus_drop_nm == s.passes * nm_per_pass && (
                    s.passes + 1) * nm_per_pass > z_step
                    &&& i == steps.len() - 1 ==> s.focus_drop_nm == 0
                }
        }),
{
    let depth = nm_per_pass;
    let passes = passes_per_step(z_step, depth);
    let step = passes * depth;
    lemma_step(z_step, depth);
    lemma_full(total, step);
    if z_step >= depth {
        vstd::arithmetic::div_mod::lemma_fundamental_div_mod(z_step, depth);
        assert(passes <= u32::MAX) by (nonlinear_arith)
            requires
                z_step == depth * passes + z_step % depth,
                0 <= z_step % depth,
                z_step < 0x1_0000_0000 * depth,
                depth >= 1,
        ;
        assert((passes + 1) * depth > z_step) by (nonlinear_arith)
            requires
                z_step == depth * passes + z_step % depth,
                z_step % depth < depth,
        ;
    } else {
        assert((passes + 1) * depth > z_step) by (nonlinear_arith)
            requires
                z_step < depth,
                passes == 1,
                depth >= 1,
        ;
    }
    let n = full_steps(total, step);
    assert(n < 100_000) by (nonlinear_arith)
        requires
            n * step < total,
            total <= 100_000 * depth,
            step >= depth,
            depth >= 1,
            n >= 0,
    ;
    commanded_depth_reaches_the_target(total, nm_per_pass, z_step);
    let steps = steps_of(total, nm_per_pass, z_step);
    assert forall|i: int| 0 <= i < steps.len() implies {
        let s = #[trigger] steps[i];
        &&& s.passes >= 1
        &&& s.passes * nm_per_pass <= z_step || s.passes == 1
        &&& i < steps.len() - 1 ==> s.focus_drop_nm == s.passes * nm_per_pass && (s.passes + 1)
            * nm_per_pass > z_step
        &&& i == steps.len() - 1 ==> s.focus_drop_nm == 0
    } by {
        focus_tracks_the_floor(total, nm_per_pass, z_step, i);
    }
}

} // verus!
