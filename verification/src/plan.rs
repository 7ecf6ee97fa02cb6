//! Pass planner: passes into checkpointed groups.
use vstd::prelude::*;
use crate::model::{AblationParams, PassPlan, Quantity};

verus! {

/// One pass within a group: its global index and the hatch angle it uses, in
/// degrees.
#[derive(Debug, Clone, Copy, PartialEq, Eq, Structural)]
pub struct PassSpec {
    pub pass_index: u32,
    pub hatch_angle_deg: Quantity,
}

/// A group of passes emitted as one job file, ending at a checkpoint.
#[derive(Debug, PartialEq, Eq)]
pub struct PassGroup {
    pub passes: Vec<PassSpec>,
    pub checkpoint: bool,
}

/// Number of groups: full ones, and one for a remainder.
pub open spec fn group_count(passes: int, size: int) -> int {
    (passes + size - 1) / size
}

/// The passes of group `g`: consecutive indices from `g * size`, each with the
/// angle of its index.
pub open spec fn group_passes(angles: Seq<Quantity>, size: int, g: int) -> Seq<PassSpec> {
    let from = g * size;
    let to = if from + size < angles.len() {
        from + size
    } else {
        angles.len() as int
    };
    Seq::new(
        (to - from) as nat,
        |i: int| PassSpec { pass_index: (from + i) as u32, hatch_angle_deg: angles[from + i] },
    )
}

/// Split the passes of a recipe into groups of `pp.group_size`, the remainder
/// last. Pass `k` carries angle `angles[k]`. Every group, the last included,
/// ends at an operator checkpoint.
pub fn plan(params: &AblationParams, pp: &PassPlan, angles: &Vec<Quantity>) -> (groups: Vec<
    PassGroup,
>)
    requires
        pp.group_size > 0,
        angles@.len() == params.passes,
    ensures
        groups@.len() == group_count(params.passes as int, pp.group_size as int),
        forall|g: int|
            0 <= g < groups@.len() ==> (#[trigger] groups@[g]).checkpoint
                && groups@[g].passes@ == group_passes(angles@, pp.group_size as int, g),
{
    let n: u32 = params.passes;
    let size: u32 = pp.group_size;
    let mut groups: Vec<PassGroup> = Vec::new();
    let mut k: u32 = 0;
    proof {
        assert(0 * size == 0);
    }
    while k < n
        invariant
            n == params.passes,
            size == pp.group_size,
            size > 0,
            angles@.len() == n,
            k <= n,
            groups@.len() * size == k || (k == n && groups@.len() * size >= n && groups@.len()
                * size < n + size),
            k < n ==> groups@.len() * size == k,
            forall|g: int|
                0 <= g < groups@.len() ==> (#[trigger] groups@[g]).checkpoint
                    && groups@[g].passes@ == group_passes(angles@, size as int, g),
        decreases n - k,
    {
        let end: u32 = if n - k > size {
            k + size
        } else {
            n
        };
        let ghost g = groups@.len() as int;
        let mut passes: Vec<PassSpec> = Vec::new();
        let mut i: u32 = k;
        while i < end
            invariant
                k <= i <= end <= n,
                angles@.len() == n,
                passes@.len() == i - k,
                forall|j: int|
                    0 <= j < passes@.len() ==> #[trigger] passes@[j] == (PassSpec {
                        pass_index: (k + j) as u32,
                        hatch_angle_deg: angles@[k + j],
                    }),
            decreases end - i,
        {
            passes.push(PassSpec { pass_index: i, hatch_angle_deg: angles[i as usize] });
            i += 1;
        }
        assert(passes@ =~= group_passes(angles@, size as int, g));
        groups.push(PassGroup { passes, checkpoint: true });
        proof {
            assert((g + 1) * size == g * size + size) by (nonlinear_arith);
        }
        k = end;
    }
    proof {
        let c = groups@.len() as int;
        assert(group_count(n as int, size as int) == c) by {
            vstd::arithmetic::div_mod::lemma_fundamental_div_mod_converse(
                n + size - 1,
                size as int,
                c,
                n + size - 1 - c * size,
            );
        }
    }
    groups
}

/// The passes of the first `n` groups, in order.
pub open spec fn planned(angles: Seq<Quantity>, size: int, n: nat) -> Seq<PassSpec>
    decreases n,
{
    if n == 0 {
        Seq::empty()
    } else {
        planned(angles, size, (n - 1) as nat) + group_passes(angles, size, n - 1)
    }
}

proof fn lemma_planned(angles: Seq<Quantity>, size: int, n: nat)
    requires
        size > 0,
        n == 0 || (n - 1) * size < angles.len(),
        angles.len() <= u32::MAX,
    ensures
        planned(angles, size, n).len() == if n * size < angles.len() {
            n * size
        } else {
            angles.len() as int
        },
        forall|k: int|
            0 <= k < planned(angles, size, n).len() ==> #[trigger] planned(angles, size, n)[k] == (
            PassSpec { pass_index: k as u32, hatch_angle_deg: angles[k] }),
    decreases n,
{
    if n > 0 {
        assert((n - 1) * size == n * size - size) by (nonlinear_arith);
        if n > 1 {
            assert((n - 2) * size == (n - 1) * size - size) by (nonlinear_arith);
        }
        assert((n - 1) * size >= 0) by (nonlinear_arith)
            requires
                n >= 1,
                size > 0,
        ;
        lemma_planned(angles, size, (n - 1) as nat);
        let before = planned(angles, size, (n - 1) as nat);
        let all = planned(angles, size, n);
        let last = group_passes(angles, size, n - 1);
        assert forall|k: int| 0 <= k < all.len() implies #[trigger] all[k] == (PassSpec {
            pass_index: k as u32,
            hatch_angle_deg: angles[k],
        }) by {
            if k < before.len() {
                assert(all[k] == before[k]);
            } else {
                assert(all[k] == last[k - before.len()]);
            }
        }
    } else {
        assert(0 * size == 0);
    }
}

/// Taken together the groups hold every pass once, in ascending order, each
/// with its own angle.
pub proof fn groups_cover_all_passes(angles: Seq<Quantity>, size: int)
    requires
        size > 0,
        angles.len() <= u32::MAX,
    ensures
        ({
            let all = planned(angles, size, group_count(angles.len() as int, size) as nat);
            &&& all.len() == angles.len()
            &&& forall|k: int|
                0 <= k < all.len() ==> #[trigger] all[k] == (PassSpec {
                    pass_index: k as u32,
                    hatch_angle_deg: angles[k],
                })
        }),
{
    let n = angles.len() as int;
    let c = group_count(n, size);
    vstd::arithmetic::div_mod::lemma_fundamental_div_mod(n + size - 1, size);
    let r = (n + size - 1) % size;
    assert(n + size - 1 == size * c + r && 0 <= r < size);
    assert(c * size == size * c && (c - 1) * size == c * size - size) by (nonlinear_arith);
    assert(c >= 0) by (nonlinear_arith)
        requires
            n + size - 1 == size * c + r,
            0 <= r < size,
            n >= 0,
            size > 0,
    ;
    lemma_planned(angles, size, c as nat);
}

/// Every group but the last is full, and the last is not empty.
pub proof fn groups_are_full_but_the_last(angles: Seq<Quantity>, size: int, g: int)
    requires
        size > 0,
        0 <= g < group_count(angles.len() as int, size),
    ensures
        g < group_count(angles.len() as int, size) - 1 ==> group_passes(angles, size, g).len()
            == size,
        1 <= group_passes(angles, size, g).len() <= size,
{
    let n = angles.len() as int;
    let c = group_count(n, size);
    vstd::arithmetic::div_mod::lemma_fundamental_div_mod(n + size - 1, size);
    assert(g * size < n && (g < c - 1 ==> g * size + size <= n)) by (nonlinear_arith)
        requires
            n + size - 1 == size * c + (n + size - 1) % size,
            0 <= (n + size - 1) % size < size,
            0 <= g < c,
            size > 0,
    ;
    assert(g * size >= 0) by (nonlinear_arith)
        requires
            g >= 0,
            size > 0,
    ;
}

} // verus!
