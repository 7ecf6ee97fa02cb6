//! Board-outline through-cut with holding tabs.
//!
//! Each ring of the kerf-compensated outline is broken by tabs, spread evenly
//! by arc length and nudged so that none straddles a corner. Interior cutouts
//! come before the perimeter. Rings below a sliver's area are dropped.
use vstd::arithmetic::div_mod::{lemma_fundamental_div_mod, lemma_fundamental_div_mod_converse};
use vstd::prelude::*;
use crate::arcs::{
    arc, corner_positions, corners_of, is_track, lemma_arc_grows, lemma_same_remainder, measurable,
    piece, pieces_pass_their_vertices, positions, spot, subarc, whole, wrap, MAX_ARC_PM, SLACK_PM,
};
use crate::bounds::{covers, hull, hull_is_tight, ring_bbox, Bounds};
use crate::features::append;
use crate::geom::{area_fits, doubled_area, ring_doubled_area};
use crate::model::{
    clone_ring, lemma_ring_view, ElemV, Nm, PathElem, PathKind, Paths, Poly, PolyV, Ring, P,
};
use crate::sorting::{
    ascending, is_ascending, lemma_ascending, lemma_ascending_contains, lemma_is_sorted,
    sort_ascending,
};

verus! {

broadcast use lemma_ring_view;

/// Cutouts whose smaller side is below this may jam the kerf with their slug.
pub const SLUG_WARN_NM: Nm = 10_000_000;

/// Twice the area, in square nanometers, below which a ring is an artifact of
/// the offset and no contour.
pub const MIN_RING_DOUBLED_AREA_NM2: i128 = 200_000_000;

/// A cut shorter than this between two tabs is left out, in picometers.
pub const MIN_CUT_PM: i64 = 1_000_000;

// ---------------------------------------------------------------------------
// Tab positions
// ---------------------------------------------------------------------------

/// The shorter way between two positions on a ring.
pub open spec fn circ(a: int, b: int, total: int) -> int {
    let d = (a - b) % total;
    if d <= total - d {
        d
    } else {
        total - d
    }
}

/// A position keeps its distance from all of a list, up to the slack.
pub open spec fn clear_of(c: int, from: Seq<i64>, reach: int, total: int) -> bool {
    forall|k: int| 0 <= k < from.len() ==> circ(#[trigger] from[k] as int, c, total) >= reach - SLACK_PM
}

/// The positions next to corners where a tab just fits: after and before each.
pub open spec fn candidate(corners: Seq<i64>, h: int, total: int, i: int) -> int {
    if i % 2 == 0 {
        (corners[i / 2] + h) % total
    } else {
        (corners[i / 2] - h) % total
    }
}

/// Among the first `n` candidates that are clear of all corners, the first of
/// those nearest to the target.
pub open spec fn best_candidate(
    corners: Seq<i64>,
    h: int,
    total: int,
    target: int,
    n: nat,
) -> Option<int>
    decreases n,
{
    if n == 0 {
        None
    } else {
        let c = candidate(corners, h, total, n - 1);
        match best_candidate(corners, h, total, target, (n - 1) as nat) {
            None => if clear_of(c, corners, h, total) {
                Some(c)
            } else {
                None
            },
            Some(b) => if clear_of(c, corners, h, total) && circ(c, target, total) < circ(
                b,
                target,
                total,
            ) {
                Some(c)
            } else {
                Some(b)
            },
        }
    }
}

/// The position nearest to a target where a tab clears every corner.
pub open spec fn nudged(target: int, h: int, corners: Seq<i64>, total: int) -> Option<int> {
    if clear_of(target, corners, h, total) {
        Some(target)
    } else {
        best_candidate(corners, h, total, target, 2 * corners.len())
    }
}

/// The middle of slot `k` of `t` equal slots.
pub open spec fn slot_center(k: int, t: int, total: int) -> int {
    ((2 * k + 1) * total) / (2 * t)
}

/// The nudged centers of the first `n` of `t` tabs.
pub open spec fn placed(corners: Seq<i64>, h: int, total: int, t: int, n: nat) -> Seq<i64>
    decreases n,
{
    if n == 0 {
        Seq::empty()
    } else {
        let before = placed(corners, h, total, t, (n - 1) as nat);
        match nudged(slot_center(n - 1, t, total), h, corners, total) {
            Some(c) => before.push(c as i64),
            None => before,
        }
    }
}

/// The first `n` centers without those that overlap a tab kept before.
pub open spec fn kept(centers: Seq<i64>, w: int, total: int, n: nat) -> Seq<i64>
    decreases n,
{
    if n == 0 {
        Seq::empty()
    } else {
        let before = kept(centers, w, total, (n - 1) as nat);
        if clear_of(centers[n - 1] as int, before, w, total) {
            before.push(centers[n - 1])
        } else {
            before
        }
    }
}

/// The corner-free stretch after corner `i` of the sorted corners.
pub open spec fn stretch(sorted: Seq<i64>, total: int, i: int) -> int {
    if i + 1 < sorted.len() {
        sorted[i + 1] - sorted[i]
    } else {
        sorted[0] + total - sorted[i]
    }
}

/// The first longest of the first `n` stretches.
pub open spec fn longest(sorted: Seq<i64>, total: int, n: nat) -> int
    decreases n,
{
    if n <= 1 {
        0
    } else {
        let before = longest(sorted, total, (n - 1) as nat);
        if stretch(sorted, total, n - 1) > stretch(sorted, total, before) {
            n - 1
        } else {
            before
        }
    }
}

/// The middle of the longest corner-free stretch, where it holds a whole tab.
pub open spec fn free_center(corners: Seq<i64>, total: int, w: int) -> Option<int> {
    if corners.len() == 0 {
        Some(0)
    } else {
        let sorted = ascending(corners);
        let i = longest(sorted, total, sorted.len());
        let len = stretch(sorted, total, i);
        if len >= w {
            Some(((2 * sorted[i] + len) / 2) % total)
        } else {
            None
        }
    }
}

/// The centers of the tabs on a ring, in order.
pub open spec fn tab_centers(corners: Seq<i64>, total: int, w: int, t: nat) -> Seq<i64> {
    let centers = ascending(placed(corners, w / 2, total, t as int, t));
    let k = kept(centers, w, total, centers.len());
    if k.len() > 0 {
        k
    } else {
        match free_center(corners, total, w) {
            Some(c) => seq![c as i64],
            None => Seq::empty(),
        }
    }
}

/// Tabs do not overlap.
pub proof fn tabs_do_not_overlap(corners: Seq<i64>, total: int, w: int, t: nat, i: int, j: int)
    requires
        0 <= i < j < tab_centers(corners, total, w, t).len(),
    ensures
        ({
            let c = tab_centers(corners, total, w, t);
            circ(c[i] as int, c[j] as int, total) >= w - SLACK_PM
        }),
{
    let centers = ascending(placed(corners, w / 2, total, t as int, t));
    lemma_kept_apart(centers, w, total, centers.len(), i, j);
}

proof fn lemma_kept_apart(centers: Seq<i64>, w: int, total: int, n: nat, i: int, j: int)
    requires
        0 <= i < j < kept(centers, w, total, n).len(),
    ensures
        circ(kept(centers, w, total, n)[i] as int, kept(centers, w, total, n)[j] as int, total) >= w
            - SLACK_PM,
    decreases n,
{
    if n > 0 {
        let before = kept(centers, w, total, (n - 1) as nat);
        if j < before.len() {
            lemma_kept_apart(centers, w, total, (n - 1) as nat, i, j);
        } else {
            assert(circ(before[i] as int, centers[n - 1] as int, total) >= w - SLACK_PM);
        }
    }
}

/// Positions on a ring.
pub open spec fn on_ring(s: Seq<i64>, total: int) -> bool {
    forall|k: int| 0 <= k < s.len() ==> 0 <= #[trigger] s[k] <= total
}

/// No tab straddles a corner: every tab's center is half a tab away from every
/// corner.
pub proof fn tabs_avoid_corners(corners: Seq<i64>, total: int, w: int, t: nat, i: int)
    requires
        0 < total <= MAX_ARC_PM,
        0 <= w,
        t > 0,
        on_ring(corners, total),
        0 <= i < tab_centers(corners, total, w, t).len(),
    ensures
        clear_of(tab_centers(corners, total, w, t)[i] as int, corners, w / 2, total),
{
    let raw = placed(corners, w / 2, total, t as int, t);
    let centers = ascending(raw);
    let k = kept(centers, w, total, centers.len());
    if k.len() > 0 {
        lemma_kept_from(centers, w, total, centers.len(), i);
        let j = choose|j: int| 0 <= j < centers.len() && centers[j] == k[i];
        assert(centers.contains(k[i]));
        lemma_ascending_contains(raw, k[i]);
        let m = choose|m: int| 0 <= m < raw.len() && raw[m] == k[i];
        lemma_placed_clear(corners, w / 2, total, t as int, t, m);
    } else {
        lemma_free_clear(corners, total, w);
    }
}

proof fn lemma_kept_from(centers: Seq<i64>, w: int, total: int, n: nat, i: int)
    requires
        n <= centers.len(),
        0 <= i < kept(centers, w, total, n).len(),
    ensures
        exists|j: int| 0 <= j < centers.len() && centers[j] == kept(centers, w, total, n)[i],
    decreases n,
{
    if n > 0 {
        let before = kept(centers, w, total, (n - 1) as nat);
        if i < before.len() {
            lemma_kept_from(centers, w, total, (n - 1) as nat, i);
        } else {
            assert(centers[n - 1] == kept(centers, w, total, n)[i]);
        }
    }
}

/// The middle of a slot lies on the ring.
proof fn lemma_slot_center(k: int, t: int, total: int)
    requires
        0 <= k < t,
        0 < total,
    ensures
        0 <= slot_center(k, t, total) < total,
{
    let num = (2 * k + 1) * total;
    assert(0 <= num < total * (2 * t)) by (nonlinear_arith)
        requires
            num == (2 * k + 1) * total,
            0 <= k < t,
            0 < total,
    ;
    lemma_fundamental_div_mod(num, 2 * t);
    let q = num / (2 * t);
    assert(0 <= q < total) by (nonlinear_arith)
        requires
            num == (2 * t) * q + num % (2 * t),
            0 <= num % (2 * t) < 2 * t,
            0 <= num < total * (2 * t),
            t > 0,
    ;
}

/// A candidate that was chosen is clear of all corners and lies on the ring.
proof fn lemma_best_clear(corners: Seq<i64>, h: int, total: int, target: int, n: nat)
    requires
        0 < total,
    ensures
        best_candidate(corners, h, total, target, n) matches Some(c) ==> clear_of(
            c,
            corners,
            h,
            total,
        ) && 0 <= c < total,
    decreases n,
{
    if n > 0 {
        lemma_best_clear(corners, h, total, target, (n - 1) as nat);
    }
}

proof fn lemma_placed_clear(corners: Seq<i64>, h: int, total: int, t: int, n: nat, i: int)
    requires
        0 < total <= MAX_ARC_PM,
        n <= t,
        0 <= i < placed(corners, h, total, t, n).len(),
    ensures
        clear_of(placed(corners, h, total, t, n)[i] as int, corners, h, total),
        0 <= placed(corners, h, total, t, n)[i] < total,
    decreases n,
{
    if n > 0 {
        let before = placed(corners, h, total, t, (n - 1) as nat);
        if i < before.len() {
            lemma_placed_clear(corners, h, total, t, (n - 1) as nat, i);
        } else {
            lemma_slot_center(n - 1, t, total);
            lemma_best_clear(
                corners,
                h,
                total,
                slot_center(n - 1, t, total),
                2 * corners.len(),
            );
        }
    }
}

/// Positions that are far apart the one way and the other keep that distance
/// on the ring.
proof fn lemma_far_apart(a: int, c: int, x: int, total: int)
    requires
        0 < total,
        0 <= x,
        x <= a - c <= total - x || x <= c - a <= total - x,
    ensures
        circ(a, c % total, total) >= x,
{
    lemma_fundamental_div_mod(c, total);
    lemma_same_remainder(a - c % total, a - c, total, c / total);
    let d = a - c;
    if x <= d {
        if d < total {
            lemma_fundamental_div_mod_converse(d, total, 0, d);
        }
    } else {
        if d + total < total {
            lemma_fundamental_div_mod_converse(d, total, -1, d + total);
        }
    }
}

proof fn lemma_longest(sorted: Seq<i64>, total: int, n: nat)
    requires
        1 <= n <= sorted.len(),
    ensures
        0 <= longest(sorted, total, n) < n,
    decreases n,
{
    if n > 1 {
        lemma_longest(sorted, total, (n - 1) as nat);
    }
}

/// The middle of a corner-free stretch is clear of all corners.
proof fn lemma_free_clear(corners: Seq<i64>, total: int, w: int)
    requires
        0 < total <= MAX_ARC_PM,
        0 <= w,
        on_ring(corners, total),
    ensures
        free_center(corners, total, w) matches Some(c) ==> clear_of(c, corners, w / 2, total) && 0
            <= c < total,
{
    if corners.len() > 0 && free_center(corners, total, w) is Some {
        let sorted = ascending(corners);
        lemma_ascending(corners);
        let i = longest(sorted, total, sorted.len());
        lemma_longest(sorted, total, sorted.len());
        let len = stretch(sorted, total, i);
        let raw = (2 * sorted[i] + len) / 2;
        let x = len / 2;
        assert forall|k: int| 0 <= k < corners.len() implies circ(
            #[trigger] corners[k] as int,
            raw % total,
            total,
        ) >= w / 2 - SLACK_PM by {
            let v = corners[k];
            assert(corners.contains(v));
            lemma_ascending_contains(corners, v);
            let j = choose|j: int| 0 <= j < sorted.len() && sorted[j] == v;
            lemma_ascending_contains(corners, sorted[i]);
            lemma_ascending_contains(corners, sorted[0]);
            assert(0 <= sorted[i] <= total && 0 <= sorted[0] <= total && 0 <= v <= total);
            if j <= i {
                assert(sorted[j] <= sorted[i]);
                assert(sorted[0] <= sorted[j]);
                if i + 1 < sorted.len() {
                    lemma_ascending_contains(corners, sorted[i + 1]);
                    assert(sorted[i + 1] <= total);
                }
                assert(raw - v >= x);
                assert(v + total - raw >= x);
                lemma_far_apart(v as int, raw, x, total);
            } else {
                assert(sorted[i + 1] <= sorted[j]);
                assert(v - raw >= x);
                assert(raw + total - v >= x);
                lemma_far_apart(v as int, raw, x, total);
            }
        }
    }
}

/// The shorter way between two positions.
fn circ_dist(a: i64, b: i64, total: i64) -> (d: i64)
    requires
        0 < total <= MAX_ARC_PM,
        0 <= a <= total,
        0 <= b <= total,
    ensures
        d == circ(a as int, b as int, total as int),
        0 <= d <= total,
{
    let d: i64 = wrap(a - b, total);
    if d <= total - d {
        d
    } else {
        total - d
    }
}

fn is_clear(c: i64, from: &Vec<i64>, reach: i64, total: i64) -> (r: bool)
    requires
        0 < total <= MAX_ARC_PM,
        0 <= c <= total,
        0 <= reach <= total,
        on_ring(from@, total as int),
    ensures
        r == clear_of(c as int, from@, reach as int, total as int),
{
    let mut k: usize = 0;
    while k < from.len()
        invariant
            k <= from@.len(),
            0 < total <= MAX_ARC_PM,
            0 <= c <= total,
            0 <= reach <= total,
            on_ring(from@, total as int),
            forall|j: int|
                0 <= j < k ==> circ(#[trigger] from@[j] as int, c as int, total as int) >= reach
                    - SLACK_PM,
        decreases from@.len() - k,
    {
        assert(0 <= from@[k as int] <= total);
        if circ_dist(from[k], c, total) < reach - SLACK_PM {
            return false;
        }
        k += 1;
    }
    true
}

/// The position nearest to a target where a tab clears every corner.
fn nudge(target: i64, h: i64, corners: &Vec<i64>, total: i64) -> (r: Option<i64>)
    requires
        0 < total <= MAX_ARC_PM,
        0 <= target < total,
        0 <= h <= total,
        on_ring(corners@, total as int),
    ensures
        r matches Some(c) ==> 0 <= c < total && nudged(
            target as int,
            h as int,
            corners@,
            total as int,
        ) == Some(c as int),
        r is None ==> nudged(target as int, h as int, corners@, total as int) is None,
{
    if is_clear(target, corners, h, total) {
        return Some(target);
    }
    let mut best: Option<i64> = None;
    let mut k: usize = 0;
    while k < corners.len()
        invariant
            k <= corners@.len(),
            0 < total <= MAX_ARC_PM,
            0 <= target < total,
            0 <= h <= total,
            on_ring(corners@, total as int),
            best matches Some(b) ==> 0 <= b < total,
            best_is(
                best,
                best_candidate(
                    corners@,
                    h as int,
                    total as int,
                    target as int,
                    (2 * k) as nat,
                ),
            ),
        decreases corners@.len() - k,
    {
        assert(0 <= corners@[k as int] <= total);
        let after: i64 = wrap(corners[k] + h, total);
        assert(after == candidate(corners@, h as int, total as int, 2 * k));
        best = better(best, after, h, corners, total, target, Ghost((2 * k) as nat));
        let before: i64 = wrap(corners[k] - h, total);
        assert(before == candidate(corners@, h as int, total as int, 2 * k + 1));
        best = better(best, before, h, corners, total, target, Ghost((2 * k + 1) as nat));
        k += 1;
    }
    best
}

/// A machine position stands for a position.
pub open spec fn best_is(b: Option<i64>, v: Option<int>) -> bool {
    match b {
        Some(c) => v == Some(c as int),
        None => v is None,
    }
}

/// Prefer candidate `n` where it is clear and nearer.
fn better(
    best: Option<i64>,
    c: i64,
    h: i64,
    corners: &Vec<i64>,
    total: i64,
    target: i64,
    Ghost(n): Ghost<nat>,
) -> (r: Option<i64>)
    requires
        0 < total <= MAX_ARC_PM,
        0 <= target < total,
        0 <= c < total,
        0 <= h <= total,
        on_ring(corners@, total as int),
        best matches Some(b) ==> 0 <= b < total,
        best_is(best, best_candidate(corners@, h as int, total as int, target as int, n)),
        c == candidate(corners@, h as int, total as int, n as int),
    ensures
        r matches Some(b) ==> 0 <= b < total,
        best_is(r, best_candidate(corners@, h as int, total as int, target as int, n + 1)),
{
    if !is_clear(c, corners, h, total) {
        return best;
    }
    match best {
        None => Some(c),
        Some(b) => {
            if circ_dist(c, target, total) < circ_dist(b, target, total) {
                Some(c)
            } else {
                Some(b)
            }
        },
    }
}

/// The nudged centers of `t` tabs.
fn place(corners: &Vec<i64>, h: i64, total: i64, t: u32) -> (r: Vec<i64>)
    requires
        0 < total <= MAX_ARC_PM,
        0 <= h <= total,
        on_ring(corners@, total as int),
    ensures
        r@ == placed(corners@, h as int, total as int, t as int, t as nat),
        on_ring(r@, total as int),
{
    let mut r: Vec<i64> = Vec::new();
    let mut k: u32 = 0;
    while k < t
        invariant
            k <= t,
            0 < total <= MAX_ARC_PM,
            0 <= h <= total,
            on_ring(corners@, total as int),
            on_ring(r@, total as int),
            r@ == placed(corners@, h as int, total as int, t as int, k as nat),
        decreases t - k,
    {
        proof {
            lemma_slot_center(k as int, t as int, total as int);
            assert(0 <= (2 * k + 1) * total <= 0x1_ffff_ffff * MAX_ARC_PM) by (nonlinear_arith)
                requires
                    0 <= k < 0xffff_ffff,
                    0 <= total <= MAX_ARC_PM,
            ;
        }
        let target: i128 = ((2 * k as i128 + 1) * total as i128) / (2 * t as i128);
        assert(target == slot_center(k as int, t as int, total as int));
        match nudge(target as i64, h, corners, total) {
            Some(c) => {
                r.push(c);
            },
            None => {},
        }
        k += 1;
    }
    r
}

/// The centers without those that overlap a tab kept before.
fn keep(centers: &Vec<i64>, w: i64, total: i64) -> (r: Vec<i64>)
    requires
        0 < total <= MAX_ARC_PM,
        0 <= w <= total,
        on_ring(centers@, total as int),
    ensures
        r@ == kept(centers@, w as int, total as int, centers@.len()),
        on_ring(r@, total as int),
{
    let mut r: Vec<i64> = Vec::new();
    let mut i: usize = 0;
    while i < centers.len()
        invariant
            i <= centers@.len(),
            0 < total <= MAX_ARC_PM,
            0 <= w <= total,
            on_ring(centers@, total as int),
            on_ring(r@, total as int),
            r@ == kept(centers@, w as int, total as int, i as nat),
        decreases centers@.len() - i,
    {
        assert(0 <= centers@[i as int] <= total);
        if is_clear(centers[i], &r, w, total) {
            r.push(centers[i]);
        }
        i += 1;
    }
    r
}

fn to_stretch(sorted: &Vec<i64>, total: i64, i: usize) -> (d: i64)
    requires
        0 < total <= MAX_ARC_PM,
        i < sorted@.len(),
        on_ring(sorted@, total as int),
    ensures
        d == stretch(sorted@, total as int, i as int),
        -total <= d <= 2 * total,
{
    assert(0 <= sorted@[i as int] <= total && 0 <= sorted@[0] <= total);
    let n: usize = sorted.len();
    if i + 1 < n {
        assert(0 <= sorted@[i + 1] <= total);
        sorted[i + 1] - sorted[i]
    } else {
        sorted[0] + total - sorted[i]
    }
}

/// The middle of the longest corner-free stretch, where it holds a whole tab.
fn longest_free_center(corners: &Vec<i64>, total: i64, w: i64) -> (r: Option<i64>)
    requires
        0 < total <= MAX_ARC_PM,
        on_ring(corners@, total as int),
    ensures
        best_is(r, free_center(corners@, total as int, w as int)),
        r matches Some(c) ==> 0 <= c < total,
{
    if corners.len() == 0 {
        return Some(0);
    }
    let sorted = sort_ascending(corners);
    proof {
        lemma_ascending(corners@);
        lemma_sorted_on_ring(corners@, total as int);
    }
    let n: usize = sorted.len();
    let mut best: usize = 0;
    let mut i: usize = 1;
    while i < n
        invariant
            1 <= i <= n == sorted@.len(),
            0 < total <= MAX_ARC_PM,
            on_ring(sorted@, total as int),
            best < i,
            best == longest(sorted@, total as int, i as nat),
        decreases n - i,
    {
        if to_stretch(&sorted, total, i) > to_stretch(&sorted, total, best) {
            best = i;
        }
        i += 1;
    }
    let len: i64 = to_stretch(&sorted, total, best);
    if len >= w {
        assert(0 <= sorted@[best as int] <= total);
        let twice: i128 = 2 * sorted[best] as i128 + len as i128;
        proof {
            if len < 0 {
                assert(best + 1 < n);
                assert(sorted@[best as int] <= sorted@[best + 1]);
            }
        }
        Some(wrap((twice / 2) as i64, total))
    } else {
        None
    }
}

proof fn lemma_sorted_on_ring(s: Seq<i64>, total: int)
    requires
        on_ring(s, total),
    ensures
        on_ring(ascending(s), total),
{
    let r = ascending(s);
    assert forall|k: int| 0 <= k < r.len() implies 0 <= #[trigger] r[k] <= total by {
        assert(r.contains(r[k]));
        lemma_ascending_contains(s, r[k]);
        let j = choose|j: int| 0 <= j < s.len() && s[j] == r[k];
        assert(0 <= s[j] <= total);
    }
}

proof fn lemma_corners_on_ring(s: Seq<P>, n: nat)
    requires
        n <= s.len(),
        whole(s) <= MAX_ARC_PM,
    ensures
        on_ring(corners_of(s, n), whole(s)),
    decreases n,
{
    if n > 0 {
        lemma_corners_on_ring(s, (n - 1) as nat);
        lemma_arc_grows(s, (n - 1) as nat, s.len());
    }
}

/// The centers of the tabs on a ring; none when no tab finds room.
fn to_tab_centers(ring: &Ring, cum: &Vec<i64>, w: i64, t: u32) -> (r: Vec<i64>)
    requires
        is_track(cum@, ring@),
        0 < w < whole(ring@),
    ensures
        r@ == tab_centers(
            corners_of(ring@, ring@.len()),
            whole(ring@),
            w as int,
            t as nat,
        ),
        on_ring(r@, whole(ring@)),
{
    let n: usize = ring.len();
    let total: i64 = cum[n];
    assert(total == whole(ring@));
    let corners = corner_positions(ring, cum);
    proof {
        lemma_corners_on_ring(ring@, ring@.len());
    }
    let raw = place(&corners, w / 2, total, t);
    let centers = sort_ascending(&raw);
    proof {
        lemma_sorted_on_ring(raw@, total as int);
    }
    let r = keep(&centers, w, total);
    if r.len() > 0 {
        return r;
    }
    let mut last: Vec<i64> = Vec::new();
    match longest_free_center(&corners, total, w) {
        Some(c) => {
            last.push(c);
            assert(last@ =~= seq![c]);
        },
        None => {},
    }
    last
}

// ---------------------------------------------------------------------------
// Cuts
// ---------------------------------------------------------------------------

/// The whole ring as one cut.
pub open spec fn closed_cut(ring: Seq<P>) -> Seq<ElemV> {
    seq![ElemV { kind: PathKind::Cut, pts: ring, closed: true }]
}

/// Where the cut after tab `j` begins and ends.
pub open spec fn cut_from(centers: Seq<i64>, h: int, j: int) -> int {
    centers[j] + h
}

pub open spec fn cut_to(centers: Seq<i64>, h: int, total: int, j: int) -> int {
    if j + 1 < centers.len() {
        centers[j + 1] - h
    } else {
        centers[0] + total - h
    }
}

/// The arc length between the first `n` tabs and the ones that follow them.
pub open spec fn cut_length(centers: Seq<i64>, h: int, total: int, n: nat) -> int
    decreases n,
{
    if n == 0 {
        0
    } else {
        cut_length(centers, h, total, (n - 1) as nat) + cut_to(centers, h, total, n - 1) - cut_from(
            centers,
            h,
            n - 1,
        )
    }
}

proof fn lemma_cut_length(centers: Seq<i64>, h: int, total: int, n: nat)
    requires
        n < centers.len(),
    ensures
        cut_length(centers, h, total, n) == centers[n as int] - centers[0] - n * (2 * h),
    decreases n,
{
    if n > 0 {
        lemma_cut_length(centers, h, total, (n - 1) as nat);
        assert((n - 1) * (2 * h) + 2 * h == n * (2 * h)) by (nonlinear_arith);
    } else {
        assert(0 * (2 * h) == 0);
    }
}

/// Tabs and the stretches between them make up the ring exactly: nothing is
/// missing and nothing counts twice.
pub proof fn cuts_and_tabs_make_up_the_ring(centers: Seq<i64>, h: int, total: int)
    requires
        centers.len() > 0,
    ensures
        cut_length(centers, h, total, centers.len()) + centers.len() * (2 * h) == total,
{
    let m = (centers.len() - 1) as nat;
    lemma_cut_length(centers, h, total, m);
    assert(m * (2 * h) + 2 * h == centers.len() * (2 * h)) by (nonlinear_arith)
        requires
            m == centers.len() - 1,
    ;
}

/// The cuts after the first `n` tabs, each from a tab's far edge to the next
/// one's near edge. Vanishing cuts are left out.
pub open spec fn cuts_of(ring: Seq<P>, centers: Seq<i64>, h: int, n: nat) -> Seq<ElemV>
    decreases n,
{
    if n == 0 {
        Seq::empty()
    } else {
        let before = cuts_of(ring, centers, h, (n - 1) as nat);
        let from = cut_from(centers, h, n - 1);
        let to = cut_to(centers, h, whole(ring), n - 1);
        if to - from < MIN_CUT_PM || piece(ring, from, to).len() < 2 {
            before
        } else {
            before.push(ElemV { kind: PathKind::Cut, pts: piece(ring, from, to), closed: false })
        }
    }
}

/// A ring broken by tabs of width `gap`: nothing below three vertices, and one
/// closed cut where no tab is wanted or none finds room.
pub open spec fn tabbed(ring: Seq<P>, gap: int, count: nat) -> Seq<ElemV> {
    if ring.len() < 3 {
        Seq::empty()
    } else if count == 0 || gap <= 0 || 1_000 * gap >= whole(ring) {
        closed_cut(ring)
    } else {
        let centers = tab_centers(
            corners_of(ring, ring.len()),
            whole(ring),
            1_000 * gap,
            count,
        );
        if centers.len() == 0 {
            closed_cut(ring)
        } else {
            cuts_of(ring, centers, 500 * gap, centers.len())
        }
    }
}

fn push_cut(out: &mut Vec<PathElem>, pts: Ring, closed: bool)
    ensures
        final(out).deep_view() == old(out).deep_view().push(
            ElemV { kind: PathKind::Cut, pts: pts@, closed },
        ),
{
    let ghost before = out.deep_view();
    let ghost view = ElemV { kind: PathKind::Cut, pts: pts@, closed };
    out.push(PathElem { kind: PathKind::Cut, pts, closed });
    assert(out.deep_view() =~= before.push(view));
}

/// Break a closed ring into open cuts between holding tabs of arc length
/// `gap_w_nm`.
pub fn tab_ring(ring: &Ring, gap_w_nm: Nm, tab_count: u32) -> (cuts: Vec<PathElem>)
    requires
        measurable(ring@),
    ensures
        cuts.deep_view() == tabbed(ring@, gap_w_nm as int, tab_count as nat),
{
    let mut out: Vec<PathElem> = Vec::new();
    assert(out.deep_view() =~= Seq::<ElemV>::empty());
    if ring.len() < 3 {
        return out;
    }
    let cum = positions(ring);
    let total: i64 = cum[ring.len()];
    assert(total == whole(ring@));
    if tab_count == 0 || gap_w_nm <= 0 || 1_000 * gap_w_nm as i128 >= total as i128 {
        push_cut(&mut out, clone_ring(ring), true);
        assert(out.deep_view() =~= closed_cut(ring@));
        return out;
    }
    let w: i64 = 1_000 * gap_w_nm;
    let h: i64 = 500 * gap_w_nm;
    let centers = to_tab_centers(ring, &cum, w, tab_count);
    let m: usize = centers.len();
    if m == 0 {
        push_cut(&mut out, clone_ring(ring), true);
        assert(out.deep_view() =~= closed_cut(ring@));
        return out;
    }
    let mut j: usize = 0;
    assert(out.deep_view() =~= cuts_of(ring@, centers@, h as int, 0));
    while j < m
        invariant
            j <= m == centers@.len(),
            is_track(cum@, ring@),
            0 < total == whole(ring@) <= MAX_ARC_PM,
            0 < h <= total,
            on_ring(centers@, total as int),
            out.deep_view() == cuts_of(ring@, centers@, h as int, j as nat),
        decreases m - j,
    {
        assert(0 <= centers@[j as int] <= total && 0 <= centers@[0] <= total);
        let s0: i64 = centers[j] + h;
        let s1: i64 = if j + 1 < m {
            assert(0 <= centers@[j + 1] <= total);
            centers[j + 1] - h
        } else {
            centers[0] + total - h
        };
        if s1 - s0 >= MIN_CUT_PM {
            let pts = subarc(ring, &cum, s0, s1);
            if pts.len() >= 2 {
                push_cut(&mut out, pts, false);
            }
        }
        j += 1;
    }
    out
}

/// A ring that is a contour, not a sliver left by the offset.
pub open spec fn is_contour(ring: Seq<P>) -> bool {
    let a = doubled_area(ring);
    a >= MIN_RING_DOUBLED_AREA_NM2 || -a >= MIN_RING_DOUBLED_AREA_NM2
}

/// The cuts of the contours among rings.
pub open spec fn ring_cuts(rings: Seq<Seq<P>>, gap: int, count: nat) -> Seq<ElemV>
    decreases rings.len(),
{
    if rings.len() == 0 {
        Seq::empty()
    } else {
        ring_cuts(rings.drop_last(), gap, count) + if is_contour(rings.last()) {
            tabbed(rings.last(), gap, count)
        } else {
            Seq::empty()
        }
    }
}

/// The cutouts of a board; those of a sliver are not cut.
pub open spec fn cutouts(board: Seq<PolyV>) -> Seq<Seq<P>>
    decreases board.len(),
{
    if board.len() == 0 {
        Seq::empty()
    } else {
        cutouts(board.drop_last()) + if is_contour(board.last().outer) {
            board.last().holes
        } else {
            Seq::empty()
        }
    }
}

/// The perimeters of a board.
pub open spec fn perimeters(board: Seq<PolyV>) -> Seq<Seq<P>> {
    board.map_values(|p: PolyV| p.outer)
}

/// A ring whose area and positions fit the machine.
pub open spec fn ring_cuttable(ring: Seq<P>) -> bool {
    area_fits(ring) && measurable(ring)
}

pub open spec fn cuttable(board: Seq<PolyV>) -> bool {
    forall|i: int|
        0 <= i < board.len() ==> ring_cuttable((#[trigger] board[i]).outer) && forall|j: int|
            0 <= j < board[i].holes.len() ==> ring_cuttable(#[trigger] board[i].holes[j])
}

fn is_real(ring: &Ring) -> (r: bool)
    requires
        area_fits(ring@),
    ensures
        r == is_contour(ring@),
{
    let a: i128 = ring_doubled_area(ring);
    a >= MIN_RING_DOUBLED_AREA_NM2 || a <= -MIN_RING_DOUBLED_AREA_NM2
}

/// Add the cuts of one ring after those of `before`.
fn push_ring_cuts(
    out: &mut Vec<PathElem>,
    ring: &Ring,
    gap_w_nm: Nm,
    tab_count: u32,
    Ghost(start): Ghost<Seq<ElemV>>,
    Ghost(before): Ghost<Seq<Seq<P>>>,
)
    requires
        ring_cuttable(ring@),
        old(out).deep_view() == start + ring_cuts(before, gap_w_nm as int, tab_count as nat),
    ensures
        final(out).deep_view() == start + ring_cuts(
            before.push(ring@),
            gap_w_nm as int,
            tab_count as nat,
        ),
{
    let ghost was = out.deep_view();
    assert(before.push(ring@).drop_last() =~= before);
    if is_real(ring) {
        let cuts = tab_ring(ring, gap_w_nm, tab_count);
        append(out, &cuts);
    }
    assert(out.deep_view() =~= start + ring_cuts(
        before.push(ring@),
        gap_w_nm as int,
        tab_count as nat,
    ));
}

/// Add the cuts of a polygon's cutouts.
fn push_cutouts(
    out: &mut Vec<PathElem>,
    holes: &Vec<Ring>,
    gap_w_nm: Nm,
    tab_count: u32,
    Ghost(before): Ghost<Seq<Seq<P>>>,
)
    requires
        forall|j: int| 0 <= j < holes@.len() ==> ring_cuttable(#[trigger] holes.deep_view()[j]),
        old(out).deep_view() == ring_cuts(before, gap_w_nm as int, tab_count as nat),
    ensures
        final(out).deep_view() == ring_cuts(
            before + holes.deep_view(),
            gap_w_nm as int,
            tab_count as nat,
        ),
{
    let ghost hv = holes.deep_view();
    let ghost none = Seq::<ElemV>::empty();
    let mut j: usize = 0;
    assert(before + hv.take(0) =~= before);
    while j < holes.len()
        invariant
            j <= holes@.len(),
            hv == holes.deep_view(),
            none == Seq::<ElemV>::empty(),
            forall|k: int| 0 <= k < holes@.len() ==> ring_cuttable(#[trigger] hv[k]),
            out.deep_view() == ring_cuts(
                before + hv.take(j as int),
                gap_w_nm as int,
                tab_count as nat,
            ),
        decreases holes@.len() - j,
    {
        assert(ring_cuttable(hv[j as int]) && hv[j as int] == holes@[j as int]@);
        assert(out.deep_view() =~= none + out.deep_view());
        push_ring_cuts(
            out,
            &holes[j],
            gap_w_nm,
            tab_count,
            Ghost(none),
            Ghost(before + hv.take(j as int)),
        );
        assert((before + hv.take(j as int)).push(hv[j as int]) =~= before + hv.take(j + 1));
        assert(out.deep_view() =~= ring_cuts(
            before + hv.take(j + 1),
            gap_w_nm as int,
            tab_count as nat,
        ));
        j += 1;
    }
    assert(hv.take(j as int) =~= hv);
}

/// The cuts of a board: interior cutouts first, the perimeter last.
///
/// `compensated` is the board region grown by half the kerf, and `gap_w_nm`
/// the arc length of a tab with the kerf.
pub fn cut_paths(compensated: &Vec<Poly>, gap_w_nm: Nm, tab_count: u32) -> (paths: Paths)
    requires
        cuttable(compensated.deep_view()),
    ensures
        paths.deep_view() == ring_cuts(
            cutouts(compensated.deep_view()),
            gap_w_nm as int,
            tab_count as nat,
        ) + ring_cuts(
            perimeters(compensated.deep_view()),
            gap_w_nm as int,
            tab_count as nat,
        ),
{
    let ghost bv = compensated.deep_view();
    let ghost gap = gap_w_nm as int;
    let ghost count = tab_count as nat;
    let mut out: Vec<PathElem> = Vec::new();
    let mut i: usize = 0;
    assert(out.deep_view() =~= ring_cuts(cutouts(bv.take(0)), gap, count));
    while i < compensated.len()
        invariant
            i <= compensated@.len(),
            bv == compensated.deep_view(),
            gap == gap_w_nm,
            count == tab_count,
            cuttable(bv),
            out.deep_view() == ring_cuts(cutouts(bv.take(i as int)), gap, count),
        decreases compensated@.len() - i,
    {
        assert(bv[i as int] == compensated@[i as int].deep_view());
        assert(bv.take(i + 1).drop_last() =~= bv.take(i as int));
        assert(ring_cuttable(bv[i as int].outer));
        if is_real(&compensated[i].outer) {
            assert forall|j: int| 0 <= j < compensated@[i as int].holes@.len() implies ring_cuttable(
                #[trigger] compensated@[i as int].holes.deep_view()[j],
            ) by {
                assert(ring_cuttable(bv[i as int].holes[j]));
            }
            push_cutouts(
                &mut out,
                &compensated[i].holes,
                gap_w_nm,
                tab_count,
                Ghost(cutouts(bv.take(i as int))),
            );
        } else {
            assert(cutouts(bv.take(i as int)) + Seq::<Seq<P>>::empty() =~= cutouts(
                bv.take(i as int),
            ));
        }
        i += 1;
    }
    assert(bv.take(i as int) =~= bv);
    let ghost inner = out.deep_view();
    let ghost edges = perimeters(bv);
    let mut k: usize = 0;
    assert(inner + ring_cuts(edges.take(0), gap, count) =~= inner);
    while k < compensated.len()
        invariant
            k <= compensated@.len(),
            bv == compensated.deep_view(),
            gap == gap_w_nm,
            count == tab_count,
            cuttable(bv),
            edges == perimeters(bv),
            out.deep_view() == inner + ring_cuts(edges.take(k as int), gap, count),
        decreases compensated@.len() - k,
    {
        assert(bv[k as int] == compensated@[k as int].deep_view());
        assert(ring_cuttable(bv[k as int].outer));
        push_ring_cuts(
            &mut out,
            &compensated[k].outer,
            gap_w_nm,
            tab_count,
            Ghost(inner),
            Ghost(edges.take(k as int)),
        );
        assert(edges.take(k as int).push(edges[k as int]) =~= edges.take(k + 1));
        k += 1;
    }
    assert(edges.take(k as int) =~= edges);
    Paths { elems: out }
}

// ---------------------------------------------------------------------------
// Spread of tabs
// ---------------------------------------------------------------------------

/// The way between two places of a ring is the shortest there is, however often
/// one goes round, and never more than half the ring.
pub proof fn circ_is_the_shorter_way(a: int, b: int, total: int, m: int)
    requires
        total > 0,
    ensures
        0 <= circ(a, b, total),
        2 * circ(a, b, total) <= total,
        (a - b - circ(a, b, total)) % total == 0 || (a - b + circ(a, b, total)) % total == 0,
        circ(a, b, total) <= a - b + m * total || circ(a, b, total) <= -(a - b + m * total),
{
    let d = a - b;
    let x = d % total;
    let q = d / total;
    lemma_fundamental_div_mod(d, total);
    assert(d + m * total == total * (q + m) + x) by (nonlinear_arith)
        requires
            d == total * q + x,
    ;
    if q + m >= 0 {
        assert(total * (q + m) >= 0) by (nonlinear_arith)
            requires
                q + m >= 0,
                total > 0,
        ;
    } else {
        assert(total * (q + m) <= -total) by (nonlinear_arith)
            requires
                q + m <= -1,
                total > 0,
        ;
    }
    if x <= total - x {
        lemma_same_remainder(d - x, 0, total, q);
    } else {
        assert(total * (q + 1) == total * q + total) by (nonlinear_arith);
        lemma_same_remainder(d + (total - x), 0, total, q + 1);
    }
    assert(0int % total == 0) by {
        lemma_fundamental_div_mod_converse(0, total, 0, 0);
    }
}

/// Places on a ring are the same however often one goes round.
proof fn lemma_circ_turns(a: int, b: int, total: int, q: int)
    requires
        total > 0,
    ensures
        circ(a + total * q, b, total) == circ(a, b, total),
        circ(a, b + total * q, total) == circ(a, b, total),
{
    lemma_same_remainder(a + total * q - b, a - b, total, q);
    assert(total * (-q) == -(total * q)) by (nonlinear_arith);
    lemma_same_remainder(a - (b + total * q), a - b, total, -q);
}

proof fn lemma_circ_wrapped(a: int, b: int, total: int)
    requires
        total > 0,
    ensures
        circ(a % total, b, total) == circ(a, b, total),
        circ(a, b % total, total) == circ(a, b, total),
{
    lemma_fundamental_div_mod(a, total);
    lemma_fundamental_div_mod(b, total);
    lemma_circ_turns(a % total, b, total, a / total);
    lemma_circ_turns(a, b % total, total, b / total);
}

/// Whatever leads from one place to the other is at least the shorter way.
proof fn lemma_circ_at_most(a: int, b: int, total: int, d: int)
    requires
        total > 0,
    ensures
        d >= 0 && ((a - b - d) % total == 0 || (a - b + d) % total == 0) ==> circ(a, b, total) <= d,
{
    if d >= 0 && (a - b - d) % total == 0 {
        let q = (a - b - d) / total;
        lemma_fundamental_div_mod(a - b - d, total);
        assert((-q) * total == -(total * q)) by (nonlinear_arith);
        circ_is_the_shorter_way(a, b, total, -q);
        circ_is_the_shorter_way(a, b, total, 0);
    }
    if d >= 0 && (a - b + d) % total == 0 {
        let q = (a - b + d) / total;
        lemma_fundamental_div_mod(a - b + d, total);
        assert((-q) * total == -(total * q)) by (nonlinear_arith);
        circ_is_the_shorter_way(a, b, total, -q);
    }
}

/// One step along the ring changes a distance by one at most.
proof fn lemma_circ_step(a: int, b: int, c: int, total: int)
    requires
        total > 0,
        -1 <= b - c <= 1,
    ensures
        circ(a, b, total) <= circ(a, c, total) + 1,
{
    let d = circ(a, c, total);
    circ_is_the_shorter_way(a, c, total, 0);
    if (a - c - d) % total == 0 {
        // a - b = d + (c - b)
        if d + (c - b) >= 0 {
            lemma_circ_at_most(a, b, total, d + (c - b));
        } else {
            lemma_circ_at_most(a, b, total, -(d + (c - b)));
        }
    } else {
        // a - b = -d + (c - b)
        if d - (c - b) >= 0 {
            lemma_circ_at_most(a, b, total, d - (c - b));
        } else {
            lemma_circ_at_most(a, b, total, -(d - (c - b)));
        }
    }
}

/// A position that is at least `h` away from every corner.
pub open spec fn far_from(p: int, corners: Seq<i64>, h: int, total: int) -> bool {
    forall|j: int| 0 <= j < corners.len() ==> circ(#[trigger] corners[j] as int, p, total) >= h
}

/// Walking from a place too near a corner towards one that is far enough, the
/// first far place on the way is half a tab from some corner.
proof fn lemma_walk(target: int, forward: bool, d: nat, corners: Seq<i64>, h: int, total: int) -> (i:
    int)
    requires
        total > 0,
        !far_from(target, corners, h, total),
        far_from(
            if forward {
                target + d
            } else {
                target - d
            },
            corners,
            h,
            total,
        ),
    ensures
        0 <= i < 2 * corners.len(),
        far_from(candidate(corners, h, total, i), corners, h, total),
        circ(candidate(corners, h, total, i), target, total) <= d,
    decreases d,
{
    if d == 0 {
        assert(false);
        0
    } else {
        let e = (d - 1) as nat;
        let u = if forward {
            target + d
        } else {
            target - d
        };
        let v = if forward {
            target + e
        } else {
            target - e
        };
        if far_from(v, corners, h, total) {
            lemma_walk(target, forward, e, corners, h, total)
        } else {
            let k = choose|k: int|
                0 <= k < corners.len() && circ(#[trigger] corners[k] as int, v, total) < h;
            let c = corners[k] as int;
            assert(circ(c, u, total) >= h);
            lemma_circ_step(c, u, v, total);
            assert(circ(c, u, total) == h);
            circ_is_the_shorter_way(c, u, total, 0);
            let i = if (c - u - h) % total == 0 {
                2 * k + 1
            } else {
                2 * k
            };
            let w = if (c - u - h) % total == 0 {
                c - h
            } else {
                c + h
            };
            let q = (w - u) / total;
            lemma_fundamental_div_mod(w - u, total);
            lemma_same_remainder(w, u, total, q);
            assert(i / 2 == k);
            assert(candidate(corners, h, total, i) == u % total);
            assert forall|j: int| 0 <= j < corners.len() implies circ(
                #[trigger] corners[j] as int,
                u % total,
                total,
            ) >= h by {
                lemma_circ_wrapped(corners[j] as int, u, total);
            }
            lemma_circ_wrapped(u, target, total);
            circ_is_the_shorter_way(u, target, total, 0);
            lemma_circ_at_most(u, target, total, d as int);
            assert((u - target - d) % total == 0 || (u - target + d) % total == 0) by {
                lemma_fundamental_div_mod_converse(0, total, 0, 0);
            }
            i
        }
    }
}

/// The chosen candidate is the nearest of those that are clear.
proof fn lemma_best_nearest(corners: Seq<i64>, h: int, total: int, target: int, n: nat, i: int)
    requires
        0 <= i < n,
        clear_of(candidate(corners, h, total, i), corners, h, total),
    ensures
        best_candidate(corners, h, total, target, n) matches Some(b) && circ(b, target, total)
            <= circ(candidate(corners, h, total, i), target, total),
    decreases n,
{
    if i < n - 1 {
        lemma_best_nearest(corners, h, total, target, (n - 1) as nat, i);
    }
}

/// A nudged position is as near to its target as any that is half a tab away
/// from all corners.
proof fn lemma_nudged_nearest(target: int, h: int, corners: Seq<i64>, total: int, p: int)
    requires
        total > 0,
        far_from(p, corners, h, total),
    ensures
        nudged(target, h, corners, total) matches Some(c) && circ(c, target, total) <= circ(
            p,
            target,
            total,
        ),
{
    if clear_of(target, corners, h, total) {
        circ_is_the_shorter_way(p, target, total, 0);
        lemma_circ_at_most(target, target, total, 0);
        assert(0int % total == 0) by {
            lemma_fundamental_div_mod_converse(0, total, 0, 0);
        }
    } else {
        assert(!far_from(target, corners, h, total)) by {
            let k = choose|k: int|
                0 <= k < corners.len() && circ(#[trigger] corners[k] as int, target, total) < h
                    - SLACK_PM;
            assert(circ(corners[k] as int, target, total) < h);
        }
        let d = circ(p, target, total);
        circ_is_the_shorter_way(p, target, total, 0);
        let forward = (p - target - d) % total == 0;
        let u = if forward {
            target + d
        } else {
            target - d
        };
        let q = (p - u) / total;
        lemma_fundamental_div_mod(p - u, total);
        assert forall|j: int| 0 <= j < corners.len() implies circ(
            #[trigger] corners[j] as int,
            u,
            total,
        ) >= h by {
            lemma_circ_turns(corners[j] as int, u, total, q);
        }
        let i = lemma_walk(target, forward, d as nat, corners, h, total);
        assert(clear_of(candidate(corners, h, total, i), corners, h, total));
        lemma_best_nearest(corners, h, total, target, 2 * corners.len(), i);
    }
}

/// `q` is the middle of slot `k` of `t` equal slots of a ring, rounded down.
pub open spec fn is_slot_middle(k: int, t: int, total: int, q: int) -> bool {
    (2 * t) * q <= (2 * k + 1) * total < (2 * t) * (q + 1)
}

/// No position that is half a tab away from all corners is nearer to `q`.
pub open spec fn none_nearer(c: int, q: int, corners: Seq<i64>, h: int, total: int) -> bool {
    forall|p: int| #[trigger]
        far_from(p, corners, h, total) ==> circ(c, q, total) <= circ(p, q, total)
}

proof fn lemma_slot_middle(k: int, t: int, total: int)
    requires
        t > 0,
    ensures
        is_slot_middle(k, t, total, slot_center(k, t, total)),
        forall|q: int| is_slot_middle(k, t, total, q) ==> q == slot_center(k, t, total),
{
    let num = (2 * k + 1) * total;
    let c = slot_center(k, t, total);
    lemma_fundamental_div_mod(num, 2 * t);
    assert((2 * t) * (c + 1) == (2 * t) * c + 2 * t) by (nonlinear_arith);
    assert forall|q: int| is_slot_middle(k, t, total, q) implies q == c by {
        assert(q == c) by (nonlinear_arith)
            requires
                t > 0,
                (2 * t) * q <= num < (2 * t) * (q + 1),
                (2 * t) * c <= num < (2 * t) * (c + 1),
        ;
    }
}

proof fn lemma_placed_from(corners: Seq<i64>, h: int, total: int, t: int, n: nat, i: int) -> (k: int)
    requires
        0 < total <= MAX_ARC_PM,
        n <= t,
        0 <= i < placed(corners, h, total, t, n).len(),
    ensures
        0 <= k < n,
        nudged(slot_center(k, t, total), h, corners, total) == Some(
            placed(corners, h, total, t, n)[i] as int,
        ),
    decreases n,
{
    let before = placed(corners, h, total, t, (n - 1) as nat);
    if i < before.len() {
        lemma_placed_from(corners, h, total, t, (n - 1) as nat, i)
    } else {
        lemma_slot_center(n - 1, t, total);
        lemma_best_clear(corners, h, total, slot_center(n - 1, t, total), 2 * corners.len());
        n - 1
    }
}

proof fn lemma_placed_has(corners: Seq<i64>, h: int, total: int, t: int, n: nat, k: int) -> (i: int)
    requires
        0 < total <= MAX_ARC_PM,
        0 <= k < n <= t,
        nudged(slot_center(k, t, total), h, corners, total) is Some,
    ensures
        0 <= i < placed(corners, h, total, t, n).len(),
        nudged(slot_center(k, t, total), h, corners, total) == Some(
            placed(corners, h, total, t, n)[i] as int,
        ),
    decreases n,
{
    let before = placed(corners, h, total, t, (n - 1) as nat);
    if k < n - 1 {
        lemma_placed_has(corners, h, total, t, (n - 1) as nat, k)
    } else {
        lemma_slot_center(n - 1, t, total);
        lemma_best_clear(corners, h, total, slot_center(n - 1, t, total), 2 * corners.len());
        before.len() as int
    }
}

/// Every tab belongs to one of `t` equal slots of the ring, and no position that
/// clears the corners is nearer to the middle of the slot.
pub proof fn tabs_lie_nearest_to_their_slots(
    corners: Seq<i64>,
    total: int,
    w: int,
    t: nat,
    i: int,
) -> (s: (int, int))
    requires
        0 < total <= MAX_ARC_PM,
        0 <= w,
        t > 0,
        0 <= i < tab_centers(corners, total, w, t).len(),
    ensures
        0 <= s.0 < t,
        is_slot_middle(s.0, t as int, total, s.1),
        none_nearer(
            tab_centers(corners, total, w, t)[i] as int,
            s.1,
            corners,
            w / 2,
            total,
        ),
{
    let h = w / 2;
    let raw = placed(corners, h, total, t as int, t);
    let centers = ascending(raw);
    let kept_ones = kept(centers, w, total, centers.len());
    let c = tab_centers(corners, total, w, t)[i];
    let k = if kept_ones.len() > 0 {
        lemma_kept_from(centers, w, total, centers.len(), i);
        assert(centers.contains(c));
        lemma_ascending_contains(raw, c);
        let m = choose|m: int| 0 <= m < raw.len() && raw[m] == c;
        lemma_placed_from(corners, h, total, t as int, t, m)
    } else {
        0
    };
    let q = slot_center(k, t as int, total);
    lemma_slot_middle(k, t as int, total);
    assert forall|p: int| #[trigger] far_from(p, corners, h, total) implies circ(
        c as int,
        q,
        total,
    ) <= circ(p, q, total) by {
        lemma_nudged_nearest(q, h, corners, total, p);
        if kept_ones.len() == 0 {
            let m = lemma_placed_has(corners, h, total, t as int, t, k);
            lemma_ascending(raw);
            lemma_first_kept(centers, w, total, centers.len());
        }
    }
    (k, q)
}

proof fn lemma_first_kept(centers: Seq<i64>, w: int, total: int, n: nat)
    requires
        0 < n <= centers.len(),
    ensures
        kept(centers, w, total, n).len() > 0,
    decreases n,
{
    if n > 1 {
        lemma_first_kept(centers, w, total, (n - 1) as nat);
    } else {
        assert(kept(centers, w, total, 0).len() == 0);
    }
}

proof fn lemma_kept_covers(centers: Seq<i64>, w: int, total: int, n: nat, j: int) -> (i: int)
    requires
        0 <= j < n <= centers.len(),
    ensures
        0 <= i < kept(centers, w, total, n).len(),
        kept(centers, w, total, n)[i] == centers[j] || circ(
            kept(centers, w, total, n)[i] as int,
            centers[j] as int,
            total,
        ) < w - SLACK_PM,
    decreases n,
{
    let before = kept(centers, w, total, (n - 1) as nat);
    if j < n - 1 {
        lemma_kept_covers(centers, w, total, (n - 1) as nat, j)
    } else if clear_of(centers[n - 1] as int, before, w, total) {
        before.len() as int
    } else {
        choose|k: int|
            0 <= k < before.len() && circ(#[trigger] before[k] as int, centers[n - 1] as int, total)
                < w - SLACK_PM
    }
}

/// Every slot is held: where any position clears the corners, there is a tab at
/// the one nearest to the middle of the slot, or one that would overlap a tab
/// there.
pub proof fn every_slot_is_held(corners: Seq<i64>, total: int, w: int, t: nat, k: int, q: int, p: int)
    -> (r: (int, int))
    requires
        0 < total <= MAX_ARC_PM,
        0 <= w,
        0 <= k < t,
        is_slot_middle(k, t as int, total, q),
        far_from(p, corners, w / 2, total),
    ensures
        0 <= r.0 < tab_centers(corners, total, w, t).len(),
        none_nearer(r.1, q, corners, w / 2, total),
        circ(r.1, q, total) <= circ(p, q, total),
        tab_centers(corners, total, w, t)[r.0] == r.1 || circ(
            tab_centers(corners, total, w, t)[r.0] as int,
            r.1,
            total,
        ) < w,
{
    let h = w / 2;
    let raw = placed(corners, h, total, t as int, t);
    let centers = ascending(raw);
    lemma_slot_middle(k, t as int, total);
    lemma_nudged_nearest(q, h, corners, total, p);
    let m = lemma_placed_has(corners, h, total, t as int, t, k);
    let c = raw[m];
    assert(raw.contains(c));
    lemma_ascending_contains(raw, c);
    let j = choose|j: int| 0 <= j < centers.len() && centers[j] == c;
    let i = lemma_kept_covers(centers, w, total, centers.len(), j);
    assert forall|o: int| #[trigger] far_from(o, corners, h, total) implies circ(
        c as int,
        q,
        total,
    ) <= circ(o, q, total) by {
        lemma_nudged_nearest(q, h, corners, total, o);
    }
    (i, c as int)
}

proof fn lemma_placed_even(corners: Seq<i64>, h: int, total: int, t: int, n: nat)
    requires
        0 < total <= MAX_ARC_PM,
        0 <= n <= t,
        forall|k: int, q: int|
            0 <= k < t && #[trigger] is_slot_middle(k, t, total, q) ==> far_from(
                q,
                corners,
                h,
                total,
            ),
    ensures
        placed(corners, h, total, t, n).len() == n,
        forall|i: int|
            0 <= i < n ==> #[trigger] placed(corners, h, total, t, n)[i] == slot_center(i, t, total),
    decreases n,
{
    if n > 0 {
        lemma_placed_even(corners, h, total, t, (n - 1) as nat);
        let q = slot_center(n - 1, t, total);
        lemma_slot_center(n - 1, t, total);
        lemma_slot_middle(n - 1, t, total);
        assert(far_from(q, corners, h, total));
        assert(clear_of(q, corners, h, total)) by {
            assert forall|j: int| 0 <= j < corners.len() implies circ(
                #[trigger] corners[j] as int,
                q,
                total,
            ) >= h - SLACK_PM by {
                assert(circ(corners[j] as int, q, total) >= h);
            }
        }
        let before = placed(corners, h, total, t, (n - 1) as nat);
        let all = placed(corners, h, total, t, n);
        assert forall|i: int| 0 <= i < n implies #[trigger] all[i] == slot_center(i, t, total) by {
            if i < n - 1 {
                assert(all[i] == before[i]);
            }
        }
    }
}

/// The middles of two slots are as far apart as their slots.
proof fn lemma_slots_apart(i: int, j: int, t: int, total: int)
    requires
        0 <= i < j < t,
        0 < total,
    ensures
        (j - i) * total - t < t * (slot_center(j, t, total) - slot_center(i, t, total)) < (j - i)
            * total + t,
{
    lemma_slot_middle(i, t, total);
    lemma_slot_middle(j, t, total);
    let a = slot_center(i, t, total);
    let b = slot_center(j, t, total);
    assert((j - i) * total - t < t * (b - a) < (j - i) * total + t) by (nonlinear_arith)
        requires
            (2 * t) * a <= (2 * i + 1) * total < (2 * t) * (a + 1),
            (2 * t) * b <= (2 * j + 1) * total < (2 * t) * (b + 1),
    ;
}

proof fn lemma_all_kept(centers: Seq<i64>, w: int, total: int, n: nat)
    requires
        n <= centers.len(),
        forall|i: int, j: int|
            #![trigger centers[i], centers[j]]
            0 <= i < j < centers.len() ==> circ(centers[i] as int, centers[j] as int, total) >= w
                - SLACK_PM,
    ensures
        kept(centers, w, total, n) == centers.take(n as int),
    decreases n,
{
    if n > 0 {
        lemma_all_kept(centers, w, total, (n - 1) as nat);
        let before = kept(centers, w, total, (n - 1) as nat);
        assert forall|k: int| 0 <= k < before.len() implies circ(
            #[trigger] before[k] as int,
            centers[n - 1] as int,
            total,
        ) >= w - SLACK_PM by {
            assert(before[k] == centers[k]);
            assert(circ(centers[k] as int, centers[n - 1] as int, total) >= w - SLACK_PM);
        }
        assert(centers.take(n as int) =~= before.push(centers[n - 1]));
    } else {
        assert(centers.take(0) =~= Seq::<i64>::empty());
    }
}

/// Tabs are spread evenly: where no corner is in the way and they fit next to
/// each other, each sits in the middle of its slot, and neighbors, the last and
/// the first among them, are one slot apart up to rounding.
pub proof fn tabs_are_spread_evenly(corners: Seq<i64>, total: int, w: int, t: nat)
    requires
        0 < total <= MAX_ARC_PM,
        0 < w,
        t > 0,
        t * w <= total,
        forall|k: int, q: int|
            0 <= k < t && #[trigger] is_slot_middle(k, t as int, total, q) ==> far_from(
                q,
                corners,
                w / 2,
                total,
            ),
    ensures
        ({
            let c = tab_centers(corners, total, w, t);
            &&& c.len() == t
            &&& forall|k: int|
                0 <= k < t ==> is_slot_middle(k, t as int, total, #[trigger] c[k] as int)
            &&& forall|k: int|
                0 <= k < t - 1 ==> -t < t * (c[k + 1] - #[trigger] c[k]) - total < t
            &&& -t < t * (c[0] + total - c[t - 1]) - total < t
        }),
{
    let h = w / 2;
    let n = t as int;
    let raw = placed(corners, h, total, n, t);
    lemma_placed_even(corners, h, total, n, t);
    assert forall|i: int, j: int| #![trigger raw[i], raw[j]] 0 <= i < j < raw.len() implies raw[i]
        <= raw[j] && circ(raw[i] as int, raw[j] as int, total) >= w - SLACK_PM by {
        lemma_slots_apart(i, j, n, total);
        lemma_slot_center(i, n, total);
        lemma_slot_center(j, n, total);
        let d = raw[j] - raw[i];
        assert(w - 1 <= d && d <= total - (w - 1)) by (nonlinear_arith)
            requires
                (j - i) * total - n < n * d < (j - i) * total + n,
                n * w <= total,
                1 <= j - i <= n - 1,
                n > 0,
                total > 0,
        ;
        lemma_circ_at_least(raw[i] as int, raw[j] as int, total, d, w - 1);
    }
    lemma_is_sorted(raw, raw);
    lemma_all_kept(raw, w, total, t);
    assert(raw.take(n) =~= raw);
    let c = tab_centers(corners, total, w, t);
    assert(c == raw);
    assert forall|k: int| 0 <= k < t implies is_slot_middle(k, n, total, #[trigger] c[k] as int) by {
        lemma_slot_middle(k, n, total);
    }
    assert forall|k: int| 0 <= k < t - 1 implies -t < t * (c[k + 1] - #[trigger] c[k]) - total
        < t by {
        lemma_slots_apart(k, k + 1, n, total);
        assert(((k + 1) - k) * total == total) by (nonlinear_arith);
        assert(raw[k] == slot_center(k, n, total) && raw[k + 1] == slot_center(k + 1, n, total));
    }
    if t > 1 {
        lemma_slots_apart(0, n - 1, n, total);
        let a = c[0];
        let b = c[n - 1];
        assert(-n < n * (a + total - b) - total < n) by (nonlinear_arith)
            requires
                (n - 1) * total - n < n * (b - a) < (n - 1) * total + n,
        ;
    } else {
        assert(1 * (c[0] + total - c[0]) == total);
    }
}

/// Places that lie apart by at least `x` both ways round.
proof fn lemma_circ_at_least(a: int, b: int, total: int, d: int, x: int)
    requires
        total > 0,
        d == b - a,
        x <= d <= total - x,
        0 <= d < total,
    ensures
        circ(a, b, total) >= x,
{
    if d == 0 {
        lemma_fundamental_div_mod_converse(0, total, 0, 0);
    } else {
        lemma_fundamental_div_mod_converse(a - b, total, -1, total - d);
    }
}

/// The smaller side of a ring's bounding box; zero without points.
pub open spec fn min_side(ring: Seq<P>) -> int {
    match hull(ring) {
        None => 0,
        Some(b) => {
            let w = b.max.x - b.min.x;
            let h = b.max.y - b.min.y;
            if w <= h {
                w
            } else {
                h
            }
        },
    }
}

/// The smaller side of a ring's bounding box.
pub fn ring_min_dim_nm(ring: &Ring) -> (d: i128)
    ensures
        d == min_side(ring@),
{
    match ring_bbox(ring) {
        None => 0,
        Some(b) => {
            let w: i128 = b.max.x as i128 - b.min.x as i128;
            let h: i128 = b.max.y as i128 - b.min.y as i128;
            if w <= h {
                w
            } else {
                h
            }
        },
    }
}


/// A cut that runs from one position of a ring forward to another: an open line
/// from the point at the one to the point at the other, over all vertices in
/// between that are more than a nanometer from both.
pub open spec fn runs(e: ElemV, ring: Seq<P>, from: int, to: int) -> bool {
    &&& e.kind == PathKind::Cut
    &&& !e.closed
    &&& e.pts.len() >= 2
    &&& e.pts.first() == spot(ring, from % whole(ring))
    &&& e.pts.last() == spot(ring, to % whole(ring))
    &&& forall|i: int|
        0 <= i < ring.len() && 1_000 < (arc(ring, i as nat) - from) % whole(ring) < to - from
            - 1_000 ==> e.pts.contains(#[trigger] ring[i])
    &&& forall|q: P| #[trigger]
        e.pts.contains(q) ==> q == e.pts.first() || q == e.pts.last() || ring.contains(q)
}

proof fn lemma_piece_runs(ring: Seq<P>, from: int, to: int)
    requires
        ring.len() > 0,
        whole(ring) > 0,
        piece(ring, from, to).len() >= 2,
    ensures
        runs(ElemV { kind: PathKind::Cut, pts: piece(ring, from, to), closed: false }, ring, from, to),
{
    pieces_pass_their_vertices(ring, from, to);
    let p = piece(ring, from, to);
    assert forall|q: P| #[trigger] p.contains(q) implies q == p.first() || q == p.last()
        || ring.contains(q) by {
        if q != p.first() && q != p.last() {
            let i = choose|i: int|
                0 <= i < ring.len() && 1_000 < (arc(ring, i as nat) - from) % whole(ring) < to
                    - from - 1_000 && #[trigger] ring[i] == q;
            assert(ring[i] == q);
        }
    }
}

proof fn lemma_cut_of_gap(ring: Seq<P>, centers: Seq<i64>, h: int, n: nat, j: int) -> (k: int)
    requires
        0 <= j < n <= centers.len(),
        cut_to(centers, h, whole(ring), j) - cut_from(centers, h, j) >= 1_000_000,
        piece(ring, cut_from(centers, h, j), cut_to(centers, h, whole(ring), j)).len() >= 2,
    ensures
        0 <= k < cuts_of(ring, centers, h, n).len(),
        cuts_of(ring, centers, h, n)[k].pts == piece(
            ring,
            cut_from(centers, h, j),
            cut_to(centers, h, whole(ring), j),
        ),
        cuts_of(ring, centers, h, n)[k].kind == PathKind::Cut,
        !cuts_of(ring, centers, h, n)[k].closed,
    decreases n,
{
    let before = cuts_of(ring, centers, h, (n - 1) as nat);
    if j < n - 1 {
        lemma_cut_of_gap(ring, centers, h, (n - 1) as nat, j)
    } else {
        before.len() as int
    }
}

proof fn lemma_gap_of_cut(ring: Seq<P>, centers: Seq<i64>, h: int, n: nat, k: int) -> (j: int)
    requires
        n <= centers.len(),
        0 <= k < cuts_of(ring, centers, h, n).len(),
    ensures
        0 <= j < n,
        cut_to(centers, h, whole(ring), j) - cut_from(centers, h, j) >= 1_000_000,
        cuts_of(ring, centers, h, n)[k] == (ElemV {
            kind: PathKind::Cut,
            pts: piece(ring, cut_from(centers, h, j), cut_to(centers, h, whole(ring), j)),
            closed: false,
        }),
        cuts_of(ring, centers, h, n)[k].pts.len() >= 2,
    decreases n,
{
    let before = cuts_of(ring, centers, h, (n - 1) as nat);
    if k < before.len() {
        lemma_gap_of_cut(ring, centers, h, (n - 1) as nat, k)
    } else {
        n - 1
    }
}

/// The position of the tab after tab `j`, counted on round the ring.
pub open spec fn following(centers: Seq<i64>, total: int, j: int) -> int {
    if j + 1 == centers.len() {
        centers[0] + total
    } else {
        centers[j + 1] as int
    }
}

/// A ring with room for tabs is cut from tab to tab: every cut runs from half a
/// tab behind one center to half a tab before the next, and every stretch of a
/// micrometer or more that has an extent is cut.
pub proof fn rings_are_cut_between_their_tabs(ring: Seq<P>, gap: int, count: nat)
    requires
        ring.len() >= 3,
        count > 0,
        0 < gap,
        1_000 * gap < whole(ring),
        tab_centers(corners_of(ring, ring.len()), whole(ring), 1_000 * gap, count).len() > 0,
    ensures
        ({
            let total = whole(ring);
            let c = tab_centers(corners_of(ring, ring.len()), total, 1_000 * gap, count);
            let cuts = tabbed(ring, gap, count);
            &&& forall|k: int|
                0 <= k < cuts.len() ==> exists|j: int|
                    0 <= j < c.len() && runs(
                        #[trigger] cuts[k],
                        ring,
                        #[trigger] c[j] + 500 * gap,
                        following(c, total, j) - 500 * gap,
                    )
            &&& forall|j: int|
                0 <= j < c.len() && following(c, total, j) - #[trigger] c[j] >= 1_000 * gap
                    + 1_000_000 && piece(
                    ring,
                    c[j] + 500 * gap,
                    following(c, total, j) - 500 * gap,
                ).len() >= 2 ==> exists|k: int|
                    0 <= k < cuts.len() && runs(
                        #[trigger] cuts[k],
                        ring,
                        c[j] + 500 * gap,
                        following(c, total, j) - 500 * gap,
                    )
        }),
{
    let total = whole(ring);
    let h = 500 * gap;
    let c = tab_centers(corners_of(ring, ring.len()), total, 1_000 * gap, count);
    let cuts = tabbed(ring, gap, count);
    assert forall|k: int| 0 <= k < cuts.len() implies exists|j: int|
        0 <= j < c.len() && runs(
            #[trigger] cuts[k],
            ring,
            #[trigger] c[j] + 500 * gap,
            following(c, total, j) - 500 * gap,
        ) by {
        let j = lemma_gap_of_cut(ring, c, h, c.len(), k);
        lemma_piece_runs(ring, cut_from(c, h, j), cut_to(c, h, total, j));
        assert(runs(cuts[k], ring, c[j] + 500 * gap, following(c, total, j) - 500 * gap));
    }
    assert forall|j: int|
        0 <= j < c.len() && following(c, total, j) - #[trigger] c[j] >= 1_000 * gap + 1_000_000
            && piece(ring, c[j] + 500 * gap, following(c, total, j) - 500 * gap).len()
            >= 2 implies exists|k: int|
        0 <= k < cuts.len() && runs(
            #[trigger] cuts[k],
            ring,
            c[j] + 500 * gap,
            following(c, total, j) - 500 * gap,
        ) by {
        let k = lemma_cut_of_gap(ring, c, h, c.len(), j);
        lemma_piece_runs(ring, cut_from(c, h, j), cut_to(c, h, total, j));
        assert(runs(cuts[k], ring, c[j] + 500 * gap, following(c, total, j) - 500 * gap));
    }
}

/// A ring without room for a tab, or that wants none, is cut in one go, all
/// round.
pub proof fn rings_without_tabs_are_cut_whole(ring: Seq<P>, gap: int, count: nat)
    requires
        ring.len() >= 3,
        count == 0 || gap <= 0 || 1_000 * gap >= whole(ring) || forall|p: int|
            !#[trigger] clear_of(p, corners_of(ring, ring.len()), 500 * gap, whole(ring)),
        0 <= whole(ring) <= MAX_ARC_PM,
    ensures
        tabbed(ring, gap, count).len() == 1,
        tabbed(ring, gap, count)[0].kind == PathKind::Cut,
        tabbed(ring, gap, count)[0].closed,
        tabbed(ring, gap, count)[0].pts == ring,
{
    if count > 0 && gap > 0 && 1_000 * gap < whole(ring) {
        let corners = corners_of(ring, ring.len());
        let w = 1_000 * gap;
        lemma_corners_on_ring(ring, ring.len());
        let c = tab_centers(corners, whole(ring), w, count);
        if c.len() > 0 {
            tabs_avoid_corners(corners, whole(ring), w, count, 0);
            assert(w / 2 == 500 * gap);
            assert(clear_of(c[0] as int, corners, 500 * gap, whole(ring)));
        }
    }
}

/// A ring is cut unless it is a sliver of less than a hundred square
/// micrometers, and rings are cut in the order they come.
pub proof fn contours_are_cut_in_order(rings: Seq<Seq<P>>, gap: int, count: nat)
    ensures
        ring_cuts(rings, gap, count) == rings.filter(
            |r: Seq<P>| doubled_area(r) >= 200_000_000 || doubled_area(r) <= -200_000_000,
        ).map_values(|r: Seq<P>| tabbed(r, gap, count)).flatten_alt(),
    decreases rings.len(),
{
    reveal(Seq::filter);
    let large = |r: Seq<P>| doubled_area(r) >= 200_000_000 || doubled_area(r) <= -200_000_000;
    let cuts = |r: Seq<P>| tabbed(r, gap, count);
    if rings.len() > 0 {
        let head = rings.drop_last();
        let r = rings.last();
        contours_are_cut_in_order(head, gap, count);
        if large(r) {
            let all = head.filter(large).push(r).map_values(cuts);
            assert(all.drop_last() =~= head.filter(large).map_values(cuts));
            assert(all.last() == cuts(r));
        } else {
            assert(ring_cuts(head, gap, count) + Seq::<ElemV>::empty() =~= ring_cuts(
                head,
                gap,
                count,
            ));
        }
    }
}

/// The cutouts of a board are the holes of its polygons, in order, but for those
/// of slivers.
pub proof fn cutouts_are_the_holes(board: Seq<PolyV>)
    ensures
        cutouts(board) == board.filter(
            |p: PolyV|
                doubled_area(p.outer) >= 200_000_000 || doubled_area(p.outer) <= -200_000_000,
        ).map_values(|p: PolyV| p.holes).flatten_alt(),
        perimeters(board).len() == board.len(),
        forall|i: int| 0 <= i < board.len() ==> #[trigger] perimeters(board)[i] == board[i].outer,
    decreases board.len(),
{
    reveal(Seq::filter);
    let large = |p: PolyV|
        doubled_area(p.outer) >= 200_000_000 || doubled_area(p.outer) <= -200_000_000;
    let holes = |p: PolyV| p.holes;
    if board.len() > 0 {
        let head = board.drop_last();
        let p = board.last();
        cutouts_are_the_holes(head);
        if large(p) {
            let all = head.filter(large).push(p).map_values(holes);
            assert(all.drop_last() =~= head.filter(large).map_values(holes));
            assert(all.last() == holes(p));
        } else {
            assert(cutouts(head) + Seq::<Seq<P>>::empty() =~= cutouts(head));
        }
    }
}

/// The smaller side of a ring is that of the least box around it.
pub proof fn smaller_side_spans_the_ring(ring: Seq<P>)
    ensures
        ring.len() == 0 ==> min_side(ring) == 0,
        forall|i: int, j: int|
            #![trigger ring[i], ring[j]]
            (0 <= i < ring.len() && 0 <= j < ring.len()) ==> (min_side(ring) >= ring[i].x
                - ring[j].x || min_side(ring) >= ring[i].y - ring[j].y),
        ring.len() > 0 ==> (exists|i: int, j: int|
            0 <= i < ring.len() && 0 <= j < ring.len() && min_side(ring) == (#[trigger] ring[i]).x - (
            #[trigger] ring[j]).x) || (exists|i: int, j: int|
            0 <= i < ring.len() && 0 <= j < ring.len() && min_side(ring) == (#[trigger] ring[i]).y - (
            #[trigger] ring[j]).y),
        forall|c: Bounds|
            ring.len() > 0 && #[trigger] covers(c, ring) ==> min_side(ring) <= c.max.x - c.min.x
                && min_side(ring) <= c.max.y - c.min.y,
{
    hull_is_tight(ring);
    if ring.len() > 0 {
        let b = hull(ring)->0;
        let i0 = choose|i: int| 0 <= i < ring.len() && (#[trigger] ring[i]).x == b.min.x;
        let i1 = choose|i: int| 0 <= i < ring.len() && (#[trigger] ring[i]).x == b.max.x;
        let i2 = choose|i: int| 0 <= i < ring.len() && (#[trigger] ring[i]).y == b.min.y;
        let i3 = choose|i: int| 0 <= i < ring.len() && (#[trigger] ring[i]).y == b.max.y;
        assert(ring[i1].x - ring[i0].x == b.max.x - b.min.x);
        assert(ring[i3].y - ring[i2].y == b.max.y - b.min.y);
        assert forall|i: int, j: int|
            #![trigger ring[i], ring[j]]
            (0 <= i < ring.len() && 0 <= j < ring.len()) implies (min_side(ring) >= ring[i].x
                - ring[j].x || min_side(ring) >= ring[i].y - ring[j].y) by {
            assert(b.contains(ring[i]) && b.contains(ring[j]));
        }
        assert forall|c: Bounds| #[trigger] covers(c, ring) implies min_side(ring) <= c.max.x
            - c.min.x && min_side(ring) <= c.max.y - c.min.y by {
            assert(c.contains(ring[i0]) && c.contains(ring[i1]) && c.contains(ring[i2])
                && c.contains(ring[i3]));
        }
    }
}

/// How far it is from corner `i` of a ring to the next one, the last one's next
/// being the first.
pub open spec fn gap_after(sorted: Seq<i64>, total: int, i: int) -> int {
    if i == sorted.len() - 1 {
        sorted[0] + total - sorted[i]
    } else {
        sorted[i + 1] - sorted[i]
    }
}

/// A tab that fits nowhere else goes to the middle of the longest stretch between
/// two corners, up to rounding, if that is as long as the tab; anywhere on a ring
/// without corners.
pub proof fn last_resort_is_the_longest_stretch(corners: Seq<i64>, total: int, w: int) -> (r: (
    int,
    int,
))
    requires
        0 < total,
    ensures
        corners.len() == 0 ==> free_center(corners, total, w) is Some,
        corners.len() > 0 ==> {
            let sorted = ascending(corners);
            let gap = gap_after(sorted, total, r.0);
            &&& 0 <= r.0 < corners.len()
            &&& forall|j: int|
                0 <= j < corners.len() ==> #[trigger] gap_after(sorted, total, j) <= gap
            &&& free_center(corners, total, w) is Some <==> gap >= w
            &&& 0 <= 2 * sorted[r.0] + gap - 2 * r.1 <= 1
            &&& free_center(corners, total, w) matches Some(c) ==> c == r.1 % total
        },
{
    let sorted = ascending(corners);
    if corners.len() > 0 {
        lemma_ascending(corners);
        let i = longest(sorted, total, sorted.len());
        lemma_longest_of_all(sorted, total, sorted.len());
        assert forall|j: int| 0 <= j < corners.len() implies #[trigger] gap_after(sorted, total, j)
            <= gap_after(sorted, total, i) by {
            assert(stretch(sorted, total, j) == gap_after(sorted, total, j));
        }
        (i, (2 * sorted[i] + stretch(sorted, total, i)) / 2)
    } else {
        (0, 0)
    }
}

proof fn lemma_longest_of_all(sorted: Seq<i64>, total: int, n: nat)
    requires
        1 <= n <= sorted.len(),
    ensures
        0 <= longest(sorted, total, n) < n,
        forall|j: int|
            0 <= j < n ==> #[trigger] stretch(sorted, total, j) <= stretch(
                sorted,
                total,
                longest(sorted, total, n),
            ),
    decreases n,
{
    if n > 1 {
        lemma_longest_of_all(sorted, total, (n - 1) as nat);
    }
}

} // verus!
