//! Positions along a closed ring, measured by arc length.
//!
//! Arc lengths are kept in picometers, so that rounding each edge on its own
//! adds up to nothing that matters on the nanometer grid.
use vstd::arithmetic::div_mod::{lemma_fundamental_div_mod, lemma_fundamental_div_mod_converse};
use vstd::prelude::*;
use crate::geom::next;
use crate::model::{Nm, Ring, P};
use crate::num::{
    div_round_nearest, is_nearest_root, lemma_nearest_bounds, nearest_is_close, nearest_signed,
    nearest_sqrt,
};
use crate::offset::{dedup, dropping_repetitions_keeps_the_points};
use crate::order::{dist2, jump2};
use crate::wide::product_le;

verus! {

/// Farthest coordinate from the origin of a ring that is measured.
pub const REACH_NM: Nm = 0x100_0000_0000;

/// Longest ring that is measured, in picometers.
pub const MAX_ARC_PM: i64 = 0x1000_0000_0000_0000;

/// Arc length over which the direction at a vertex is averaged, in picometers.
pub const CORNER_WINDOW_PM: i64 = 40_000_000;

/// Slack of comparisons between positions, in picometers.
pub const SLACK_PM: i64 = 1_000;

// ---------------------------------------------------------------------------
// Lengths
// ---------------------------------------------------------------------------

/// The integer nearest to a square root.
pub open spec fn root(n: int) -> int {
    choose|r: int| is_nearest_root(r, n)
}

proof fn lemma_root_exists(n: nat)
    ensures
        is_nearest_root(root(n as int), n as int),
    decreases n,
{
    if n == 0 {
        assert(is_nearest_root(0, 0));
    } else {
        lemma_root_exists((n - 1) as nat);
        let r = root(n - 1);
        if n <= r * r + r {
            assert(is_nearest_root(r, n as int));
        } else {
            assert((r + 1) * (r + 1) == r * r + 2 * r + 1) by (nonlinear_arith);
            assert(is_nearest_root(r + 1, n as int));
        }
    }
}

proof fn lemma_root_unique(r: int, n: int)
    requires
        is_nearest_root(r, n),
    ensures
        r == root(n),
{
    let q = root(n);
    assert(is_nearest_root(q, n));
    assert(!(q < r)) by (nonlinear_arith)
        requires
            is_nearest_root(r, n),
            is_nearest_root(q, n),
    ;
    assert(!(r < q)) by (nonlinear_arith)
        requires
            is_nearest_root(r, n),
            is_nearest_root(q, n),
    ;
}

/// The length of an edge in picometers.
pub open spec fn span(a: P, b: P) -> int {
    root(1_000_000 * dist2(a, b))
}

proof fn lemma_span_nonneg(a: P, b: P)
    ensures
        span(a, b) >= 0,
{
    assert(dist2(a, b) >= 0) by (nonlinear_arith);
    lemma_root_exists((1_000_000 * dist2(a, b)) as nat);
}

/// The arc length of the first `n` edges of a ring: the position of vertex `n`.
pub open spec fn arc(s: Seq<P>, n: nat) -> int
    decreases n,
{
    if n == 0 {
        0
    } else {
        arc(s, (n - 1) as nat) + span(s[n - 1], next(s, n - 1))
    }
}

/// The perimeter.
pub open spec fn whole(s: Seq<P>) -> int {
    arc(s, s.len())
}

pub open spec fn within_reach(p: P) -> bool {
    -REACH_NM <= p.x <= REACH_NM && -REACH_NM <= p.y <= REACH_NM
}

/// A ring whose arc positions fit the machine.
pub open spec fn measurable(s: Seq<P>) -> bool {
    &&& forall|i: int| 0 <= i < s.len() ==> within_reach(#[trigger] s[i])
    &&& whole(s) <= MAX_ARC_PM
}

/// Positions do not decrease along the ring.
pub proof fn lemma_arc_grows(s: Seq<P>, i: nat, j: nat)
    requires
        i <= j,
    ensures
        0 <= arc(s, i) <= arc(s, j),
    decreases j,
{
    if i < j {
        lemma_arc_grows(s, i, (j - 1) as nat);
        lemma_span_nonneg(s[j - 1], next(s, j - 1));
    } else if i > 0 {
        lemma_arc_grows(s, (i - 1) as nat, (i - 1) as nat);
        lemma_span_nonneg(s[i - 1], next(s, i - 1));
    }
}

fn to_span(a: P, b: P) -> (r: u128)
    requires
        within_reach(a),
        within_reach(b),
    ensures
        r == span(a, b),
        r <= 0x1_0000_0000_0000_0000,
{
    let d: i128 = jump2(a, b);
    proof {
        let m = 0x200_0000_0000int;
        let dx = a.x - b.x;
        let dy = a.y - b.y;
        assert(0 <= dx * dx <= m * m && 0 <= dy * dy <= m * m) by (nonlinear_arith)
            requires
                -m <= dx <= m,
                -m <= dy <= m,
        ;
        assert(m * m == 0x4_0000_0000_0000_0000_0000) by (nonlinear_arith)
            requires
                m == 0x200_0000_0000int,
        ;
    }
    let r: u128 = nearest_sqrt(1_000_000 * (d as u128));
    proof {
        lemma_root_unique(r as int, 1_000_000 * dist2(a, b));
    }
    r
}

/// Whether a ring can be measured.
pub fn is_measurable(ring: &Ring) -> (r: bool)
    ensures
        r == measurable(ring@),
{
    let n: usize = ring.len();
    let mut i: usize = 0;
    while i < n
        invariant
            i <= n == ring@.len(),
            forall|k: int| 0 <= k < i ==> within_reach(#[trigger] ring@[k]),
        decreases n - i,
    {
        let p = ring[i];
        if p.x < -REACH_NM || p.x > REACH_NM || p.y < -REACH_NM || p.y > REACH_NM {
            assert(!within_reach(ring@[i as int]));
            return false;
        }
        i += 1;
    }
    let mut sum: u128 = 0;
    let mut k: usize = 0;
    while k < n
        invariant
            k <= n == ring@.len(),
            forall|j: int| 0 <= j < n ==> within_reach(#[trigger] ring@[j]),
            sum == arc(ring@, k as nat),
            sum <= MAX_ARC_PM,
        decreases n - k,
    {
        let a = ring[k];
        let b = if k + 1 == n {
            ring[0]
        } else {
            ring[k + 1]
        };
        assert(a == ring@[k as int] && b == next(ring@, k as int));
        assert(within_reach(ring@[k as int]) && within_reach(next(ring@, k as int)));
        sum = sum + to_span(a, b);
        if sum > MAX_ARC_PM as u128 {
            proof {
                lemma_arc_grows(ring@, (k + 1) as nat, n as nat);
            }
            return false;
        }
        k += 1;
    }
    true
}

/// The position of every vertex, and the perimeter at the end.
pub fn positions(ring: &Ring) -> (cum: Vec<i64>)
    requires
        measurable(ring@),
        ring@.len() > 0,
    ensures
        cum@.len() == ring@.len() + 1,
        forall|i: int| 0 <= i <= ring@.len() ==> #[trigger] cum@[i] == arc(ring@, i as nat),
{
    let n: usize = ring.len();
    let mut cum: Vec<i64> = Vec::new();
    cum.push(0);
    let mut i: usize = 0;
    while i < n
        invariant
            i <= n == ring@.len(),
            measurable(ring@),
            cum@.len() == i + 1,
            forall|k: int| 0 <= k <= i ==> #[trigger] cum@[k] == arc(ring@, k as nat),
        decreases n - i,
    {
        let a = ring[i];
        let b = if i + 1 == n {
            ring[0]
        } else {
            ring[i + 1]
        };
        assert(a == ring@[i as int] && b == next(ring@, i as int));
        assert(within_reach(ring@[i as int]) && within_reach(next(ring@, i as int)));
        let len: u128 = to_span(a, b);
        proof {
            lemma_arc_grows(ring@, i as nat, i as nat);
            lemma_arc_grows(ring@, (i + 1) as nat, n as nat);
            assert(arc(ring@, (i + 1) as nat) == cum@[i as int] + len);
        }
        let at: i64 = cum[i] + len as i64;
        cum.push(at);
        i += 1;
    }
    cum
}

/// The positions of a ring, as [`positions`] gives them.
pub open spec fn is_track(cum: Seq<i64>, s: Seq<P>) -> bool {
    &&& measurable(s)
    &&& s.len() > 0
    &&& cum.len() == s.len() + 1
    &&& forall|i: int| 0 <= i <= s.len() ==> #[trigger] cum[i] == arc(s, i as nat)
}

// ---------------------------------------------------------------------------
// Points at positions
// ---------------------------------------------------------------------------

/// The point at distance `t` from `a` on an edge of length `len`, on the grid.
pub open spec fn between(a: P, b: P, t: int, len: int) -> P {
    if len <= 0 {
        a
    } else {
        P {
            x: nearest_signed(a.x * len + (b.x - a.x) * t, len) as i64,
            y: nearest_signed(a.y * len + (b.y - a.y) * t, len) as i64,
        }
    }
}

/// The first edge from `i` on that reaches a position.
pub open spec fn edge_at(s: Seq<P>, pos: int, i: nat) -> nat
    decreases s.len() - i,
{
    if i + 1 >= s.len() || pos <= arc(s, i + 1) {
        i
    } else {
        edge_at(s, pos, i + 1)
    }
}

/// The point of the ring at a position.
pub open spec fn spot(s: Seq<P>, pos: int) -> P {
    let i = edge_at(s, pos, 0);
    between(s[i as int], next(s, i as int), pos - arc(s, i), arc(s, i + 1) - arc(s, i))
}

/// A coordinate between two others.
fn mix(a: Nm, b: Nm, t: i64, len: i64) -> (r: Nm)
    requires
        -REACH_NM <= a <= REACH_NM,
        -REACH_NM <= b <= REACH_NM,
        0 <= t <= len <= MAX_ARC_PM,
        0 < len,
    ensures
        r == nearest_signed(a * len + (b - a) * t, len as int),
        a <= r <= b || b <= r <= a,
        r == nearest_signed(a * len + (b - a) * t, len as int) as i64,
{
    let ghost num = a * len + (b - a) * t;
    proof {
        let m = REACH_NM as int;
        let l = MAX_ARC_PM as int;
        assert(-(m * l) <= a * len <= m * l) by (nonlinear_arith)
            requires
                -m <= a <= m,
                0 <= len <= l,
        ;
        assert(-(2 * m * l) <= (b - a) * t <= 2 * m * l) by (nonlinear_arith)
            requires
                -m <= a <= m,
                -m <= b <= m,
                0 <= t <= l,
        ;
        assert(m * l == 0x10_0000_0000_0000_0000_0000_0000) by (nonlinear_arith)
            requires
                m == 0x100_0000_0000int,
                l == 0x1000_0000_0000_0000int,
        ;
        let lo = if a <= b { a as int } else { b as int };
        let hi = if a <= b { b as int } else { a as int };
        assert(lo * len <= num <= hi * len) by (nonlinear_arith)
            requires
                num == a * len + (b - a) * t,
                0 <= t <= len,
                (lo == a && hi == b && a <= b) || (lo == b && hi == a && b < a),
        ;
        lemma_nearest_bounds(num, len as int, lo, hi);
    }
    let whole: i128 = (a as i128) * (len as i128);
    let part: i128 = (b as i128 - a as i128) * (t as i128);
    div_round_nearest(whole + part, len as i128) as i64
}

/// The point of the ring at a position.
pub fn point_at(ring: &Ring, cum: &Vec<i64>, pos: i64) -> (p: P)
    requires
        is_track(cum@, ring@),
        0 <= pos <= whole(ring@),
    ensures
        p == spot(ring@, pos as int),
        within_reach(p),
{
    let n: usize = ring.len();
    let mut i: usize = 0;
    while i + 1 < n && pos > cum[i + 1]
        invariant
            i < n == ring@.len(),
            is_track(cum@, ring@),
            arc(ring@, i as nat) <= pos <= whole(ring@),
            edge_at(ring@, pos as int, 0) == edge_at(ring@, pos as int, i as nat),
        decreases n - i,
    {
        assert(cum@[i + 1] == arc(ring@, (i + 1) as nat));
        i += 1;
    }
    assert(cum@[i + 1] == arc(ring@, (i + 1) as nat));
    assert(cum@[i as int] == arc(ring@, i as nat));
    assert(edge_at(ring@, pos as int, i as nat) == i);
    proof {
        lemma_arc_grows(ring@, i as nat, (i + 1) as nat);
        lemma_arc_grows(ring@, (i + 1) as nat, n as nat);
        assert(pos <= cum@[i + 1]);
    }
    let a = ring[i];
    let b = if i + 1 == n {
        ring[0]
    } else {
        ring[i + 1]
    };
    assert(a == ring@[i as int] && b == next(ring@, i as int));
    assert(within_reach(ring@[i as int]) && within_reach(next(ring@, i as int)));
    let len: i64 = cum[i + 1] - cum[i];
    let t: i64 = pos - cum[i];
    if len <= 0 {
        a
    } else {
        P { x: mix(a.x, b.x, t, len), y: mix(a.y, b.y, t, len) }
    }
}

/// A position brought onto the ring.
pub fn wrap(pos: i64, total: i64) -> (r: i64)
    requires
        0 < total <= MAX_ARC_PM,
        -2 * MAX_ARC_PM <= pos <= 4 * MAX_ARC_PM,
    ensures
        r == pos as int % total as int,
        0 <= r < total,
{
    let t: u64 = total as u64;
    if pos >= 0 {
        ((pos as u64) % t) as i64
    } else {
        let m: u64 = ((-pos) as u64) % t;
        let r: i64 = if m == 0 {
            0
        } else {
            total - m as i64
        };
        proof {
            let d = total as int;
            let q = (-pos as int) / d;
            lemma_fundamental_div_mod(-pos as int, d);
            assert(d * q + m == -pos);
            if m == 0 {
                assert(d * (-q) == -(d * q)) by (nonlinear_arith);
                lemma_fundamental_div_mod_converse(pos as int, d, -q, 0);
            } else {
                assert(d * (-q - 1) == -(d * q) - d) by (nonlinear_arith);
                lemma_fundamental_div_mod_converse(pos as int, d, -q - 1, d - m);
            }
        }
        r
    }
}

// ---------------------------------------------------------------------------
// Corners
// ---------------------------------------------------------------------------

/// The way from `behind` over `at` to `ahead` turns by more than thirty
/// degrees.
pub open spec fn bends(behind: P, at: P, ahead: P) -> bool {
    let ux = at.x - behind.x;
    let uy = at.y - behind.y;
    let vx = ahead.x - at.x;
    let vy = ahead.y - at.y;
    let dot = ux * vx + uy * vy;
    let cross = ux * vy - uy * vx;
    ||| dot < 0
    ||| dot == 0 && cross != 0
    ||| dot > 0 && 3 * (cross * cross) > dot * dot
}

/// How far before and after a vertex its direction is taken: less on a ring so
/// small that the window would span it.
pub open spec fn window(s: Seq<P>) -> int {
    if CORNER_WINDOW_PM <= whole(s) / 8 {
        CORNER_WINDOW_PM as int
    } else {
        whole(s) / 8
    }
}

/// Vertex `i` is a corner. The window cancels noise far below the nanometer
/// scale of real corners.
pub open spec fn is_corner(s: Seq<P>, i: int) -> bool {
    bends(
        spot(s, (arc(s, i as nat) - window(s)) % whole(s)),
        s[i],
        spot(s, (arc(s, i as nat) + window(s)) % whole(s)),
    )
}

/// The positions of the corners among the first `n` vertices.
pub open spec fn corners_of(s: Seq<P>, n: nat) -> Seq<i64>
    decreases n,
{
    if n == 0 || window(s) <= 0 {
        Seq::empty()
    } else if is_corner(s, n - 1) {
        corners_of(s, (n - 1) as nat).push(arc(s, (n - 1) as nat) as i64)
    } else {
        corners_of(s, (n - 1) as nat)
    }
}

fn size(v: i128) -> (r: u128)
    requires
        v != i128::MIN,
    ensures
        r == if v < 0 {
            -v
        } else {
            v as int
        },
{
    if v < 0 {
        (-v) as u128
    } else {
        v as u128
    }
}

/// Whether the way over a point turns by more than thirty degrees.
fn does_bend(behind: P, at: P, ahead: P) -> (r: bool)
    requires
        within_reach(behind),
        within_reach(at),
        within_reach(ahead),
    ensures
        r == bends(behind, at, ahead),
{
    let ux: i128 = at.x as i128 - behind.x as i128;
    let uy: i128 = at.y as i128 - behind.y as i128;
    let vx: i128 = ahead.x as i128 - at.x as i128;
    let vy: i128 = ahead.y as i128 - at.y as i128;
    proof {
        lemma_step_product(ux as int, vx as int);
        lemma_step_product(uy as int, vy as int);
        lemma_step_product(ux as int, vy as int);
        lemma_step_product(uy as int, vx as int);
    }
    let dot: i128 = ux * vx + uy * vy;
    let cross: i128 = ux * vy - uy * vx;
    if dot < 0 {
        true
    } else if dot == 0 {
        cross != 0
    } else {
        let c: u128 = size(cross);
        let d: u128 = dot as u128;
        assert(c * c == cross * cross) by (nonlinear_arith)
            requires
                c == cross || c == -cross,
        ;
        assert((3 * c) * c == 3 * (c * c)) by (nonlinear_arith);
        !product_le(3 * c, c, d, d)
    }
}

proof fn lemma_step_product(a: int, b: int)
    requires
        -0x200_0000_0000 <= a <= 0x200_0000_0000,
        -0x200_0000_0000 <= b <= 0x200_0000_0000,
    ensures
        -0x4_0000_0000_0000_0000_0000 <= a * b <= 0x4_0000_0000_0000_0000_0000,
{
    assert(-0x4_0000_0000_0000_0000_0000 <= a * b <= 0x4_0000_0000_0000_0000_0000)
        by (nonlinear_arith)
        requires
            -0x200_0000_0000 <= a <= 0x200_0000_0000,
            -0x200_0000_0000 <= b <= 0x200_0000_0000,
    ;
}

/// The positions of a ring's corners.
pub fn corner_positions(ring: &Ring, cum: &Vec<i64>) -> (r: Vec<i64>)
    requires
        is_track(cum@, ring@),
    ensures
        r@ == corners_of(ring@, ring@.len()),
{
    let n: usize = ring.len();
    let total: i64 = cum[n];
    proof {
        lemma_arc_grows(ring@, 0, n as nat);
        assert(total == whole(ring@));
    }
    let eighth: i64 = total / 8;
    let win: i64 = if CORNER_WINDOW_PM <= eighth {
        CORNER_WINDOW_PM
    } else {
        eighth
    };
    assert(win == window(ring@));
    let mut r: Vec<i64> = Vec::new();
    if win <= 0 {
        assert(r@ =~= corners_of(ring@, n as nat));
        return r;
    }
    let mut i: usize = 0;
    assert(r@ =~= corners_of(ring@, 0));
    while i < n
        invariant
            i <= n == ring@.len(),
            is_track(cum@, ring@),
            total == whole(ring@),
            win == window(ring@),
            0 < win <= total,
            r@ == corners_of(ring@, i as nat),
        decreases n - i,
    {
        proof {
            lemma_arc_grows(ring@, i as nat, n as nat);
            assert(cum@[i as int] == arc(ring@, i as nat));
            assert(within_reach(ring@[i as int]));
        }
        let behind = point_at(ring, cum, wrap(cum[i] - win, total));
        let ahead = point_at(ring, cum, wrap(cum[i] + win, total));
        if does_bend(behind, ring[i], ahead) {
            r.push(cum[i]);
        }
        assert(r@ =~= corners_of(ring@, (i + 1) as nat));
        i += 1;
    }
    r
}

// ---------------------------------------------------------------------------
// Sub-arcs
// ---------------------------------------------------------------------------

/// How far ahead of a position vertex `i` lies.
pub open spec fn ahead_of(s: Seq<P>, i: int, from: int) -> int {
    (arc(s, i as nat) - from) % whole(s)
}

/// Vertex `i` lies strictly inside the arc of length `len` from a position on.
pub open spec fn passed(s: Seq<P>, i: int, from: int, len: int) -> bool {
    SLACK_PM < ahead_of(s, i, from) < len - SLACK_PM
}

/// The first vertex from `i` on at or after a position.
pub open spec fn vertex_from(s: Seq<P>, pos: int, i: nat) -> nat
    decreases s.len() - i,
{
    if i >= s.len() || pos <= arc(s, i) {
        i
    } else {
        vertex_from(s, pos, i + 1)
    }
}

/// The vertex met as number `k` on the way forward from a position.
pub open spec fn met(s: Seq<P>, from: int, k: int) -> int {
    let m = vertex_from(s, from % whole(s), 0);
    if m + k < s.len() {
        m + k
    } else {
        m + k - s.len()
    }
}

/// The vertices inside the arc among the first `n` met, in the order of
/// travel.
pub open spec fn inner_vertices(s: Seq<P>, from: int, len: int, n: nat) -> Seq<P>
    decreases n,
{
    if n == 0 {
        Seq::empty()
    } else {
        let i = met(s, from, n - 1);
        let before = inner_vertices(s, from, len, (n - 1) as nat);
        if passed(s, i, from, len) {
            before.push(s[i])
        } else {
            before
        }
    }
}

/// The open piece of the ring from one position forward to another, without
/// repeated points.
pub open spec fn piece(s: Seq<P>, from: int, to: int) -> Seq<P> {
    dedup(
        seq![spot(s, from % whole(s))] + inner_vertices(s, from, to - from, s.len()) + seq![
            spot(s, to % whole(s)),
        ],
    )
}

/// The vertices of a piece come in the order of travel.
pub proof fn pieces_run_forward(s: Seq<P>, from: int, len: int, j: int, k: int)
    requires
        whole(s) > 0,
        0 <= j <= k < s.len(),
        passed(s, met(s, from, j), from, len),
        passed(s, met(s, from, k), from, len),
        len <= whole(s),
    ensures
        ahead_of(s, met(s, from, j), from) <= ahead_of(s, met(s, from, k), from),
{
    let w = whole(s);
    let pos = from % w;
    lemma_fundamental_div_mod(from, w);
    let q = from / w;
    let m = vertex_from(s, pos, 0);
    lemma_vertex_from(s, pos, 0);
    let a = met(s, from, j);
    let b = met(s, from, k);
    lemma_arc_grows(s, a as nat, s.len());
    lemma_arc_grows(s, b as nat, s.len());
    if a <= b {
        lemma_arc_grows(s, a as nat, b as nat);
    } else {
        lemma_arc_grows(s, b as nat, a as nat);
    }
    lemma_ahead(s, a, from, pos, q, m as int);
    lemma_ahead(s, b, from, pos, q, m as int);
}

proof fn lemma_vertex_from(s: Seq<P>, pos: int, i: nat)
    requires
        i <= s.len(),
        forall|k: int| 0 <= k < i ==> #[trigger] arc(s, k as nat) < pos,
    ensures
        ({
            let m = vertex_from(s, pos, i);
            &&& i <= m <= s.len()
            &&& forall|k: int| 0 <= k < m ==> #[trigger] arc(s, k as nat) < pos
            &&& m < s.len() ==> pos <= arc(s, m)
        }),
    decreases s.len() - i,
{
    if i < s.len() && pos > arc(s, i) {
        lemma_vertex_from(s, pos, i + 1);
    }
}

/// How far ahead a vertex lies, without a remainder.
proof fn lemma_ahead(s: Seq<P>, i: int, from: int, pos: int, q: int, m: int)
    requires
        0 <= i < s.len(),
        whole(s) > 0,
        0 <= pos < whole(s),
        from == whole(s) * q + pos,
        0 <= m <= s.len(),
        forall|k: int| 0 <= k < m ==> #[trigger] arc(s, k as nat) < pos,
        m < s.len() ==> pos <= arc(s, m as nat),
    ensures
        i < m ==> ahead_of(s, i, from) == arc(s, i as nat) - pos + whole(s),
        i >= m && arc(s, i as nat) - pos < whole(s) ==> ahead_of(s, i, from) == arc(s, i as nat)
            - pos,
        i >= m && arc(s, i as nat) - pos >= whole(s) ==> ahead_of(s, i, from) == 0,
{
    let w = whole(s);
    let a = arc(s, i as nat);
    lemma_arc_grows(s, i as nat, s.len());
    assert(a - from == w * (-q) + (a - pos)) by (nonlinear_arith)
        requires
            from == w * q + pos,
    ;
    if i < m {
        assert(w * (-q) + (a - pos) == w * (-q - 1) + (a - pos + w)) by (nonlinear_arith);
        lemma_fundamental_div_mod_converse(a - from, w, -q - 1, a - pos + w);
    } else {
        lemma_arc_grows(s, m as nat, i as nat);
        if a - pos < w {
            lemma_fundamental_div_mod_converse(a - from, w, -q, a - pos);
        } else {
            assert(w * (-q) + (a - pos) == w * (-q + 1)) by (nonlinear_arith)
                requires
                    a - pos == w,
            ;
            lemma_fundamental_div_mod_converse(a - from, w, -q + 1, 0);
        }
    }
}

/// Add a point unless it repeats the last one.
fn push_unrepeated(pts: &mut Ring, p: P, Ghost(raw): Ghost<Seq<P>>)
    requires
        old(pts)@ == dedup(raw),
    ensures
        final(pts)@ == dedup(raw.push(p)),
{
    assert(raw.push(p).drop_last() =~= raw);
    let n: usize = pts.len();
    if n == 0 || pts[n - 1] != p {
        pts.push(p);
    }
}

/// The open piece of the ring from `s0` forward to `s1`, with interpolated
/// ends.
pub fn subarc(ring: &Ring, cum: &Vec<i64>, s0: i64, s1: i64) -> (pts: Ring)
    requires
        is_track(cum@, ring@),
        whole(ring@) > 0,
        -2 * MAX_ARC_PM <= s0 <= 3 * MAX_ARC_PM,
        -2 * MAX_ARC_PM <= s1 <= 3 * MAX_ARC_PM,
    ensures
        pts@ == piece(ring@, s0 as int, s1 as int),
{
    let n: usize = ring.len();
    let total: i64 = cum[n];
    let ghost w = whole(ring@);
    assert(total == w);
    let len: i64 = s1 - s0;
    let pos: i64 = wrap(s0, total);
    let first = point_at(ring, cum, pos);
    let mut pts: Ring = Vec::new();
    let ghost mut raw: Seq<P> = Seq::empty();
    push_unrepeated(&mut pts, first, Ghost(raw));
    proof {
        raw = raw.push(first);
        assert(raw =~= seq![first] + inner_vertices(ring@, s0 as int, len as int, 0));
    }
    let mut m: usize = 0;
    while m < n && cum[m] < pos
        invariant
            m <= n == ring@.len(),
            is_track(cum@, ring@),
            vertex_from(ring@, pos as int, 0) == vertex_from(ring@, pos as int, m as nat),
        decreases n - m,
    {
        assert(cum@[m as int] == arc(ring@, m as nat));
        m += 1;
    }
    assert(m < n ==> cum@[m as int] == arc(ring@, m as nat));
    assert(m == vertex_from(ring@, pos as int, 0));
    let mut k: usize = 0;
    while k < n
        invariant
            k <= n == ring@.len(),
            m <= n,
            is_track(cum@, ring@),
            0 < total == whole(ring@) == w <= MAX_ARC_PM,
            -2 * MAX_ARC_PM <= s0 <= 3 * MAX_ARC_PM,
            len == s1 - s0,
            -5 * MAX_ARC_PM <= len <= 5 * MAX_ARC_PM,
            pos == s0 as int % w,
            0 <= pos < total,
            m == vertex_from(ring@, pos as int, 0),
            raw == seq![first] + inner_vertices(ring@, s0 as int, len as int, k as nat),
            pts@ == dedup(raw),
        decreases n - k,
    {
        let i: usize = if k < n - m {
            m + k
        } else {
            k - (n - m)
        };
        assert(i == met(ring@, s0 as int, k as int));
        proof {
            lemma_arc_grows(ring@, i as nat, n as nat);
            assert(cum@[i as int] == arc(ring@, i as nat));
            lemma_fundamental_div_mod(s0 as int, w);
            lemma_same_remainder(cum@[i as int] - pos, cum@[i as int] - s0, w, s0 as int / w);
        }
        let rel: i64 = wrap(cum[i] - pos, total);
        let ghost was = raw;
        if rel > SLACK_PM && rel < len - SLACK_PM {
            push_unrepeated(&mut pts, ring[i], Ghost(raw));
            proof {
                raw = raw.push(ring@[i as int]);
            }
        }
        assert(raw =~= seq![first] + inner_vertices(
            ring@,
            s0 as int,
            len as int,
            (k + 1) as nat,
        ));
        k += 1;
    }
    let last = point_at(ring, cum, wrap(s1, total));
    push_unrepeated(&mut pts, last, Ghost(raw));
    assert(raw.push(last) =~= seq![spot(ring@, s0 as int % w)] + inner_vertices(
        ring@,
        s0 as int,
        s1 - s0,
        ring@.len(),
    ) + seq![spot(ring@, s1 as int % w)]);
    pts
}

/// Numbers that differ by a multiple have the same remainder.
pub proof fn lemma_same_remainder(a: int, b: int, w: int, q: int)
    requires
        w > 0,
        a == b + w * q,
    ensures
        a % w == b % w,
{
    lemma_fundamental_div_mod(b, w);
    assert(a == w * (b / w + q) + b % w) by (nonlinear_arith)
        requires
            a == b + w * q,
            b == w * (b / w) + b % w,
    ;
    lemma_fundamental_div_mod_converse(a, w, b / w + q, b % w);
}

/// The length of an edge in picometers is the nearest to the distance of its
/// ends.
pub proof fn edges_have_their_length(a: P, b: P)
    ensures
        ({
            let l = span(a, b);
            let d = (a.x - b.x) * (a.x - b.x) + (a.y - b.y) * (a.y - b.y);
            &&& l >= 0
            &&& 1_000_000 * d <= l * l + l
            &&& l > 0 ==> l * l - l < 1_000_000 * d
        }),
{
    assert(dist2(a, b) >= 0) by (nonlinear_arith);
    lemma_root_exists((1_000_000 * dist2(a, b)) as nat);
}

/// Positions run along the ring: each vertex lies the length of an edge after
/// the one before it, and the last edge leads back to the first vertex.
pub proof fn positions_follow_the_edges(s: Seq<P>, i: int)
    requires
        0 <= i < s.len(),
    ensures
        arc(s, 0) == 0,
        i + 1 < s.len() ==> arc(s, (i + 1) as nat) - arc(s, i as nat) == span(s[i], s[i + 1]),
        whole(s) - arc(s, (s.len() - 1) as nat) == span(s.last(), s.first()),
{
    let n = s.len();
    assert(next(s, n - 1) == s[0]);
    assert(arc(s, n) == arc(s, (n - 1) as nat) + span(s[n - 1], s[0]));
    if i + 1 < n {
        assert(next(s, i) == s[i + 1]);
    }
}

proof fn lemma_edge_found(s: Seq<P>, pos: int, i: nat, k: nat)
    requires
        i <= k < s.len(),
        forall|j: int| i < j <= k ==> #[trigger] arc(s, j as nat) < pos,
        k + 1 == s.len() || pos <= arc(s, k + 1),
    ensures
        edge_at(s, pos, i) == k,
    decreases k - i,
{
    if i < k {
        assert(arc(s, i + 1) < pos);
        lemma_edge_found(s, pos, i + 1, k);
    }
}

/// The point at a position lies on the edge that reaches it, as far along as the
/// position is, up to half a nanometer in each coordinate.
pub proof fn spots_lie_on_their_edge(s: Seq<P>, i: nat, pos: int)
    requires
        i < s.len(),
        arc(s, i) < pos <= arc(s, i + 1),
        forall|k: int| 0 <= k < s.len() ==> within_reach(#[trigger] s[k]),
    ensures
        ({
            let (a, b) = (s[i as int], next(s, i as int));
            let t = pos - arc(s, i);
            let len = arc(s, i + 1) - arc(s, i);
            let p = spot(s, pos);
            &&& -len <= 2 * (a.x * len + (b.x - a.x) * t - len * p.x) <= len
            &&& -len <= 2 * (a.y * len + (b.y - a.y) * t - len * p.y) <= len
        }),
{
    assert forall|j: int| 0 < j <= i implies #[trigger] arc(s, j as nat) < pos by {
        lemma_arc_grows(s, j as nat, i);
    }
    lemma_edge_found(s, pos, 0, i);
    let (a, b) = (s[i as int], next(s, i as int));
    assert(within_reach(s[i as int]));
    assert(within_reach(b)) by {
        if i + 1 == s.len() {
            assert(within_reach(s[0]));
        } else {
            assert(within_reach(s[(i + 1) as int]));
        }
    }
    let t = pos - arc(s, i);
    let len = arc(s, i + 1) - arc(s, i);
    lemma_mixed(a.x as int, b.x as int, t, len);
    lemma_mixed(a.y as int, b.y as int, t, len);
}

proof fn lemma_mixed(a: int, b: int, t: int, len: int)
    requires
        0 < t <= len,
        -REACH_NM <= a <= REACH_NM,
        -REACH_NM <= b <= REACH_NM,
    ensures
        ({
            let num = a * len + (b - a) * t;
            let r = nearest_signed(num, len);
            -len <= 2 * (num - len * r) <= len && r as i64 == r
        }),
{
    let num = a * len + (b - a) * t;
    let r = nearest_signed(num, len);
    nearest_is_close(num, len);
    let m = REACH_NM as int;
    assert((-m) * len <= num <= m * len) by (nonlinear_arith)
        requires
            num == a * len + (b - a) * t,
            0 < t <= len,
            -m <= a <= m,
            -m <= b <= m,
    ;
    lemma_nearest_bounds(num, len, -m, m);
}

/// The first vertex of a ring lies at the beginning.
pub proof fn rings_begin_at_their_first_vertex(s: Seq<P>)
    requires
        s.len() > 1,
        forall|k: int| 0 <= k < s.len() ==> within_reach(#[trigger] s[k]),
    ensures
        spot(s, 0) == s[0],
{
    lemma_arc_grows(s, 0, 1);
    let len = arc(s, 1);
    let a = s[0];
    assert(within_reach(s[0]));
    if len > 0 {
        let b = next(s, 0);
        assert((b.x - a.x) * 0 == 0 && (b.y - a.y) * 0 == 0);
        lemma_nearest_bounds(a.x * len, len, a.x as int, a.x as int);
        lemma_nearest_bounds(a.y * len, len, a.y as int, a.y as int);
    }
}

/// A piece of a ring begins and ends at its positions and passes exactly the
/// vertices between them, but for a slack of a nanometer at either end.
pub proof fn pieces_pass_their_vertices(s: Seq<P>, from: int, to: int)
    requires
        s.len() > 0,
        whole(s) > 0,
    ensures
        ({
            let p = piece(s, from, to);
            &&& p.len() > 0
            &&& p.first() == spot(s, from % whole(s))
            &&& p.last() == spot(s, to % whole(s))
            &&& forall|i: int|
                0 <= i < s.len() && 1_000 < (arc(s, i as nat) - from) % whole(s) < to - from - 1_000
                    ==> p.contains(#[trigger] s[i])
            &&& forall|q: P| #[trigger]
                p.contains(q) ==> q == p.first() || q == p.last() || exists|i: int|
                    0 <= i < s.len() && 1_000 < (arc(s, i as nat) - from) % whole(s) < to - from
                        - 1_000 && #[trigger] s[i] == q
        }),
{
    let w = whole(s);
    let first = spot(s, from % w);
    let last = spot(s, to % w);
    let inner = inner_vertices(s, from, to - from, s.len());
    let raw = seq![first] + inner + seq![last];
    dropping_repetitions_keeps_the_points(raw);
    let p = piece(s, from, to);
    assert(raw.first() == first && raw.last() == last);
    assert forall|i: int|
        0 <= i < s.len() && 1_000 < (arc(s, i as nat) - from) % w < to - from
            - 1_000 implies p.contains(#[trigger] s[i]) by {
        let k = lemma_vertex_met(s, from, i);
        let j = lemma_inner_has(s, from, to - from, s.len(), k);
        assert(raw[1 + j] == s[i]);
        assert(raw.contains(s[i]));
    }
    assert forall|q: P| #[trigger] p.contains(q) implies q == p.first() || q == p.last()
        || exists|i: int|
        0 <= i < s.len() && 1_000 < (arc(s, i as nat) - from) % w < to - from - 1_000
            && #[trigger] s[i] == q by {
        assert(raw.contains(q));
        let j = choose|j: int| 0 <= j < raw.len() && raw[j] == q;
        if 0 < j < raw.len() - 1 {
            assert(inner[j - 1] == q);
            let i = lemma_inner_from(s, from, to - from, s.len(), j - 1);
            assert(s[i] == q);
        }
    }
}

/// Every vertex is met once on the way round.
proof fn lemma_vertex_met(s: Seq<P>, from: int, i: int) -> (k: int)
    requires
        0 <= i < s.len(),
        whole(s) > 0,
    ensures
        0 <= k < s.len(),
        met(s, from, k) == i,
{
    let m = vertex_from(s, from % whole(s), 0);
    lemma_vertex_from(s, from % whole(s), 0);
    if i >= m {
        i - m
    } else {
        i - m + s.len()
    }
}

proof fn lemma_inner_has(s: Seq<P>, from: int, len: int, n: nat, k: int) -> (j: int)
    requires
        0 <= k < n,
        passed(s, met(s, from, k), from, len),
    ensures
        0 <= j < inner_vertices(s, from, len, n).len(),
        inner_vertices(s, from, len, n)[j] == s[met(s, from, k)],
    decreases n,
{
    let before = inner_vertices(s, from, len, (n - 1) as nat);
    if k < n - 1 {
        lemma_inner_has(s, from, len, (n - 1) as nat, k)
    } else {
        before.len() as int
    }
}

proof fn lemma_inner_from(s: Seq<P>, from: int, len: int, n: nat, j: int) -> (i: int)
    requires
        whole(s) > 0,
        n <= s.len(),
        0 <= j < inner_vertices(s, from, len, n).len(),
    ensures
        0 <= i < s.len(),
        passed(s, i, from, len),
        inner_vertices(s, from, len, n)[j] == s[i],
    decreases n,
{
    lemma_vertex_from(s, from % whole(s), 0);
    let before = inner_vertices(s, from, len, (n - 1) as nat);
    if j < before.len() {
        lemma_inner_from(s, from, len, (n - 1) as nat, j)
    } else {
        met(s, from, n - 1)
    }
}

/// The corners of a ring are its vertices where the way turns by more than thirty
/// degrees, looked at over the window behind and ahead: one position for each,
/// in ring order.
pub proof fn corners_are_the_sharp_vertices(s: Seq<P>)
    requires
        whole(s) >= 8,
    ensures
        corners_of(s, s.len()) == Seq::new(s.len(), |i: int| i).filter(
            |i: int|
                {
                    let win = if 8 * 40_000_000 <= whole(s) {
                        40_000_000
                    } else {
                        whole(s) / 8
                    };
                    bends(
                        spot(s, (arc(s, i as nat) - win) % whole(s)),
                        s[i],
                        spot(s, (arc(s, i as nat) + win) % whole(s)),
                    )
                },
        ).map_values(|i: int| arc(s, i as nat) as i64),
{
    lemma_sharp_vertices(s, s.len());
}

proof fn lemma_sharp_vertices(s: Seq<P>, n: nat)
    requires
        whole(s) >= 8,
    ensures
        corners_of(s, n) == Seq::new(n, |i: int| i).filter(
            |i: int|
                {
                    let win = if 8 * 40_000_000 <= whole(s) {
                        40_000_000
                    } else {
                        whole(s) / 8
                    };
                    bends(
                        spot(s, (arc(s, i as nat) - win) % whole(s)),
                        s[i],
                        spot(s, (arc(s, i as nat) + win) % whole(s)),
                    )
                },
        ).map_values(|i: int| arc(s, i as nat) as i64),
    decreases n,
{
    reveal(Seq::filter);
    let sharp = |i: int|
        {
            let win = if 8 * 40_000_000 <= whole(s) {
                40_000_000
            } else {
                whole(s) / 8
            };
            bends(
                spot(s, (arc(s, i as nat) - win) % whole(s)),
                s[i],
                spot(s, (arc(s, i as nat) + win) % whole(s)),
            )
        };
    let at = |i: int| arc(s, i as nat) as i64;
    let all = Seq::new(n, |i: int| i);
    if n > 0 {
        lemma_sharp_vertices(s, (n - 1) as nat);
        let head = Seq::new((n - 1) as nat, |i: int| i);
        assert(all.drop_last() =~= head);
        assert(all.last() == n - 1);
        assert(sharp(n - 1) == is_corner(s, n - 1));
        assert(head.filter(sharp).push(n - 1).map_values(at) =~= head.filter(sharp).map_values(
            at,
        ).push(at(n - 1)));
    } else {
        assert(all.filter(sharp).map_values(at) =~= corners_of(s, n));
    }
}

/// A turn bends the same way however it is taken: straight on never bends, back
/// never does not, and the way back bends where the way there does.
pub proof fn bends_are_about_angles(behind: P, at: P, ahead: P)
    ensures
        bends(behind, at, ahead) == bends(ahead, at, behind),
        behind == at ==> !bends(behind, at, ahead),
        ({
            let (ux, uy) = (at.x - behind.x, at.y - behind.y);
            let (vx, vy) = (ahead.x - at.x, ahead.y - at.y);
            // Along the x axis the turn is thirty degrees where three times the
            // square of the rise is the square of the run.
            &&& uy == 0 && ux > 0 && vx > 0 ==> bends(behind, at, ahead) == (3 * (vy * vy) > vx
                * vx)
            &&& uy == 0 && ux > 0 && vx < 0 ==> bends(behind, at, ahead)
            &&& uy == 0 && ux > 0 && vx == 0 ==> bends(behind, at, ahead) == (vy != 0)
        }),
{
    let (ux, uy) = (at.x - behind.x, at.y - behind.y);
    let (vx, vy) = (ahead.x - at.x, ahead.y - at.y);
    let dot = ux * vx + uy * vy;
    let cross = ux * vy - uy * vx;
    let back = (-vx) * (-ux) + (-vy) * (-uy);
    let turn = (-vx) * (-uy) - (-vy) * (-ux);
    assert(back == dot && turn == -cross) by (nonlinear_arith)
        requires
            dot == ux * vx + uy * vy,
            cross == ux * vy - uy * vx,
            back == (-vx) * (-ux) + (-vy) * (-uy),
            turn == (-vx) * (-uy) - (-vy) * (-ux),
    ;
    assert(turn * turn == cross * cross) by (nonlinear_arith)
        requires
            turn == -cross,
    ;
    assert(at.x - ahead.x == -vx && at.y - ahead.y == -vy && behind.x - at.x == -ux && behind.y
        - at.y == -uy);
    if behind == at {
        assert(dot == 0 && cross == 0) by (nonlinear_arith)
            requires
                ux == 0,
                uy == 0,
                dot == ux * vx + uy * vy,
                cross == ux * vy - uy * vx,
        ;
    }
    if uy == 0 && ux > 0 {
        assert(dot == ux * vx && cross == ux * vy) by (nonlinear_arith)
            requires
                uy == 0,
                dot == ux * vx + uy * vy,
                cross == ux * vy - uy * vx,
        ;
        if vx > 0 {
            assert(dot > 0) by (nonlinear_arith)
                requires
                    dot == ux * vx,
                    ux > 0,
                    vx > 0,
            ;
            let k = ux * ux;
            assert(k > 0) by (nonlinear_arith)
                requires
                    ux > 0,
                    k == ux * ux,
            ;
            assert(cross * cross == k * (vy * vy) && dot * dot == k * (vx * vx)) by (nonlinear_arith)
                requires
                    dot == ux * vx,
                    cross == ux * vy,
                    k == ux * ux,
            ;
            let (m, n) = (vy * vy, vx * vx);
            assert((3 * (k * m) > k * n) == (3 * m > n)) by (nonlinear_arith)
                requires
                    k > 0,
            ;
        } else if vx < 0 {
            assert(dot < 0) by (nonlinear_arith)
                requires
                    dot == ux * vx,
                    ux > 0,
                    vx < 0,
            ;
        } else {
            assert(dot == 0 && (cross != 0) == (vy != 0)) by (nonlinear_arith)
                requires
                    dot == ux * vx,
                    cross == ux * vy,
                    ux > 0,
                    vx == 0,
            ;
        }
    }
}

} // verus!
