//! The integer side of ring offsetting.
//!
//! The offset curves themselves come from a floating-point library. What is
//! decided and rearranged around them is exact: the canonical direction of a
//! ring, where an attempt starts, which attempt of the retry ladder wins, and
//! how the winning loops rejoin the region.
use vstd::prelude::*;
use crate::geom::{area_fits, doubled_area, next, reversal_negates_area, ring_doubled_area};
use crate::model::{clone_ring, lemma_ring_view, Poly, PolyV, Ring, P};

verus! {

broadcast use lemma_ring_view;

/// The ring walked backwards.
pub fn reversed(ring: &Ring) -> (r: Ring)
    ensures
        r@ == ring@.reverse(),
{
    let mut r: Ring = Vec::new();
    let n: usize = ring.len();
    let mut i: usize = 0;
    while i < n
        invariant
            n == ring.len(),
            i <= n,
            r@ =~= ring@.reverse().take(i as int),
        decreases n - i,
    {
        r.push(ring[n - 1 - i]);
        i += 1;
    }
    assert(r@ =~= ring@.reverse());
    r
}

/// A ring turned so that it does not run clockwise, and whether it ran
/// counter-clockwise to begin with.
pub fn canonical_ring(ring: &Ring) -> (r: (bool, Ring))
    requires
        area_fits(ring@),
    ensures
        r.0 == (doubled_area(ring@) > 0),
        r.1@ == if r.0 {
            ring@
        } else {
            ring@.reverse()
        },
        doubled_area(r.1@) >= 0,
{
    let ccw = ring_doubled_area(ring) > 0;
    proof {
        reversal_negates_area(ring@);
    }
    if ccw {
        (ccw, clone_ring(ring))
    } else {
        (ccw, reversed(ring))
    }
}

/// Consecutive repetitions dropped.
pub open spec fn dedup(s: Seq<P>) -> Seq<P>
    decreases s.len(),
{
    if s.len() == 0 {
        s
    } else {
        let before = dedup(s.drop_last());
        if before.len() > 0 && before.last() == s.last() {
            before
        } else {
            before.push(s.last())
        }
    }
}

/// Trailing repetitions of the first vertex dropped: the ring's closure is
/// implicit.
pub open spec fn unclosed(s: Seq<P>) -> Seq<P>
    decreases s.len(),
{
    if s.len() > 1 && s.first() == s.last() {
        unclosed(s.drop_last())
    } else {
        s
    }
}

/// An implicitly closed contour from the rounded vertices of a flattened
/// curve; none if fewer than three distinct consecutive vertices are left.
pub fn clean_contour(pts: &Ring) -> (r: Option<Ring>)
    ensures
        r is Some <==> unclosed(dedup(pts@)).len() >= 3,
        r matches Some(c) ==> c@ == unclosed(dedup(pts@)),
{
    let mut contour: Ring = Vec::new();
    let mut i: usize = 0;
    while i < pts.len()
        invariant
            i <= pts.len(),
            contour@ == dedup(pts@.take(i as int)),
        decreases pts.len() - i,
    {
        assert(pts@.take(i + 1).drop_last() =~= pts@.take(i as int));
        let q = pts[i];
        if contour.len() == 0 || contour[contour.len() - 1] != q {
            contour.push(q);
        }
        i += 1;
    }
    assert(pts@.take(i as int) =~= pts@);
    while contour.len() > 1 && contour[0] == contour[contour.len() - 1]
        invariant
            unclosed(contour@) == unclosed(dedup(pts@)),
        decreases contour.len(),
    {
        let ghost before = contour@;
        contour.pop();
        assert(contour@ =~= before.drop_last());
    }
    if contour.len() >= 3 {
        Some(contour)
    } else {
        None
    }
}

proof fn lemma_dedup_steps(s: Seq<P>)
    ensures
        forall|i: int|
            #![trigger dedup(s)[i]]
            0 <= i < dedup(s).len() - 1 ==> dedup(s)[i] != dedup(s)[i + 1],
    decreases s.len(),
{
    if s.len() > 0 {
        lemma_dedup_steps(s.drop_last());
        let before = dedup(s.drop_last());
        let d = dedup(s);
        assert forall|i: int| #![trigger d[i]] 0 <= i < d.len() - 1 implies d[i] != d[i + 1] by {
            assert(before[i] == d[i]);
            if i + 1 < before.len() {
                assert(before[i + 1] == d[i + 1]);
            }
        }
    }
}

proof fn lemma_unclosed_prefix(s: Seq<P>)
    ensures
        unclosed(s).len() <= s.len(),
        unclosed(s) == s.take(unclosed(s).len() as int),
        unclosed(s).len() > 1 ==> unclosed(s).first() != unclosed(s).last(),
    decreases s.len(),
{
    if s.len() > 1 && s.first() == s.last() {
        lemma_unclosed_prefix(s.drop_last());
        let n = unclosed(s).len() as int;
        assert(s.drop_last().take(n) =~= s.take(n));
    } else {
        assert(s.take(s.len() as int) =~= s);
    }
}

/// A cleaned contour of three vertices or more never repeats a vertex next to
/// itself, not even around its closing edge.
pub proof fn clean_contour_has_no_zero_edge(s: Seq<P>)
    requires
        unclosed(dedup(s)).len() >= 3,
    ensures
        forall|i: int|
            #![trigger unclosed(dedup(s))[i]]
            0 <= i < unclosed(dedup(s)).len() ==> unclosed(dedup(s))[i] != next(
                unclosed(dedup(s)),
                i,
            ),
{
    lemma_dedup_steps(s);
    lemma_unclosed_prefix(dedup(s));
    let d = dedup(s);
    let c = unclosed(d);
    assert forall|i: int| #![trigger c[i]] 0 <= i < c.len() implies c[i] != next(c, i) by {
        if i + 1 < c.len() {
            assert(c[i] == d[i] && c[i + 1] == d[i + 1]);
        }
    }
}

/// Squared length of the edge that leaves vertex `i`.
pub open spec fn edge_len2(s: Seq<P>, i: int) -> int {
    let a = s[i];
    let b = next(s, i);
    (b.x - a.x) * (b.x - a.x) + (b.y - a.y) * (b.y - a.y)
}

/// Both components of every edge fit a coordinate and its negation.
pub open spec fn edges_fit(s: Seq<P>) -> bool {
    forall|i: int|
        #![trigger s[i]]
        0 <= i < s.len() ==> {
            &&& -i64::MAX <= next(s, i).x - s[i].x <= i64::MAX
            &&& -i64::MAX <= next(s, i).y - s[i].y <= i64::MAX
        }
}

/// Edge `i` comes before edge `j`: it is longer, or equally long and earlier.
pub open spec fn longer(s: Seq<P>, i: int, j: int) -> bool {
    edge_len2(s, i) > edge_len2(s, j) || (edge_len2(s, i) == edge_len2(s, j) && i < j)
}

fn edge_length2(ring: &Ring, i: usize) -> (len2: i128)
    requires
        i < ring@.len(),
        edges_fit(ring@),
    ensures
        len2 == edge_len2(ring@, i as int),
{
    let n: usize = ring.len();
    let a = ring[i];
    let b = if i + 1 == n {
        ring[0]
    } else {
        ring[i + 1]
    };
    assert(a == ring@[i as int]);
    let dx: i128 = b.x as i128 - a.x as i128;
    let dy: i128 = b.y as i128 - a.y as i128;
    proof {
        assert(0 <= dx * dx <= i64::MAX * i64::MAX) by (nonlinear_arith)
            requires
                -i64::MAX <= dx <= i64::MAX,
        ;
        assert(0 <= dy * dy <= i64::MAX * i64::MAX) by (nonlinear_arith)
            requires
                -i64::MAX <= dy <= i64::MAX,
        ;
    }
    dx * dx + dy * dy
}

/// The vertices that start the `n` longest edges of `ring`, longest first,
/// equal ones in ring order. An attempt that starts inside a dense fan of
/// short chords tends to fail, so attempts begin on long edges.
pub fn longest_edge_starts(ring: &Ring, n: usize) -> (starts: Vec<usize>)
    requires
        edges_fit(ring@),
    ensures
        starts@.len() == if n < ring@.len() {
            n as int
        } else {
            ring@.len() as int
        },
        forall|i: int| 0 <= i < starts@.len() ==> (#[trigger] starts@[i]) < ring@.len(),
        forall|i: int, j: int|
            0 <= i < j < starts@.len() ==> longer(
                ring@,
                #[trigger] starts@[i] as int,
                #[trigger] starts@[j] as int,
            ),
        forall|i: int, k: usize|
            #![trigger starts@[i], starts@.contains(k)]
            0 <= i < starts@.len() && k < ring@.len() && !starts@.contains(k) ==> longer(
                ring@,
                starts@[i] as int,
                k as int,
            ),
{
    let mut starts: Vec<usize> = Vec::new();
    while starts.len() < n && starts.len() < ring.len()
        invariant
            edges_fit(ring@),
            starts@.len() <= n,
            starts@.len() <= ring@.len(),
            forall|i: int| 0 <= i < starts@.len() ==> (#[trigger] starts@[i]) < ring@.len(),
            forall|i: int, j: int|
                0 <= i < j < starts@.len() ==> longer(
                    ring@,
                    #[trigger] starts@[i] as int,
                    #[trigger] starts@[j] as int,
                ),
            forall|i: int, k: usize|
                #![trigger starts@[i], starts@.contains(k)]
                0 <= i < starts@.len() && k < ring@.len() && !starts@.contains(k) ==> longer(
                    ring@,
                    starts@[i] as int,
                    k as int,
                ),
        decreases n - starts.len(),
    {
        let ghost taken = starts@;
        let m: usize = starts.len();
        let mut best: Option<usize> = None;
        let mut i: usize = 0;
        while i < ring.len()
            invariant
                edges_fit(ring@),
                i <= ring.len(),
                m == starts.len(),
                starts@ == taken,
                forall|j: int| 0 <= j < taken.len() ==> (#[trigger] taken[j]) < ring@.len(),
                best matches Some(b) ==> b < i && !taken.contains(b),
                forall|k: usize|
                    #![trigger taken.contains(k)]
                    k < i && !taken.contains(k) ==> best is Some && (best->0 == k || longer(
                        ring@,
                        best->0 as int,
                        k as int,
                    )),
            decreases ring.len() - i,
        {
            let mut used = false;
            let mut j: usize = 0;
            while j < m
                invariant
                    m == starts.len(),
                    starts@ == taken,
                    j <= m,
                    used <==> exists|t: int| 0 <= t < j && taken[t] == i,
                decreases m - j,
            {
                if starts[j] == i {
                    used = true;
                }
                j += 1;
            }
            assert(used <==> taken.contains(i));
            if !used {
                match best {
                    None => {
                        best = Some(i);
                    },
                    Some(b) => {
                        if edge_length2(ring, i) > edge_length2(ring, b) {
                            best = Some(i);
                        }
                    },
                }
            }
            i += 1;
        }
        proof {
            if best is None {
                lemma_all_taken(taken, ring@.len());
            }
        }
        match best {
            Some(b) => {
                starts.push(b);
                proof {
                    assert(starts@.last() == b);
                    assert forall|i: int, k: usize|
                        #![trigger starts@[i], starts@.contains(k)]
                        0 <= i < starts@.len() && k < ring@.len() && !starts@.contains(
                            k,
                        ) implies longer(ring@, starts@[i] as int, k as int) by {
                        assert(!taken.contains(k)) by {
                            if taken.contains(k) {
                                let t = taken.index_of(k);
                                assert(starts@[t] == k);
                            }
                        }
                        if i < taken.len() {
                            assert(taken[i] == starts@[i]);
                        } else {
                            assert(k != b) by {
                                assert(starts@[taken.len() as int] == b);
                            }
                        }
                    }
                    assert forall|i: int, j: int|
                        0 <= i < j < starts@.len() implies longer(
                        ring@,
                        #[trigger] starts@[i] as int,
                        #[trigger] starts@[j] as int,
                    ) by {
                        if j == taken.len() {
                            assert(taken[i] == starts@[i]);
                            assert(!taken.contains(b));
                        }
                    }
                }
            },
            None => {
                return starts;
            },
        }
    }
    starts
}

/// Fewer picks than vertices leave a vertex unpicked.
proof fn lemma_all_taken(taken: Seq<usize>, n: nat)
    requires
        n <= usize::MAX,
        forall|k: usize| k < n ==> #[trigger] taken.contains(k),
    ensures
        taken.len() >= n,
{
    let all = Seq::new(n, |k: int| k as usize);
    assert(all.no_duplicates());
    all.unique_seq_to_set();
    assert(all.to_set().subset_of(taken.to_set())) by {
        assert forall|v: usize| all.to_set().contains(v) implies taken.to_set().contains(v) by {
            let i = choose|i: int| 0 <= i < all.len() && all[i] == v;
            assert(taken.contains(i as usize));
        }
    }
    taken.lemma_cardinality_of_set();
    vstd::set_lib::lemma_len_subset(all.to_set(), taken.to_set());
}

/// How many of the longest edges an offset is attempted from.
pub const RETRY_ROTATIONS: usize = 3;

/// How many overshoot-and-return attempts follow the rotations.
pub const OVERSHOOT_ATTEMPTS: usize = 2;

/// What came of one offset attempt: whether it produced no loop at all, and
/// whether its area agrees with the reference within the artifact budget.
#[derive(Debug, Clone, Copy, PartialEq, Eq, Structural)]
pub struct Attempt {
    pub empty: bool,
    pub matches: bool,
}

/// What to do next on the retry ladder of one ring.
#[derive(Debug, Clone, Copy, PartialEq, Eq, Structural)]
pub enum LadderStep {
    /// Offset the ring rotated to start at this vertex.
    FromVertex(usize),
    /// Overshoot by the factor of this index, then offset back.
    Overshoot(usize),
    /// The last attempt is the result.
    Accept,
    /// The ring collapsed: the result is empty.
    Collapse,
    /// No attempt is trustworthy: the result is the winding reference.
    Reference,
}

pub open spec fn all_empty(attempts: Seq<Attempt>) -> bool {
    forall|i: int| 0 <= i < attempts.len() ==> (#[trigger] attempts[i]).empty
}

/// The rung after a list of attempts: an agreeing attempt is taken at once;
/// else the longest edges are tried in turn, then the overshoots; when every
/// attempt failed, a ring that may have collapsed and never left a loop is
/// gone, and any other falls back to the reference.
pub open spec fn ladder(
    starts: Seq<usize>,
    attempts: Seq<Attempt>,
    collapse_plausible: bool,
) -> LadderStep {
    if attempts.len() > 0 && attempts.last().matches {
        LadderStep::Accept
    } else if attempts.len() < starts.len() {
        LadderStep::FromVertex(starts[attempts.len() as int])
    } else if attempts.len() < starts.len() + OVERSHOOT_ATTEMPTS {
        LadderStep::Overshoot((attempts.len() - starts.len()) as usize)
    } else if all_empty(attempts) && collapse_plausible {
        LadderStep::Collapse
    } else {
        LadderStep::Reference
    }
}

/// Decide the next rung of the retry ladder from the attempts made so far.
pub fn ladder_step(
    starts: &Vec<usize>,
    attempts: &Vec<Attempt>,
    collapse_plausible: bool,
) -> (step: LadderStep)
    ensures
        step == ladder(starts@, attempts@, collapse_plausible),
{
    let n: usize = attempts.len();
    if n > 0 && attempts[n - 1].matches {
        return LadderStep::Accept;
    }
    if n < starts.len() {
        return LadderStep::FromVertex(starts[n]);
    }
    if n - starts.len() < OVERSHOOT_ATTEMPTS {
        return LadderStep::Overshoot(n - starts.len());
    }
    let mut empty = true;
    let mut i: usize = 0;
    while i < n
        invariant
            n == attempts.len(),
            i <= n,
            empty <==> all_empty(attempts@.take(i as int)),
        decreases n - i,
    {
        proof {
            assert(attempts@.take(i + 1).take(i as int) =~= attempts@.take(i as int));
            assert(forall|k: int| 0 <= k < i ==> attempts@.take(i + 1)[k] == attempts@.take(i as int)[k]);
            assert(attempts@.take(i + 1)[i as int] == attempts@[i as int]);
        }
        if !attempts[i].empty {
            empty = false;
        }
        i += 1;
    }
    assert(attempts@.take(i as int) =~= attempts@);
    if empty && collapse_plausible {
        LadderStep::Collapse
    } else {
        LadderStep::Reference
    }
}

/// The ladder ends: after every rotation and overshoot it gives a verdict, and
/// an attempt is accepted exactly when it agrees with the reference.
pub proof fn ladder_terminates(
    starts: Seq<usize>,
    attempts: Seq<Attempt>,
    collapse_plausible: bool,
)
    requires
        attempts.len() >= starts.len() + OVERSHOOT_ATTEMPTS,
    ensures
        ladder(starts, attempts, collapse_plausible) == LadderStep::Accept
            <==> attempts.last().matches,
        !(ladder(starts, attempts, collapse_plausible) is FromVertex),
        !(ladder(starts, attempts, collapse_plausible) is Overshoot),
{
}

/// Loops turned back to the direction of the ring they came from.
pub open spec fn turned(loops: Seq<Seq<P>>, ccw: bool) -> Seq<Seq<P>> {
    if ccw {
        loops
    } else {
        loops.map_values(|l: Seq<P>| l.reverse())
    }
}

/// Append the loops of an accepted attempt, turned so that they contribute
/// the winding sign of the ring they came from.
pub fn emit_loops(loops: &Vec<Ring>, ccw: bool, out: &mut Vec<Ring>)
    ensures
        final(out).deep_view() == old(out).deep_view() + turned(loops.deep_view(), ccw),
{
    let ghost start = out.deep_view();
    let ghost all = turned(loops.deep_view(), ccw);
    let mut i: usize = 0;
    assert(out.deep_view() =~= start + all.take(0));
    while i < loops.len()
        invariant
            i <= loops.len(),
            all == turned(loops.deep_view(), ccw),
            out.deep_view() == start + all.take(i as int),
        decreases loops.len() - i,
    {
        let ghost before = out.deep_view();
        let l = if ccw {
            clone_ring(&loops[i])
        } else {
            reversed(&loops[i])
        };
        assert(l@ == all[i as int]);
        out.push(l);
        assert(out.deep_view() =~= before.push(all[i as int]));
        assert(out.deep_view() =~= start + all.take(i + 1));
        i += 1;
    }
    assert(all.take(i as int) =~= all);
}

/// Every ring of a region, polygon by polygon, the outer ring first.
pub open spec fn rings_of(polys: Seq<PolyV>) -> Seq<Seq<P>>
    decreases polys.len(),
{
    if polys.len() == 0 {
        Seq::empty()
    } else {
        rings_of(polys.drop_last()).push(polys.last().outer) + polys.last().holes
    }
}

/// Append the rings of the winding reference, turned like [`emit_loops`].
pub fn emit_reference(polys: &Vec<Poly>, ccw: bool, out: &mut Vec<Ring>)
    ensures
        final(out).deep_view() == old(out).deep_view() + turned(rings_of(polys.deep_view()), ccw),
{
    let ghost start = out.deep_view();
    let ghost pv = polys.deep_view();
    let mut i: usize = 0;
    assert(out.deep_view() =~= start + turned(rings_of(pv.take(0)), ccw));
    while i < polys.len()
        invariant
            i <= polys.len(),
            pv == polys.deep_view(),
            out.deep_view() == start + turned(rings_of(pv.take(i as int)), ccw),
        decreases polys.len() - i,
    {
        let ghost before = out.deep_view();
        let p = &polys[i];
        assert(pv.take(i + 1).drop_last() =~= pv.take(i as int));
        let outer = if ccw {
            clone_ring(&p.outer)
        } else {
            reversed(&p.outer)
        };
        let ghost o = outer@;
        out.push(outer);
        assert(out.deep_view() =~= before.push(o));
        emit_loops(&p.holes, ccw, out);
        assert(out.deep_view() =~= start + turned(rings_of(pv.take(i + 1)), ccw));
        i += 1;
    }
    assert(pv.take(i as int) =~= pv);
}

/// The rings of a region, taken from its polygons one after the other: the outer
/// ring of each, then its holes.
pub proof fn rings_come_polygon_by_polygon(polys: Seq<PolyV>)
    ensures
        rings_of(polys) == polys.map_values(|p: PolyV| seq![p.outer] + p.holes).flatten_alt(),
    decreases polys.len(),
{
    let own = |p: PolyV| seq![p.outer] + p.holes;
    if polys.len() > 0 {
        rings_come_polygon_by_polygon(polys.drop_last());
        assert(polys.map_values(own).drop_last() =~= polys.drop_last().map_values(own));
        let before = rings_of(polys.drop_last());
        let p = polys.last();
        assert(before.push(p.outer) + p.holes =~= before + (seq![p.outer] + p.holes));
    }
}

/// Dropping repetitions keeps the first and the last point and every point in
/// between, adds none, and leaves no point next to itself.
pub proof fn dropping_repetitions_keeps_the_points(s: Seq<P>)
    ensures
        s.len() > 0 ==> dedup(s).len() > 0 && dedup(s).first() == s.first() && dedup(s).last()
            == s.last(),
        forall|p: P| dedup(s).contains(p) <==> #[trigger] s.contains(p),
        forall|i: int|
            #![trigger dedup(s)[i]]
            0 <= i < dedup(s).len() - 1 ==> dedup(s)[i] != dedup(s)[i + 1],
    decreases s.len(),
{
    lemma_dedup_steps(s);
    if s.len() > 0 {
        let r = s.drop_last();
        dropping_repetitions_keeps_the_points(r);
        let before = dedup(r);
        let d = dedup(s);
        assert forall|p: P| d.contains(p) <==> #[trigger] s.contains(p) by {
            if d.contains(p) {
                let k = choose|k: int| 0 <= k < d.len() && d[k] == p;
                if k < before.len() {
                    assert(before[k] == p);
                    assert(r.contains(p));
                    let j = choose|j: int| 0 <= j < r.len() && r[j] == p;
                    assert(s[j] == p);
                } else {
                    assert(s[s.len() - 1] == p);
                }
            }
            if s.contains(p) {
                let j = choose|j: int| 0 <= j < s.len() && s[j] == p;
                if j < r.len() {
                    assert(r[j] == p);
                    assert(r.contains(p));
                    assert(before.contains(p));
                    let k = choose|k: int| 0 <= k < before.len() && before[k] == p;
                    assert(d[k] == p);
                } else {
                    assert(d[d.len() - 1] == p);
                }
            }
        }
    } else {
        assert(dedup(s) =~= s);
    }
}

/// As long as no attempt agrees, every start is tried in turn, then two
/// overshoots. After that a ring is given up only if it may have collapsed and no
/// attempt left a loop.
pub proof fn ladder_tries_everything(
    starts: Seq<usize>,
    attempts: Seq<Attempt>,
    collapse_plausible: bool,
)
    requires
        starts.len() + 2 <= usize::MAX,
        forall|i: int| 0 <= i < attempts.len() ==> !(#[trigger] attempts[i]).matches,
    ensures
        ({
            let step = ladder(starts, attempts, collapse_plausible);
            let n = attempts.len() as int;
            let m = starts.len() as int;
            &&& n < m ==> step == LadderStep::FromVertex(starts[n])
            &&& n == m ==> step == LadderStep::Overshoot(0)
            &&& n == m + 1 ==> step == LadderStep::Overshoot(1)
            &&& n >= m + 2 ==> (step == LadderStep::Collapse <==> collapse_plausible && forall|i: int|
                0 <= i < n ==> (#[trigger] attempts[i]).empty)
            &&& n >= m + 2 && step != LadderStep::Collapse ==> step == LadderStep::Reference
        }),
{
}

/// The longer of two edges comes first, and of equally long ones the earlier.
pub proof fn long_edges_come_first(s: Seq<P>, i: int, j: int)
    requires
        0 <= i < s.len() - 1,
        0 <= j < s.len() - 1,
    ensures
        ({
            let (a, b, c, d) = (s[i], s[i + 1], s[j], s[j + 1]);
            let p = (a.x - b.x) * (a.x - b.x) + (a.y - b.y) * (a.y - b.y);
            let q = (c.x - d.x) * (c.x - d.x) + (c.y - d.y) * (c.y - d.y);
            longer(s, i, j) <==> p > q || (p == q && i < j)
        }),
{
    let (a, b, c, d) = (s[i], s[i + 1], s[j], s[j + 1]);
    lemma_same_square(a.x - b.x);
    lemma_same_square(a.y - b.y);
    lemma_same_square(c.x - d.x);
    lemma_same_square(c.y - d.y);
}

proof fn lemma_same_square(v: int)
    ensures
        (-v) * (-v) == v * v,
{
    assert((-v) * (-v) == v * v) by (nonlinear_arith);
}

/// Loops keep their points, and run the other way exactly if the ring they came
/// from ran clockwise.
pub proof fn loops_run_as_their_ring(loops: Seq<Seq<P>>, ccw: bool, k: int)
    requires
        0 <= k < loops.len(),
    ensures
        turned(loops, ccw).len() == loops.len(),
        ccw ==> turned(loops, ccw)[k] == loops[k],
        !ccw ==> turned(loops, ccw)[k] == loops[k].reverse(),
{
}

} // verus!
