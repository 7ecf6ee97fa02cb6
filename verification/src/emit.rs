//! How a job comes into the workspace: mirrored for the back side, its corner
//! brought to the origin, and placed where it is wanted.
use vstd::prelude::*;
use crate::bounds::{around, hull_from, polys_hull, polys_hull_from, rings_hull_from, Bounds};
use crate::flip::{maps_poly, maps_ring, mirror_job, mirrored_poly, mirrored_ring, MirrorAxis};
use crate::frame::{
    anchor_of, at_origin, moved_poly, moved_polys, moved_ring, moves, normalize_frame,
    place_frame, place_on, placed, places, poly_moves, polys_move, ring_moves, upright,
};
use crate::model::{lemma_ring_view, Nm, Poly, PolyV, P};

verus! {

broadcast use lemma_ring_view;

/// Magnitude of the coordinates of jobs and of the points they are placed at.
pub const WORKSPACE_NM: Nm = 0x0800_0000_0000_0000;

pub open spec fn point_within(p: P, m: int) -> bool {
    -m <= p.x <= m && -m <= p.y <= m
}

pub open spec fn ring_within(s: Seq<P>, m: int) -> bool {
    forall|i: int| 0 <= i < s.len() ==> point_within(#[trigger] s[i], m)
}

pub open spec fn poly_within(p: PolyV, m: int) -> bool {
    &&& ring_within(p.outer, m)
    &&& forall|i: int| 0 <= i < p.holes.len() ==> ring_within(#[trigger] p.holes[i], m)
}

/// Every coordinate of a job is at most `m` from the origin.
pub open spec fn polys_within(polys: Seq<PolyV>, m: int) -> bool {
    forall|i: int| 0 <= i < polys.len() ==> poly_within(#[trigger] polys[i], m)
}

/// The axis through the origin.
pub open spec fn y_axis() -> MirrorAxis {
    MirrorAxis::VerticalX { twice_x_nm: 0 }
}

/// A job, mirrored in x if it is for the back side.
pub open spec fn faced(polys: Seq<PolyV>, mirror_x: bool) -> Seq<PolyV> {
    if mirror_x {
        polys.map_values(|p: PolyV| mirrored_poly(y_axis(), p))
    } else {
        polys
    }
}

/// A job with its own corner or center at a target; nothing without points.
pub open spec fn placed_at(polys: Seq<PolyV>, target: P, center: bool) -> Seq<PolyV> {
    match polys_hull(polys) {
        None => Seq::empty(),
        Some(b) => placed(polys, b, target, center),
    }
}

/// A job in the workspace: its corner at the origin, unless a place is asked
/// for.
pub open spec fn laid_out(polys: Seq<PolyV>, mirror_x: bool, target: P, center: bool) -> Seq<PolyV> {
    let n = at_origin(faced(polys, mirror_x));
    if target.x != 0 || target.y != 0 || center {
        placed_at(n, target, center)
    } else {
        n
    }
}

/// A drill pattern in the workspace: pinned to the board where its box is
/// known, so that it lands as a job of the same board does; else laid out by
/// itself.
pub open spec fn pinned(
    polys: Seq<PolyV>,
    board: Option<Bounds>,
    target: P,
    center: bool,
) -> Seq<PolyV> {
    match board {
        Some(b) => placed(polys, b, target, center),
        None => laid_out(polys, false, target, center),
    }
}

// ---------------------------------------------------------------------------
// Room
// ---------------------------------------------------------------------------

spec fn box_within(b: Option<Bounds>, m: int) -> bool {
    b matches Some(c) ==> point_within(c.min, m) && point_within(c.max, m) && upright(c)
}

proof fn lemma_hull_within(b: Option<Bounds>, s: Seq<P>, m: int)
    requires
        box_within(b, m),
        ring_within(s, m),
    ensures
        box_within(hull_from(b, s), m),
    decreases s.len(),
{
    if s.len() > 0 {
        let r = s.drop_last();
        assert forall|i: int| 0 <= i < r.len() implies point_within(#[trigger] r[i], m) by {
            assert(r[i] == s[i]);
        }
        lemma_hull_within(b, r, m);
        assert(point_within(s[s.len() - 1], m));
    }
}

proof fn lemma_rings_within(b: Option<Bounds>, rings: Seq<Seq<P>>, m: int)
    requires
        box_within(b, m),
        forall|i: int| 0 <= i < rings.len() ==> ring_within(#[trigger] rings[i], m),
    ensures
        box_within(rings_hull_from(b, rings), m),
    decreases rings.len(),
{
    if rings.len() > 0 {
        let r = rings.drop_last();
        assert forall|i: int| 0 <= i < r.len() implies ring_within(#[trigger] r[i], m) by {
            assert(r[i] == rings[i]);
        }
        lemma_rings_within(b, r, m);
        assert(ring_within(rings[rings.len() - 1], m));
        lemma_hull_within(rings_hull_from(b, r), rings.last(), m);
    }
}

proof fn lemma_polys_within(b: Option<Bounds>, polys: Seq<PolyV>, m: int)
    requires
        box_within(b, m),
        polys_within(polys, m),
    ensures
        box_within(polys_hull_from(b, polys), m),
    decreases polys.len(),
{
    if polys.len() > 0 {
        let r = polys.drop_last();
        assert forall|i: int| 0 <= i < r.len() implies poly_within(#[trigger] r[i], m) by {
            assert(r[i] == polys[i]);
        }
        lemma_polys_within(b, r, m);
        let p = polys.last();
        assert(poly_within(polys[polys.len() - 1], m));
        let h = polys_hull_from(b, r);
        lemma_hull_within(h, p.outer, m);
        lemma_rings_within(hull_from(h, p.outer), p.holes, m);
    }
}

proof fn lemma_ring_moves(s: Seq<P>, m: int, dx: int, dy: int, k: int)
    requires
        ring_within(s, m),
        -k <= dx <= k,
        -k <= dy <= k,
        m + k <= i64::MAX,
    ensures
        ring_moves(s, dx, dy),
        ring_within(moved_ring(s, dx, dy), m + k),
{
    assert forall|i: int| 0 <= i < s.len() implies moves(#[trigger] s[i], dx, dy) by {
        assert(point_within(s[i], m));
    }
    assert forall|i: int| 0 <= i < s.len() implies point_within(
        #[trigger] moved_ring(s, dx, dy)[i],
        m + k,
    ) by {
        assert(point_within(s[i], m));
    }
}

/// A job with room to move can be moved.
proof fn lemma_room(polys: Seq<PolyV>, m: int, dx: int, dy: int, k: int)
    requires
        polys_within(polys, m),
        -k <= dx <= k,
        -k <= dy <= k,
        m + k <= i64::MAX,
    ensures
        polys_move(polys, dx, dy),
        polys_within(moved_polys(polys, dx, dy), m + k),
{
    assert forall|i: int| 0 <= i < polys.len() implies poly_moves(#[trigger] polys[i], dx, dy)
        && poly_within(moved_poly(polys[i], dx, dy), m + k) by {
        let p = polys[i];
        assert(poly_within(p, m));
        lemma_ring_moves(p.outer, m, dx, dy, k);
        assert forall|j: int| 0 <= j < p.holes.len() implies ring_moves(#[trigger] p.holes[j], dx, dy)
            && ring_within(moved_ring(p.holes[j], dx, dy), m + k) by {
            lemma_ring_moves(p.holes[j], m, dx, dy, k);
        }
    }
    let r = moved_polys(polys, dx, dy);
    assert forall|i: int| 0 <= i < r.len() implies poly_within(#[trigger] r[i], m + k) by {
        assert(poly_moves(polys[i], dx, dy));
        assert(r[i] == moved_poly(polys[i], dx, dy));
    }
}

proof fn lemma_mirror_ring(s: Seq<P>, m: int)
    requires
        ring_within(s, m),
        m <= i64::MAX,
    ensures
        maps_ring(y_axis(), s),
        ring_within(mirrored_ring(y_axis(), s), m),
{
    let r = mirrored_ring(y_axis(), s);
    assert forall|i: int| 0 <= i < s.len() implies y_axis().maps(#[trigger] s[i]) by {
        assert(point_within(s[i], m));
    }
    assert forall|i: int| 0 <= i < r.len() implies point_within(#[trigger] r[i], m) by {
        assert(point_within(s[s.len() - 1 - i], m));
        assert(r[i] == y_axis().mirrored(s[s.len() - 1 - i]));
    }
}

/// A mirrored job has as much room.
proof fn lemma_mirror(polys: Seq<PolyV>, m: int)
    requires
        polys_within(polys, m),
        m <= i64::MAX,
    ensures
        forall|i: int| 0 <= i < polys.len() ==> maps_poly(y_axis(), #[trigger] polys[i]),
        polys_within(faced(polys, true), m),
{
    assert forall|i: int| 0 <= i < polys.len() implies maps_poly(y_axis(), #[trigger] polys[i])
        && poly_within(mirrored_poly(y_axis(), polys[i]), m) by {
        let p = polys[i];
        assert(poly_within(p, m));
        lemma_mirror_ring(p.outer, m);
        assert forall|j: int| 0 <= j < p.holes.len() implies maps_ring(
            y_axis(),
            #[trigger] p.holes[j],
        ) && ring_within(mirrored_ring(y_axis(), p.holes[j]), m) by {
            lemma_mirror_ring(p.holes[j], m);
        }
    }
    let r = faced(polys, true);
    assert forall|i: int| 0 <= i < r.len() implies poly_within(#[trigger] r[i], m) by {
        assert(maps_poly(y_axis(), polys[i]));
        assert(r[i] == mirrored_poly(y_axis(), polys[i]));
    }
}

// ---------------------------------------------------------------------------
// Laying out
// ---------------------------------------------------------------------------

/// Mirror a job for the back side, if it is for that.
pub fn face(polys: &[Poly], mirror_x: bool) -> (r: Vec<Poly>)
    requires
        polys_within(polys.deep_view(), WORKSPACE_NM as int),
    ensures
        r.deep_view() == faced(polys.deep_view(), mirror_x),
        polys_within(r.deep_view(), WORKSPACE_NM as int),
{
    if mirror_x {
        proof {
            lemma_mirror(polys.deep_view(), WORKSPACE_NM as int);
        }
        mirror_job(polys, &MirrorAxis::VerticalX { twice_x_nm: 0 })
    } else {
        crate::model::clone_polys(polys)
    }
}

/// Bring a job into the workspace.
pub fn lay_out(polys: &[Poly], mirror_x: bool, target: P, center: bool) -> (r: Vec<Poly>)
    requires
        polys_within(polys.deep_view(), WORKSPACE_NM as int),
        point_within(target, WORKSPACE_NM as int),
    ensures
        r.deep_view() == laid_out(polys.deep_view(), mirror_x, target, center),
{
    let ghost m = WORKSPACE_NM as int;
    let f = face(polys, mirror_x);
    let ghost fv = f.deep_view();
    proof {
        lemma_polys_within(None, fv, m);
        match polys_hull(fv) {
            Some(b) => {
                lemma_room(fv, m, -(b.min.x as int), -(b.min.y as int), m);
            },
            None => {},
        }
    }
    let n = normalize_frame(f.as_slice());
    if target.x != 0 || target.y != 0 || center {
        let ghost nv = n.deep_view();
        proof {
            lemma_polys_within(None, nv, 2 * m);
            match polys_hull(nv) {
                Some(b) => {
                    let a = anchor_of(b, center);
                    lemma_room(nv, 2 * m, target.x - a.0, target.y - a.1, 3 * m);
                },
                None => {},
            }
        }
        place_frame(n.as_slice(), target, center)
    } else {
        n
    }
}

/// Bring a drill pattern into the workspace, pinned to the board where its
/// region is given. A region without points has no box.
pub fn pin(polys: &[Poly], board: Option<Bounds>, target: P, center: bool) -> (r: Vec<Poly>)
    requires
        polys_within(polys.deep_view(), WORKSPACE_NM as int),
        point_within(target, WORKSPACE_NM as int),
        board matches Some(b) ==> upright(b) && point_within(b.min, WORKSPACE_NM as int)
            && point_within(b.max, WORKSPACE_NM as int),
    ensures
        r.deep_view() == pinned(polys.deep_view(), board, target, center),
{
    match board {
        Some(b) => {
            proof {
                let a = anchor_of(b, center);
                let m = WORKSPACE_NM as int;
                lemma_room(polys.deep_view(), m, target.x - a.0, target.y - a.1, 2 * m);
            }
            place_on(polys, b, target, center)
        },
        None => lay_out(polys, false, target, center),
    }
}

/// Front and back land in the same frame: whatever is mirrored, the lowest
/// corner of a job that is not placed elsewhere is the origin.
pub proof fn both_faces_start_at_the_origin(polys: Seq<PolyV>, mirror_x: bool)
    requires
        polys_within(polys, WORKSPACE_NM as int),
        polys_hull(faced(polys, mirror_x)) is Some,
    ensures
        ({
            let r = laid_out(polys, mirror_x, P { x: 0, y: 0 }, false);
            polys_hull(r) matches Some(b) && b.min == (P { x: 0, y: 0 })
        }),
{
    let m = WORKSPACE_NM as int;
    let f = faced(polys, mirror_x);
    if mirror_x {
        lemma_mirror(polys, m);
    }
    lemma_polys_within(None, f, m);
    let b = polys_hull(f)->0;
    lemma_room(f, m, -(b.min.x as int), -(b.min.y as int), m);
    crate::frame::normalized_frame_starts_at_the_origin(f);
}

// ---------------------------------------------------------------------------
// Front and back
// ---------------------------------------------------------------------------

/// The box of what is mirrored in x.
spec fn mirrored_box(b: Option<Bounds>) -> Option<Bounds> {
    match b {
        None => None,
        Some(c) => Some(
            Bounds {
                min: P { x: (-c.max.x) as i64, y: c.min.y },
                max: P { x: (-c.min.x) as i64, y: c.max.y },
            },
        ),
    }
}

/// The order in which points enter a box does not matter.
proof fn lemma_enters_first(b: Option<Bounds>, p: P, s: Seq<P>)
    ensures
        hull_from(Some(around(b, p)), s) == Some(around(hull_from(b, s), p)),
    decreases s.len(),
{
    if s.len() > 0 {
        lemma_enters_first(b, p, s.drop_last());
    }
}

proof fn lemma_hull_of_cons(b: Option<Bounds>, p: P, s: Seq<P>)
    ensures
        hull_from(b, seq![p] + s) == hull_from(Some(around(b, p)), s),
    decreases s.len(),
{
    let all = seq![p] + s;
    if s.len() > 0 {
        assert(all.drop_last() =~= seq![p] + s.drop_last());
        lemma_hull_of_cons(b, p, s.drop_last());
    } else {
        assert(all.drop_last() =~= Seq::<P>::empty());
        assert(hull_from(b, all.drop_last()) == b);
    }
}

proof fn lemma_mirrored_hull(b: Option<Bounds>, s: Seq<P>, m: int)
    requires
        box_within(b, m),
        ring_within(s, m),
        m <= i64::MAX,
    ensures
        hull_from(mirrored_box(b), mirrored_ring(y_axis(), s)) == mirrored_box(hull_from(b, s)),
    decreases s.len(),
{
    let r = mirrored_ring(y_axis(), s);
    if s.len() > 0 {
        let front = s.drop_last();
        let last = s[s.len() - 1];
        let q = y_axis().mirrored(last);
        assert(point_within(last, m));
        assert forall|i: int| 0 <= i < front.len() implies point_within(#[trigger] front[i], m) by {
            assert(front[i] == s[i]);
        }
        assert(r =~= seq![q] + mirrored_ring(y_axis(), front));
        lemma_hull_of_cons(mirrored_box(b), q, mirrored_ring(y_axis(), front));
        assert(Some(around(mirrored_box(b), q)) == mirrored_box(Some(around(b, last))));
        lemma_mirrored_hull(Some(around(b, last)), front, m);
        lemma_enters_first(b, last, front);
    } else {
        assert(r =~= Seq::<P>::empty());
    }
}

proof fn lemma_mirrored_rings(b: Option<Bounds>, rings: Seq<Seq<P>>, m: int)
    requires
        box_within(b, m),
        forall|i: int| 0 <= i < rings.len() ==> ring_within(#[trigger] rings[i], m),
        m <= i64::MAX,
    ensures
        rings_hull_from(
            mirrored_box(b),
            rings.map_values(|h: Seq<P>| mirrored_ring(y_axis(), h)),
        ) == mirrored_box(rings_hull_from(b, rings)),
    decreases rings.len(),
{
    let r = rings.map_values(|h: Seq<P>| mirrored_ring(y_axis(), h));
    if rings.len() > 0 {
        let front = rings.drop_last();
        assert forall|i: int| 0 <= i < front.len() implies ring_within(#[trigger] front[i], m) by {
            assert(front[i] == rings[i]);
        }
        assert(r.drop_last() =~= front.map_values(|h: Seq<P>| mirrored_ring(y_axis(), h)));
        assert(ring_within(rings[rings.len() - 1], m));
        lemma_mirrored_rings(b, front, m);
        lemma_rings_within(b, front, m);
        lemma_mirrored_hull(rings_hull_from(b, front), rings.last(), m);
    }
}

proof fn lemma_mirrored_polys(b: Option<Bounds>, polys: Seq<PolyV>, m: int)
    requires
        box_within(b, m),
        polys_within(polys, m),
        m <= i64::MAX,
    ensures
        polys_hull_from(mirrored_box(b), faced(polys, true)) == mirrored_box(
            polys_hull_from(b, polys),
        ),
    decreases polys.len(),
{
    let r = faced(polys, true);
    if polys.len() > 0 {
        let front = polys.drop_last();
        assert forall|i: int| 0 <= i < front.len() implies poly_within(#[trigger] front[i], m) by {
            assert(front[i] == polys[i]);
        }
        assert(r.drop_last() =~= faced(front, true));
        let p = polys.last();
        assert(poly_within(polys[polys.len() - 1], m));
        assert(r.last() == mirrored_poly(y_axis(), p));
        lemma_mirrored_polys(b, front, m);
        lemma_polys_within(b, front, m);
        let h = polys_hull_from(b, front);
        lemma_mirrored_hull(h, p.outer, m);
        lemma_hull_within(h, p.outer, m);
        lemma_mirrored_rings(hull_from(h, p.outer), p.holes, m);
    }
}

/// The vertical line through the middle of a job whose corner is the origin.
pub open spec fn middle_of(b: Bounds) -> MirrorAxis {
    MirrorAxis::VerticalX { twice_x_nm: (b.max.x - b.min.x) as i64 }
}

proof fn lemma_ring_turns(s: Seq<P>, b: Bounds)
    requires
        ring_within(s, WORKSPACE_NM as int),
        point_within(b.min, WORKSPACE_NM as int),
        point_within(b.max, WORKSPACE_NM as int),
    ensures
        moved_ring(mirrored_ring(y_axis(), s), b.max.x as int, -(b.min.y as int)) == mirrored_ring(
            middle_of(b),
            moved_ring(s, -(b.min.x as int), -(b.min.y as int)),
        ),
{
    let l = moved_ring(mirrored_ring(y_axis(), s), b.max.x as int, -(b.min.y as int));
    let r = mirrored_ring(middle_of(b), moved_ring(s, -(b.min.x as int), -(b.min.y as int)));
    assert forall|i: int| 0 <= i < l.len() implies l[i] == r[i] by {
        let p = s[s.len() - 1 - i];
        assert(point_within(p, WORKSPACE_NM as int));
    }
    assert(l =~= r);
}

/// Front and back share a frame. Where both jobs have the box of the board,
/// each lands with the corner of that box at the origin, and the back lands
/// mirrored about the middle of the board: what the front has at `x` from the
/// left edge, the back has at `x` from the right edge, at the same height.
pub proof fn faces_share_a_frame(front: Seq<PolyV>, back: Seq<PolyV>, b: Bounds)
    requires
        polys_within(front, WORKSPACE_NM as int),
        polys_within(back, WORKSPACE_NM as int),
        polys_hull(front) == Some(b),
        polys_hull(back) == Some(b),
    ensures
        laid_out(front, false, P { x: 0, y: 0 }, false) == moved_polys(
            front,
            -(b.min.x as int),
            -(b.min.y as int),
        ),
        laid_out(back, true, P { x: 0, y: 0 }, false) == moved_polys(
            back,
            -(b.min.x as int),
            -(b.min.y as int),
        ).map_values(|p: PolyV| mirrored_poly(middle_of(b), p)),
{
    let m = WORKSPACE_NM as int;
    lemma_polys_within(None, back, m);
    lemma_mirrored_polys(None, back, m);
    let dx = -(b.min.x as int);
    let dy = -(b.min.y as int);
    let f = faced(back, true);
    let l = moved_polys(f, b.max.x as int, dy);
    let r = moved_polys(back, dx, dy).map_values(|p: PolyV| mirrored_poly(middle_of(b), p));
    assert forall|i: int| 0 <= i < l.len() implies l[i] == r[i] by {
        let p = back[i];
        assert(poly_within(p, m));
        lemma_ring_turns(p.outer, b);
        assert forall|j: int| 0 <= j < p.holes.len() implies l[i].holes[j] == r[i].holes[j] by {
            assert(ring_within(p.holes[j], m));
            lemma_ring_turns(p.holes[j], b);
        }
        assert(l[i].holes =~= r[i].holes);
    }
    assert(l =~= r);
}

/// A pattern pinned to a board moves with it: every point as far as the corner of
/// the board moves to the target.
pub proof fn pinned_patterns_move_with_the_board(
    polys: Seq<PolyV>,
    b: Bounds,
    target: P,
    k: int,
    i: int,
)
    requires
        places(polys, b, target, false),
        0 <= k < polys.len(),
        0 <= i < polys[k].outer.len(),
    ensures
        ({
            let p = polys[k].outer[i];
            let q = pinned(polys, Some(b), target, false)[k].outer[i];
            &&& q.x - target.x == p.x - b.min.x
            &&& q.y - target.y == p.y - b.min.y
        }),
{
    let dx = target.x - b.min.x;
    let dy = target.y - b.min.y;
    assert(poly_moves(polys[k], dx, dy));
    assert(ring_moves(polys[k].outer, dx, dy));
    assert(moves(polys[k].outer[i], dx, dy));
}

} // verus!
