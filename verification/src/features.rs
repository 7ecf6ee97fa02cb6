//! Fiducial and tooling features, prepended to a job so that they burn first.
use vstd::prelude::*;
use crate::model::{lemma_ring_view, ElemV, Nm, PathElem, PathKind, Paths, P};

verus! {

broadcast use lemma_ring_view;

/// Radius of the filled fiducial disc: half a millimeter.
pub const FIDUCIAL_DISC_R_NM: Nm = 500_000;

/// Outer radius of the cleared ring around the disc.
pub const FIDUCIAL_RING_OUTER_R_NM: Nm = 1_500_000;

/// Radial pitch of the concentric disc-fill circles.
pub const FIDUCIAL_FILL_PITCH_NM: Nm = 50_000;

/// Inset of the fiducial centers from the board edges.
pub const FIDUCIAL_INSET_NM: Nm = 5_000_000;

/// Arm length of a tooling-hole center cross.
pub const CROSS_ARM_NM: Nm = 1_000_000;

/// The three fiducial centers of a board: an L pattern that tells its
/// orientation.
pub fn fiducial_centers(board_w_nm: Nm, board_h_nm: Nm) -> (c: [P; 3])
    requires
        i64::MIN <= board_w_nm - FIDUCIAL_INSET_NM,
        i64::MIN <= board_h_nm - FIDUCIAL_INSET_NM,
    ensures
        c@ == seq![
            P { x: FIDUCIAL_INSET_NM, y: FIDUCIAL_INSET_NM },
            P { x: FIDUCIAL_INSET_NM, y: (board_h_nm - FIDUCIAL_INSET_NM) as i64 },
            P { x: (board_w_nm - FIDUCIAL_INSET_NM) as i64, y: FIDUCIAL_INSET_NM },
        ],
{
    let c = [
        P { x: FIDUCIAL_INSET_NM, y: FIDUCIAL_INSET_NM },
        P { x: FIDUCIAL_INSET_NM, y: board_h_nm - FIDUCIAL_INSET_NM },
        P { x: board_w_nm - FIDUCIAL_INSET_NM, y: FIDUCIAL_INSET_NM },
    ];
    assert(c@ =~= seq![
        P { x: FIDUCIAL_INSET_NM, y: FIDUCIAL_INSET_NM },
        P { x: FIDUCIAL_INSET_NM, y: (board_h_nm - FIDUCIAL_INSET_NM) as i64 },
        P { x: (board_w_nm - FIDUCIAL_INSET_NM) as i64, y: FIDUCIAL_INSET_NM },
    ]);
    c
}

/// The radii of the circles of one fiducial, innermost first: the fill circles
/// at the pitch, the disc boundary, the ring boundary.
pub open spec fn annulus_radii() -> Seq<Nm> {
    Seq::new(10, |k: int| (FIDUCIAL_FILL_PITCH_NM * (k + 1)) as i64).push(FIDUCIAL_RING_OUTER_R_NM)
}

/// The radii of the circles of one fiducial, innermost first. The disc
/// boundary doubles as the inner boundary of the ring and appears once.
pub fn annulus_op() -> (radii: Vec<Nm>)
    ensures
        radii@ == annulus_radii(),
        radii@[9] == FIDUCIAL_DISC_R_NM,
{
    let mut radii: Vec<Nm> = Vec::new();
    let mut k: i64 = 1;
    while k <= 10
        invariant
            1 <= k <= 11,
            radii@ =~= Seq::new(
                (k - 1) as nat,
                |j: int| (FIDUCIAL_FILL_PITCH_NM * (j + 1)) as i64,
            ),
        decreases 11 - k,
    {
        radii.push(FIDUCIAL_FILL_PITCH_NM * k);
        k += 1;
    }
    radii.push(FIDUCIAL_RING_OUTER_R_NM);
    assert(radii@ =~= annulus_radii());
    radii
}

/// A horizontal and a vertical stroke through `c`.
pub open spec fn cross_elems(c: P) -> Seq<ElemV> {
    let arm = CROSS_ARM_NM as int;
    seq![
        ElemV {
            kind: PathKind::Mark,
            pts: seq![P { x: (c.x - arm) as i64, y: c.y }, P { x: (c.x + arm) as i64, y: c.y }],
            closed: false,
        },
        ElemV {
            kind: PathKind::Mark,
            pts: seq![P { x: c.x, y: (c.y - arm) as i64 }, P { x: c.x, y: (c.y + arm) as i64 }],
            closed: false,
        },
    ]
}

/// The cross has coordinates.
pub open spec fn cross_fits(c: P) -> bool {
    &&& i64::MIN + CROSS_ARM_NM <= c.x <= i64::MAX - CROSS_ARM_NM
    &&& i64::MIN + CROSS_ARM_NM <= c.y <= i64::MAX - CROSS_ARM_NM
}

fn stroke(a: P, b: P) -> (e: PathElem)
    ensures
        e.deep_view() == (ElemV { kind: PathKind::Mark, pts: seq![a, b], closed: false }),
{
    let mut pts: Vec<P> = Vec::new();
    pts.push(a);
    pts.push(b);
    assert(pts@ =~= seq![a, b]);
    PathElem { kind: PathKind::Mark, pts, closed: false }
}

/// A tooling-hole center mark: two open strokes, horizontal then vertical.
pub fn cross_op(c: P) -> (elems: Vec<PathElem>)
    requires
        cross_fits(c),
    ensures
        elems.deep_view() == cross_elems(c),
{
    let mut elems: Vec<PathElem> = Vec::new();
    let h = stroke(P { x: c.x - CROSS_ARM_NM, y: c.y }, P { x: c.x + CROSS_ARM_NM, y: c.y });
    let v = stroke(P { x: c.x, y: c.y - CROSS_ARM_NM }, P { x: c.x, y: c.y + CROSS_ARM_NM });
    elems.push(h);
    elems.push(v);
    assert(elems.deep_view() =~= cross_elems(c));
    elems
}

/// The marks of the tooling holes, if any are given.
pub open spec fn tooling_elems(marks: Option<[P; 2]>) -> Seq<ElemV> {
    match marks {
        None => Seq::empty(),
        Some(c) => cross_elems(c@[0]) + cross_elems(c@[1]),
    }
}

/// A job with the registration features in front: the fiducial circles, the
/// tooling marks, then the original elements.
pub fn inject_features(
    paths: &Paths,
    fiducials: &Vec<PathElem>,
    tooling_marks: Option<[P; 2]>,
) -> (out: Paths)
    requires
        tooling_marks matches Some(c) ==> cross_fits(c@[0]) && cross_fits(c@[1]),
    ensures
        out.deep_view() == fiducials.deep_view() + tooling_elems(tooling_marks)
            + paths.deep_view(),
{
    let mut elems: Vec<PathElem> = Vec::new();
    append(&mut elems, fiducials);
    if let Some(c) = tooling_marks {
        let first = cross_op(c[0]);
        append(&mut elems, &first);
        let second = cross_op(c[1]);
        append(&mut elems, &second);
    }
    append(&mut elems, &paths.elems);
    assert(elems.deep_view() =~= fiducials.deep_view() + tooling_elems(tooling_marks)
        + paths.deep_view());
    Paths { elems }
}

/// Append copies of elements.
pub fn append(elems: &mut Vec<PathElem>, more: &Vec<PathElem>)
    ensures
        final(elems).deep_view() == old(elems).deep_view() + more.deep_view(),
{
    let ghost start = elems.deep_view();
    let ghost mv = more.deep_view();
    let mut i: usize = 0;
    assert(start + mv.take(0) =~= start);
    while i < more.len()
        invariant
            i <= more.len(),
            mv == more.deep_view(),
            elems.deep_view() == start + mv.take(i as int),
        decreases more.len() - i,
    {
        let ghost before = elems.deep_view();
        let e = more[i].clone();
        elems.push(e);
        assert(elems.deep_view() =~= before.push(mv[i as int]));
        assert(elems.deep_view() =~= start + mv.take(i + 1));
        i += 1;
    }
    assert(mv.take(i as int) =~= mv);
}

} // verus!
