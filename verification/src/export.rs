//! Vector documents of regions: DXF and SVG.
//!
//! A DXF document holds one closed polyline per ring; an even-odd hatch over
//! all of them reproduces holes and islands. An SVG document holds one
//! even-odd path per polygon. All coordinates are written in millimeters. DXF
//! keeps the board's y-up frame; SVG is flipped into screen space. Tool paths
//! are drawn as they run: open ones stay open.
use vstd::prelude::*;
use crate::bounds::{
    covers, covers_poly, elems_hull, include_polys, paths_bbox, polys_bbox, polys_hull,
    polys_hull_covers, polys_hull_from, polys_without_box_are_empty, Bounds,
};
use crate::model::{lemma_ring_view, ElemV, PathElem, Paths, Poly, PolyV, Ring, P};
use crate::offset::rings_of;
use crate::text::{
    fixed_text, holds, lemma_assoc, lemma_holds_in, mm_short, put, put_fixed, put_mm_short,
};

verus! {

broadcast use lemma_ring_view;

/// Smallest side of a drawing, in nanometers.
pub const MIN_SIDE_NM: i128 = 1_000;

// ---------------------------------------------------------------------------
// DXF
// ---------------------------------------------------------------------------

/// The vertices of one polyline.
pub open spec fn dxf_vertices(ring: Seq<P>) -> Seq<char>
    decreases ring.len(),
{
    if ring.len() == 0 {
        Seq::empty()
    } else {
        dxf_vertices(ring.drop_last()) + "0\nVERTEX\n8\nNONCOPPER\n10\n"@ + fixed_text(
            ring.last().x as int,
            6,
            6,
        ) + "\n20\n"@ + fixed_text(ring.last().y as int, 6, 6) + "\n"@
    }
}

/// One closed polyline per ring.
pub open spec fn dxf_rings(rings: Seq<Seq<P>>) -> Seq<char>
    decreases rings.len(),
{
    if rings.len() == 0 {
        Seq::empty()
    } else {
        dxf_rings(rings.drop_last()) + "0\nPOLYLINE\n8\nNONCOPPER\n66\n1\n70\n1\n"@
            + dxf_vertices(rings.last()) + "0\nSEQEND\n"@
    }
}

/// A DXF document of a region.
pub open spec fn dxf_text(polys: Seq<PolyV>) -> Seq<char> {
    "0\nSECTION\n2\nHEADER\n9\n$ACADVER\n1\nAC1009\n0\nENDSEC\n0\nSECTION\n2\nENTITIES\n"@
        + dxf_rings(rings_of(polys)) + "0\nENDSEC\n0\nEOF\n"@
}

fn put_dxf_ring(out: &mut String, ring: &Ring)
    ensures
        final(out)@ == old(out)@ + "0\nPOLYLINE\n8\nNONCOPPER\n66\n1\n70\n1\n"@ + dxf_vertices(
            ring@,
        ) + "0\nSEQEND\n"@,
{
    let ghost start = out@;
    put(out, "0\nPOLYLINE\n8\nNONCOPPER\n66\n1\n70\n1\n");
    let ghost head = out@;
    let mut i: usize = 0;
    assert(head + dxf_vertices(ring@.take(0)) =~= head);
    while i < ring.len()
        invariant
            i <= ring@.len(),
            out@ == head + dxf_vertices(ring@.take(i as int)),
        decreases ring@.len() - i,
    {
        assert(ring@.take(i + 1).drop_last() =~= ring@.take(i as int));
        put(out, "0\nVERTEX\n8\nNONCOPPER\n10\n");
        put_fixed(out, ring[i].x as i128, 6, 6);
        put(out, "\n20\n");
        put_fixed(out, ring[i].y as i128, 6, 6);
        put(out, "\n");
        assert(out@ =~= head + dxf_vertices(ring@.take(i + 1)));
        i += 1;
    }
    assert(ring@.take(i as int) =~= ring@);
    put(out, "0\nSEQEND\n");
    assert(out@ =~= start + "0\nPOLYLINE\n8\nNONCOPPER\n66\n1\n70\n1\n"@ + dxf_vertices(ring@)
        + "0\nSEQEND\n"@);
}

fn put_dxf_poly(out: &mut String, poly: &Poly, Ghost(start): Ghost<Seq<char>>, Ghost(before): Ghost<
    Seq<Seq<P>>,
>)
    requires
        old(out)@ == start + dxf_rings(before),
    ensures
        final(out)@ == start + dxf_rings(
            before.push(poly.deep_view().outer) + poly.deep_view().holes,
        ),
{
    let ghost pv = poly.deep_view();
    let ghost base = before.push(pv.outer);
    put_dxf_ring(out, &poly.outer);
    assert(base.drop_last() =~= before);
    assert(out@ =~= start + dxf_rings(base));
    let mut i: usize = 0;
    assert(base + pv.holes.take(0) =~= base);
    while i < poly.holes.len()
        invariant
            i <= poly.holes@.len(),
            pv == poly.deep_view(),
            out@ == start + dxf_rings(base + pv.holes.take(i as int)),
        decreases poly.holes@.len() - i,
    {
        let ghost done = base + pv.holes.take(i as int);
        let ghost more = base + pv.holes.take(i + 1);
        put_dxf_ring(out, &poly.holes[i]);
        assert(more.last() == pv.holes[i as int]);
        assert(pv.holes[i as int] == poly.holes@[i as int]@);
        assert(more.drop_last() =~= done);
        assert(out@ =~= start + dxf_rings(more));
        i += 1;
    }
    assert(pv.holes.take(i as int) =~= pv.holes);
}

/// A region as DXF R12: each ring a closed polyline on one layer, in the
/// board's own frame.
pub fn dxf_string(polys: &[Poly]) -> (doc: String)
    ensures
        doc@ == dxf_text(polys.deep_view()),
{
    let ghost pv = polys.deep_view();
    let mut out = String::new();
    put(
        &mut out,
        "0\nSECTION\n2\nHEADER\n9\n$ACADVER\n1\nAC1009\n0\nENDSEC\n0\nSECTION\n2\nENTITIES\n",
    );
    let ghost start = out@;
    let mut i: usize = 0;
    assert(start + dxf_rings(rings_of(pv.take(0))) =~= start);
    while i < polys.len()
        invariant
            i <= polys@.len(),
            pv == polys.deep_view(),
            out@ == start + dxf_rings(rings_of(pv.take(i as int))),
        decreases polys@.len() - i,
    {
        assert(pv.take(i + 1).drop_last() =~= pv.take(i as int));
        assert(pv[i as int] == polys@[i as int].deep_view());
        put_dxf_poly(&mut out, &polys[i], Ghost(start), Ghost(rings_of(pv.take(i as int))));
        i += 1;
    }
    assert(pv.take(i as int) =~= pv);
    put(&mut out, "0\nENDSEC\n0\nEOF\n");
    assert(out@ =~= dxf_text(pv));
    out
}

// ---------------------------------------------------------------------------
// SVG
// ---------------------------------------------------------------------------

/// The moves along a ring; `flip` minus y is the screen's y.
pub open spec fn pen_text(ring: Seq<P>, flip: int) -> Seq<char>
    decreases ring.len(),
{
    if ring.len() == 0 {
        Seq::empty()
    } else {
        pen_text(ring.drop_last(), flip) + (if ring.len() == 1 {
            "M"@
        } else {
            "L"@
        }) + fixed_text(ring.last().x as int, 6, 6) + " "@ + fixed_text(
            flip - ring.last().y,
            6,
            6,
        )
    }
}

/// One closed subpath per ring.
pub open spec fn subpaths_text(rings: Seq<Seq<P>>, flip: int) -> Seq<char>
    decreases rings.len(),
{
    if rings.len() == 0 {
        Seq::empty()
    } else {
        subpaths_text(rings.drop_last(), flip) + pen_text(rings.last(), flip) + "Z"@
    }
}

/// The path of one polygon: its outer ring, then its holes.
pub open spec fn path_text(poly: PolyV, flip: int) -> Seq<char> {
    subpaths_text(seq![poly.outer] + poly.holes, flip)
}

/// One path element per polygon, in a style.
pub open spec fn paths_text(polys: Seq<PolyV>, style: Seq<char>, flip: int) -> Seq<char>
    decreases polys.len(),
{
    if polys.len() == 0 {
        Seq::empty()
    } else {
        paths_text(polys.drop_last(), style, flip) + "  <path d=\""@ + path_text(
            polys.last(),
            flip,
        ) + "\""@ + style + "/>\n"@
    }
}

/// The box of a drawing: that of its points, or nothing at the origin.
pub open spec fn frame_of(b: Option<Bounds>) -> Bounds {
    match b {
        Some(c) => c,
        None => Bounds { min: P { x: 0, y: 0 }, max: P { x: 0, y: 0 } },
    }
}

/// A side of the drawing: no drawing is without extent.
pub open spec fn side(lo: i64, hi: i64) -> int {
    if hi - lo < MIN_SIDE_NM {
        MIN_SIDE_NM as int
    } else {
        hi - lo
    }
}

/// The opening tag of a drawing.
pub open spec fn svg_open(b: Bounds) -> Seq<char> {
    let w = mm_short(side(b.min.x, b.max.x));
    let h = mm_short(side(b.min.y, b.max.y));
    "<svg xmlns=\"http://www.w3.org/2000/svg\" width=\""@ + w + "mm\" height=\""@ + h
        + "mm\" viewBox=\""@ + mm_short(b.min.x as int) + " "@ + mm_short(b.min.y as int) + " "@ + w
        + " "@ + h + "\">\n"@
}

/// An SVG document of a region: black even-odd paths.
pub open spec fn svg_text(polys: Seq<PolyV>) -> Seq<char> {
    let b = frame_of(polys_hull(polys));
    svg_open(b) + paths_text(
        polys,
        " fill=\"#000\" fill-rule=\"evenodd\""@,
        b.min.y + b.max.y,
    ) + "</svg>\n"@
}

/// A preview: the board, on it what is ablated, on that the copper.
pub open spec fn preview_text(
    board: Seq<PolyV>,
    copper: Seq<PolyV>,
    ablate: Seq<PolyV>,
) -> Seq<char> {
    let b = frame_of(polys_hull_from(polys_hull_from(polys_hull(board), copper), ablate));
    let flip = b.min.y + b.max.y;
    svg_open(b) + paths_text(
        board,
        " fill=\"#e8ddc8\" fill-opacity=\"1\" fill-rule=\"evenodd\""@,
        flip,
    ) + paths_text(
        ablate,
        " fill=\"#333333\" fill-opacity=\"1\" fill-rule=\"evenodd\""@,
        flip,
    ) + paths_text(
        copper,
        " fill=\"#b87333\" fill-opacity=\"1\" fill-rule=\"evenodd\""@,
        flip,
    ) + "</svg>\n"@
}

/// A sum of two coordinates.
pub open spec fn is_flip(flip: int) -> bool {
    2 * i64::MIN <= flip <= 2 * i64::MAX
}

fn put_pen(out: &mut String, ring: &Ring, flip: i128)
    requires
        is_flip(flip as int),
    ensures
        final(out)@ == old(out)@ + pen_text(ring@, flip as int),
{
    let ghost start = out@;
    let mut i: usize = 0;
    assert(start + pen_text(ring@.take(0), flip as int) =~= start);
    while i < ring.len()
        invariant
            i <= ring@.len(),
            is_flip(flip as int),
            out@ == start + pen_text(ring@.take(i as int), flip as int),
        decreases ring@.len() - i,
    {
        assert(ring@.take(i + 1).drop_last() =~= ring@.take(i as int));
        if i == 0 {
            put(out, "M");
        } else {
            put(out, "L");
        }
        put_fixed(out, ring[i].x as i128, 6, 6);
        put(out, " ");
        put_fixed(out, flip - ring[i].y as i128, 6, 6);
        assert(out@ =~= start + pen_text(ring@.take(i + 1), flip as int));
        i += 1;
    }
    assert(ring@.take(i as int) =~= ring@);
}

fn put_subpath(out: &mut String, ring: &Ring, flip: i128)
    requires
        is_flip(flip as int),
    ensures
        final(out)@ == old(out)@ + pen_text(ring@, flip as int) + "Z"@,
{
    put_pen(out, ring, flip);
    put(out, "Z");
}

fn put_path(out: &mut String, poly: &Poly, flip: i128)
    requires
        is_flip(flip as int),
    ensures
        final(out)@ == old(out)@ + path_text(poly.deep_view(), flip as int),
{
    let ghost start = out@;
    let ghost pv = poly.deep_view();
    let ghost rings = seq![pv.outer] + pv.holes;
    put_subpath(out, &poly.outer, flip);
    assert(rings.take(1).drop_last() =~= rings.take(0));
    assert(subpaths_text(rings.take(0), flip as int) =~= Seq::<char>::empty());
    assert(out@ =~= start + subpaths_text(rings.take(1), flip as int));
    let mut i: usize = 0;
    while i < poly.holes.len()
        invariant
            i <= poly.holes@.len(),
            pv == poly.deep_view(),
            rings == seq![pv.outer] + pv.holes,
            is_flip(flip as int),
            out@ == start + subpaths_text(rings.take(i + 1), flip as int),
        decreases poly.holes@.len() - i,
    {
        put_subpath(out, &poly.holes[i], flip);
        assert(rings[i + 1] == poly.holes@[i as int]@);
        assert(rings.take(i + 2).drop_last() =~= rings.take(i + 1));
        assert(out@ =~= start + subpaths_text(rings.take(i + 2), flip as int));
        i += 1;
    }
    assert(rings.take(i + 1) =~= rings);
}

fn put_paths(out: &mut String, polys: &[Poly], style: &str, flip: i128)
    requires
        is_flip(flip as int),
    ensures
        final(out)@ == old(out)@ + paths_text(polys.deep_view(), style@, flip as int),
{
    let ghost start = out@;
    let ghost pv = polys.deep_view();
    let mut i: usize = 0;
    assert(start + paths_text(pv.take(0), style@, flip as int) =~= start);
    while i < polys.len()
        invariant
            i <= polys@.len(),
            pv == polys.deep_view(),
            is_flip(flip as int),
            out@ == start + paths_text(pv.take(i as int), style@, flip as int),
        decreases polys@.len() - i,
    {
        assert(pv.take(i + 1).drop_last() =~= pv.take(i as int));
        assert(pv[i as int] == polys@[i as int].deep_view());
        put(out, "  <path d=\"");
        put_path(out, &polys[i], flip);
        put(out, "\"");
        put(out, style);
        put(out, "/>\n");
        assert(out@ =~= start + paths_text(pv.take(i + 1), style@, flip as int));
        i += 1;
    }
    assert(pv.take(i as int) =~= pv);
}

fn to_frame(b: Option<Bounds>) -> (c: Bounds)
    ensures
        c == frame_of(b),
{
    match b {
        Some(c) => c,
        None => Bounds { min: P { x: 0, y: 0 }, max: P { x: 0, y: 0 } },
    }
}

fn to_side(lo: i64, hi: i64) -> (n: i128)
    ensures
        n == side(lo, hi),
        n <= 2 * i64::MAX + 2,
{
    let d: i128 = hi as i128 - lo as i128;
    if d < MIN_SIDE_NM {
        MIN_SIDE_NM
    } else {
        d
    }
}

fn put_svg_open(out: &mut String, b: Bounds)
    ensures
        final(out)@ == old(out)@ + svg_open(b),
{
    let ghost start = out@;
    let w: i128 = to_side(b.min.x, b.max.x);
    let h: i128 = to_side(b.min.y, b.max.y);
    put(out, "<svg xmlns=\"http://www.w3.org/2000/svg\" width=\"");
    put_mm_short(out, w);
    put(out, "mm\" height=\"");
    put_mm_short(out, h);
    put(out, "mm\" viewBox=\"");
    put_mm_short(out, b.min.x as i128);
    put(out, " ");
    put_mm_short(out, b.min.y as i128);
    put(out, " ");
    put_mm_short(out, w);
    put(out, " ");
    put_mm_short(out, h);
    put(out, "\">\n");
    assert(out@ =~= start + svg_open(b));
}

/// A region as SVG: one black even-odd path per polygon, exactly the shapes
/// that will be ablated.
pub fn svg_string(polys: &[Poly]) -> (doc: String)
    ensures
        doc@ == svg_text(polys.deep_view()),
{
    let b = to_frame(polys_bbox(polys));
    let flip: i128 = b.min.y as i128 + b.max.y as i128;
    let mut out = String::new();
    put_svg_open(&mut out, b);
    put_paths(&mut out, polys, " fill=\"#000\" fill-rule=\"evenodd\"", flip);
    put(&mut out, "</svg>\n");
    assert(out@ =~= svg_text(polys.deep_view()));
    out
}

/// Board, what is ablated and copper over one another, in colors.
pub fn preview_svg_string(board: &[Poly], copper: &[Poly], ablate: &[Poly]) -> (doc: String)
    ensures
        doc@ == preview_text(board.deep_view(), copper.deep_view(), ablate.deep_view()),
{
    let b = to_frame(include_polys(include_polys(polys_bbox(board), copper), ablate));
    let flip: i128 = b.min.y as i128 + b.max.y as i128;
    let mut out = String::new();
    put_svg_open(&mut out, b);
    put_paths(
        &mut out,
        board,
        " fill=\"#e8ddc8\" fill-opacity=\"1\" fill-rule=\"evenodd\"",
        flip,
    );
    put_paths(
        &mut out,
        ablate,
        " fill=\"#333333\" fill-opacity=\"1\" fill-rule=\"evenodd\"",
        flip,
    );
    put_paths(
        &mut out,
        copper,
        " fill=\"#b87333\" fill-opacity=\"1\" fill-rule=\"evenodd\"",
        flip,
    );
    put(&mut out, "</svg>\n");
    assert(out@ =~= preview_text(board.deep_view(), copper.deep_view(), ablate.deep_view()));
    out
}

// ---------------------------------------------------------------------------
// Tool paths
// ---------------------------------------------------------------------------

/// The vertices of one tool path on a layer.
pub open spec fn trace_vertices(layer: Seq<char>, pts: Seq<P>) -> Seq<char>
    decreases pts.len(),
{
    if pts.len() == 0 {
        Seq::empty()
    } else {
        trace_vertices(layer, pts.drop_last()) + "0\nVERTEX\n8\n"@ + layer + "\n10\n"@ + fixed_text(
            pts.last().x as int,
            6,
            6,
        ) + "\n20\n"@ + fixed_text(pts.last().y as int, 6, 6) + "\n"@
    }
}

/// One polyline, closed or open as the tool path is.
pub open spec fn trace_text(layer: Seq<char>, e: ElemV) -> Seq<char> {
    "0\nPOLYLINE\n8\n"@ + layer + (if e.closed {
        "\n66\n1\n70\n1\n"@
    } else {
        "\n66\n1\n70\n0\n"@
    }) + trace_vertices(layer, e.pts) + "0\nSEQEND\n"@
}

/// One polyline per tool path.
pub open spec fn traces_text(layer: Seq<char>, elems: Seq<ElemV>) -> Seq<char>
    decreases elems.len(),
{
    if elems.len() == 0 {
        Seq::empty()
    } else {
        traces_text(layer, elems.drop_last()) + trace_text(layer, elems.last())
    }
}

/// A DXF document of tool paths.
pub open spec fn paths_dxf_text(layer: Seq<char>, elems: Seq<ElemV>) -> Seq<char> {
    "0\nSECTION\n2\nHEADER\n9\n$ACADVER\n1\nAC1009\n0\nENDSEC\n0\nSECTION\n2\nENTITIES\n"@
        + traces_text(layer, elems) + "0\nENDSEC\n0\nEOF\n"@
}

fn put_trace(out: &mut String, layer: &str, e: &PathElem)
    ensures
        final(out)@ == old(out)@ + trace_text(layer@, e.deep_view()),
{
    let ghost start = out@;
    put(out, "0\nPOLYLINE\n8\n");
    put(out, layer);
    if e.closed {
        put(out, "\n66\n1\n70\n1\n");
    } else {
        put(out, "\n66\n1\n70\n0\n");
    }
    let ghost head = out@;
    let pts = &e.pts;
    let mut i: usize = 0;
    assert(head + trace_vertices(layer@, pts@.take(0)) =~= head);
    while i < pts.len()
        invariant
            i <= pts@.len(),
            out@ == head + trace_vertices(layer@, pts@.take(i as int)),
        decreases pts@.len() - i,
    {
        assert(pts@.take(i + 1).drop_last() =~= pts@.take(i as int));
        put(out, "0\nVERTEX\n8\n");
        put(out, layer);
        put(out, "\n10\n");
        put_fixed(out, pts[i].x as i128, 6, 6);
        put(out, "\n20\n");
        put_fixed(out, pts[i].y as i128, 6, 6);
        put(out, "\n");
        assert(out@ =~= head + trace_vertices(layer@, pts@.take(i + 1)));
        i += 1;
    }
    assert(pts@.take(i as int) =~= pts@);
    put(out, "0\nSEQEND\n");
    assert(out@ =~= start + trace_text(layer@, e.deep_view()));
}

/// Tool paths as DXF R12, on one layer: closed paths as closed polylines, open
/// ones as open polylines, so that holding tabs stay uncut.
pub fn paths_dxf_string(paths: &Paths, layer: &str) -> (doc: String)
    ensures
        doc@ == paths_dxf_text(layer@, paths.deep_view()),
{
    let ghost ev = paths.deep_view();
    let mut out = String::new();
    put(
        &mut out,
        "0\nSECTION\n2\nHEADER\n9\n$ACADVER\n1\nAC1009\n0\nENDSEC\n0\nSECTION\n2\nENTITIES\n",
    );
    let ghost start = out@;
    let mut i: usize = 0;
    assert(start + traces_text(layer@, ev.take(0)) =~= start);
    while i < paths.elems.len()
        invariant
            i <= paths.elems@.len(),
            ev == paths.deep_view(),
            out@ == start + traces_text(layer@, ev.take(i as int)),
        decreases paths.elems@.len() - i,
    {
        assert(ev.take(i + 1).drop_last() =~= ev.take(i as int));
        assert(ev[i as int] == paths.elems@[i as int].deep_view());
        put_trace(&mut out, layer, &paths.elems[i]);
        assert(out@ =~= start + traces_text(layer@, ev.take(i + 1)));
        i += 1;
    }
    assert(ev.take(i as int) =~= ev);
    put(&mut out, "0\nENDSEC\n0\nEOF\n");
    assert(out@ =~= paths_dxf_text(layer@, ev));
    out
}

/// One stroked path per tool path.
pub open spec fn strokes_text(elems: Seq<ElemV>, flip: int) -> Seq<char>
    decreases elems.len(),
{
    if elems.len() == 0 {
        Seq::empty()
    } else {
        strokes_text(elems.drop_last(), flip) + "  <path d=\""@ + pen_text(
            elems.last().pts,
            flip,
        ) + (if elems.last().closed {
            "Z"@
        } else {
            ""@
        }) + "\" fill=\"none\" stroke=\"#000\" stroke-width=\"0.05\"/>\n"@
    }
}

/// An SVG document of tool paths.
pub open spec fn paths_svg_text(elems: Seq<ElemV>) -> Seq<char> {
    let b = frame_of(elems_hull(elems));
    svg_open(b) + strokes_text(elems, b.min.y + b.max.y) + "</svg>\n"@
}

/// Tool paths as SVG: one stroke per path.
pub fn paths_svg_string(paths: &Paths) -> (doc: String)
    ensures
        doc@ == paths_svg_text(paths.deep_view()),
{
    let ghost ev = paths.deep_view();
    let b = to_frame(paths_bbox(paths));
    let flip: i128 = b.min.y as i128 + b.max.y as i128;
    let mut out = String::new();
    put_svg_open(&mut out, b);
    let ghost start = out@;
    let mut i: usize = 0;
    assert(start + strokes_text(ev.take(0), flip as int) =~= start);
    while i < paths.elems.len()
        invariant
            i <= paths.elems@.len(),
            ev == paths.deep_view(),
            is_flip(flip as int),
            out@ == start + strokes_text(ev.take(i as int), flip as int),
        decreases paths.elems@.len() - i,
    {
        assert(ev.take(i + 1).drop_last() =~= ev.take(i as int));
        assert(ev[i as int] == paths.elems@[i as int].deep_view());
        put(&mut out, "  <path d=\"");
        put_pen(&mut out, &paths.elems[i].pts, flip);
        if paths.elems[i].closed {
            put(&mut out, "Z");
        } else {
            put(&mut out, "");
        }
        put(&mut out, "\" fill=\"none\" stroke=\"#000\" stroke-width=\"0.05\"/>\n");
        assert(out@ =~= start + strokes_text(ev.take(i + 1), flip as int));
        i += 1;
    }
    assert(ev.take(i as int) =~= ev);
    put(&mut out, "</svg>\n");
    assert(out@ =~= paths_svg_text(ev));
    out
}

/// The vertices of a polyline are all of a ring, in order, in millimeters.
pub proof fn dxf_lists_every_vertex(ring: Seq<P>)
    ensures
        dxf_vertices(ring) == ring.map_values(
            |p: P| "0\nVERTEX\n8\nNONCOPPER\n10\n"@ + fixed_text(p.x as int, 6, 6) + "\n20\n"@ + fixed_text(p.y as int, 6, 6) + "\n"@,
        ).flatten_alt(),
    decreases ring.len(),
{
    let of = |p: P| "0\nVERTEX\n8\nNONCOPPER\n10\n"@ + fixed_text(p.x as int, 6, 6) + "\n20\n"@ + fixed_text(p.y as int, 6, 6) + "\n"@;
    if ring.len() > 0 {
        dxf_lists_every_vertex(ring.drop_last());
        assert(ring.map_values(of).drop_last() =~= ring.drop_last().map_values(of));
        assert(ring.map_values(of).last() == of(ring.last()));
        let before = dxf_vertices(ring.drop_last());
        let q0 = "0\nVERTEX\n8\nNONCOPPER\n10\n"@;
        let q1 = fixed_text(ring.last().x as int, 6, 6);
        let q2 = "\n20\n"@;
        let q3 = fixed_text(ring.last().y as int, 6, 6);
        let q4 = "\n"@;
        lemma_assoc(before, q0, q1);
        lemma_assoc(before, q0 + q1, q2);
        lemma_assoc(before, q0 + q1 + q2, q3);
        lemma_assoc(before, q0 + q1 + q2 + q3, q4);
    }
}

/// Every ring is drawn, in order, as one closed polyline over all its vertices.
pub proof fn dxf_draws_every_ring(rings: Seq<Seq<P>>)
    ensures
        dxf_rings(rings) == rings.map_values(
            |r: Seq<P>| "0\nPOLYLINE\n8\nNONCOPPER\n66\n1\n70\n1\n"@ + r.map_values(
                |p: P|
                    "0\nVERTEX\n8\nNONCOPPER\n10\n"@ + fixed_text(p.x as int, 6, 6) + "\n20\n"@
                        + fixed_text(p.y as int, 6, 6) + "\n"@,
            ).flatten_alt() + "0\nSEQEND\n"@,
        ).flatten_alt(),
    decreases rings.len(),
{
    let of = |r: Seq<P>| "0\nPOLYLINE\n8\nNONCOPPER\n66\n1\n70\n1\n"@ + r.map_values(
                |p: P|
                    "0\nVERTEX\n8\nNONCOPPER\n10\n"@ + fixed_text(p.x as int, 6, 6) + "\n20\n"@
                        + fixed_text(p.y as int, 6, 6) + "\n"@,
            ).flatten_alt() + "0\nSEQEND\n"@;
    if rings.len() > 0 {
        dxf_draws_every_ring(rings.drop_last());
        assert(rings.map_values(of).drop_last() =~= rings.drop_last().map_values(of));
        assert(rings.map_values(of).last() == of(rings.last()));
        let before = dxf_rings(rings.drop_last());
        let q0 = "0\nPOLYLINE\n8\nNONCOPPER\n66\n1\n70\n1\n"@;
        let q1 = dxf_vertices(rings.last());
        let q2 = "0\nSEQEND\n"@;
        dxf_lists_every_vertex(rings.last());
        lemma_assoc(before, q0, q1);
        lemma_assoc(before, q0 + q1, q2);
    }
}

/// Every tool path is drawn, in order, on its layer: open or closed as it runs, over all its points.
pub proof fn dxf_draws_every_path(layer: Seq<char>, elems: Seq<ElemV>)
    ensures
        traces_text(layer, elems) == elems.map_values(
            |e: ElemV| "0\nPOLYLINE\n8\n"@ + layer + (if e.closed {
                "\n66\n1\n70\n1\n"@
            } else {
                "\n66\n1\n70\n0\n"@
            }) + e.pts.map_values(
                |p: P|
                    "0\nVERTEX\n8\n"@ + layer + "\n10\n"@ + fixed_text(p.x as int, 6, 6) + "\n20\n"@
                        + fixed_text(p.y as int, 6, 6) + "\n"@,
            ).flatten_alt() + "0\nSEQEND\n"@,
        ).flatten_alt(),
    decreases elems.len(),
{
    let of = |e: ElemV| "0\nPOLYLINE\n8\n"@ + layer + (if e.closed {
                "\n66\n1\n70\n1\n"@
            } else {
                "\n66\n1\n70\n0\n"@
            }) + e.pts.map_values(
                |p: P|
                    "0\nVERTEX\n8\n"@ + layer + "\n10\n"@ + fixed_text(p.x as int, 6, 6) + "\n20\n"@
                        + fixed_text(p.y as int, 6, 6) + "\n"@,
            ).flatten_alt() + "0\nSEQEND\n"@;
    if elems.len() > 0 {
        dxf_draws_every_path(layer, elems.drop_last());
        assert(elems.map_values(of).drop_last() =~= elems.drop_last().map_values(of));
        assert(elems.map_values(of).last() == of(elems.last()));
        let before = traces_text(layer, elems.drop_last());
        let q0 = trace_text(layer, elems.last());
        dxf_lists_every_point(layer, elems.last().pts);
    }
}

/// The points of a tool path are all listed, in order, in millimeters.
pub proof fn dxf_lists_every_point(layer: Seq<char>, pts: Seq<P>)
    ensures
        trace_vertices(layer, pts) == pts.map_values(
            |p: P| "0\nVERTEX\n8\n"@ + layer + "\n10\n"@ + fixed_text(p.x as int, 6, 6) + "\n20\n"@ + fixed_text(p.y as int, 6, 6) + "\n"@,
        ).flatten_alt(),
    decreases pts.len(),
{
    let of = |p: P| "0\nVERTEX\n8\n"@ + layer + "\n10\n"@ + fixed_text(p.x as int, 6, 6) + "\n20\n"@ + fixed_text(p.y as int, 6, 6) + "\n"@;
    if pts.len() > 0 {
        dxf_lists_every_point(layer, pts.drop_last());
        assert(pts.map_values(of).drop_last() =~= pts.drop_last().map_values(of));
        assert(pts.map_values(of).last() == of(pts.last()));
        let before = trace_vertices(layer, pts.drop_last());
        let q0 = "0\nVERTEX\n8\n"@;
        let q1 = layer;
        let q2 = "\n10\n"@;
        let q3 = fixed_text(pts.last().x as int, 6, 6);
        let q4 = "\n20\n"@;
        let q5 = fixed_text(pts.last().y as int, 6, 6);
        let q6 = "\n"@;
        lemma_assoc(before, q0, q1);
        lemma_assoc(before, q0 + q1, q2);
        lemma_assoc(before, q0 + q1 + q2, q3);
        lemma_assoc(before, q0 + q1 + q2 + q3, q4);
        lemma_assoc(before, q0 + q1 + q2 + q3 + q4, q5);
        lemma_assoc(before, q0 + q1 + q2 + q3 + q4 + q5, q6);
    }
}

/// The pen goes to the first vertex of a ring and draws on to each of the others,
/// in order, with y turned over.
pub proof fn pen_follows_the_ring(ring: Seq<P>, flip: int)
    ensures
        pen_text(ring, flip) == Seq::new(
            ring.len(),
            |i: int|
                (if i == 0 {
                    "M"@
                } else {
                    "L"@
                }) + fixed_text(ring[i].x as int, 6, 6) + " "@ + fixed_text(flip - ring[i].y, 6, 6),
        ).flatten_alt(),
    decreases ring.len(),
{
    let n = ring.len();
    let of = |i: int|
        (if i == 0 {
            "M"@
        } else {
            "L"@
        }) + fixed_text(ring[i].x as int, 6, 6) + " "@ + fixed_text(flip - ring[i].y, 6, 6);
    if n > 0 {
        let r = ring.drop_last();
        pen_follows_the_ring(r, flip);
        let same = |i: int|
            (if i == 0 {
                "M"@
            } else {
                "L"@
            }) + fixed_text(r[i].x as int, 6, 6) + " "@ + fixed_text(flip - r[i].y, 6, 6);
        assert(Seq::new(n, of).drop_last() =~= Seq::new(r.len(), same));
        assert(Seq::new(n, of).last() == of(n - 1));
        let before = pen_text(r, flip);
        let q0 = if n == 1 {
            "M"@
        } else {
            "L"@
        };
        let q1 = fixed_text(ring.last().x as int, 6, 6);
        let q2 = " "@;
        let q3 = fixed_text(flip - ring.last().y, 6, 6);
        lemma_assoc(before, q0, q1);
        lemma_assoc(before, q0 + q1, q2);
        lemma_assoc(before, q0 + q1 + q2, q3);
    }
}

/// Every ring of a path is drawn and closed, in order.
pub proof fn subpaths_draw_every_ring(rings: Seq<Seq<P>>, flip: int)
    ensures
        subpaths_text(rings, flip) == rings.map_values(
            |r: Seq<P>| pen_text(r, flip) + "Z"@,
        ).flatten_alt(),
    decreases rings.len(),
{
    let of = |r: Seq<P>| pen_text(r, flip) + "Z"@;
    if rings.len() > 0 {
        subpaths_draw_every_ring(rings.drop_last(), flip);
        assert(rings.map_values(of).drop_last() =~= rings.drop_last().map_values(of));
        assert(rings.map_values(of).last() == of(rings.last()));
        let before = subpaths_text(rings.drop_last(), flip);
        let q0 = pen_text(rings.last(), flip);
        let q1 = "Z"@;
        lemma_assoc(before, q0, q1);
    }
}

/// Every polygon is drawn, in order, as one path over its outer ring and all its holes.
pub proof fn svg_draws_every_polygon(polys: Seq<PolyV>, style: Seq<char>, flip: int)
    ensures
        paths_text(polys, style, flip) == polys.map_values(
            |p: PolyV| "  <path d=\""@ + (seq![p.outer] + p.holes).map_values(
                |r: Seq<P>| pen_text(r, flip) + "Z"@,
            ).flatten_alt() + "\""@ + style + "/>\n"@,
        ).flatten_alt(),
    decreases polys.len(),
{
    let of = |p: PolyV| "  <path d=\""@ + (seq![p.outer] + p.holes).map_values(
                |r: Seq<P>| pen_text(r, flip) + "Z"@,
            ).flatten_alt() + "\""@ + style + "/>\n"@;
    if polys.len() > 0 {
        svg_draws_every_polygon(polys.drop_last(), style, flip);
        assert(polys.map_values(of).drop_last() =~= polys.drop_last().map_values(of));
        assert(polys.map_values(of).last() == of(polys.last()));
        let before = paths_text(polys.drop_last(), style, flip);
        let q0 = "  <path d=\""@;
        let q1 = path_text(polys.last(), flip);
        let q2 = "\""@;
        let q3 = style;
        let q4 = "/>\n"@;
        subpaths_draw_every_ring(seq![polys.last().outer] + polys.last().holes, flip);
        lemma_assoc(before, q0, q1);
        lemma_assoc(before, q0 + q1, q2);
        lemma_assoc(before, q0 + q1 + q2, q3);
        lemma_assoc(before, q0 + q1 + q2 + q3, q4);
    }
}

/// Every tool path is stroked, in order, and closed if it is.
pub proof fn svg_strokes_every_path(elems: Seq<ElemV>, flip: int)
    ensures
        strokes_text(elems, flip) == elems.map_values(
            |e: ElemV| "  <path d=\""@ + pen_text(e.pts, flip) + (if e.closed {
                "Z"@
            } else {
                ""@
            }) + "\" fill=\"none\" stroke=\"#000\" stroke-width=\"0.05\"/>\n"@,
        ).flatten_alt(),
    decreases elems.len(),
{
    let of = |e: ElemV| "  <path d=\""@ + pen_text(e.pts, flip) + (if e.closed {
                "Z"@
            } else {
                ""@
            }) + "\" fill=\"none\" stroke=\"#000\" stroke-width=\"0.05\"/>\n"@;
    if elems.len() > 0 {
        svg_strokes_every_path(elems.drop_last(), flip);
        assert(elems.map_values(of).drop_last() =~= elems.drop_last().map_values(of));
        assert(elems.map_values(of).last() == of(elems.last()));
        let before = strokes_text(elems.drop_last(), flip);
        let q0 = "  <path d=\""@;
        let q1 = pen_text(elems.last().pts, flip);
        let q2 = (if elems.last().closed { "Z"@ } else { ""@ });
        let q3 = "\" fill=\"none\" stroke=\"#000\" stroke-width=\"0.05\"/>\n"@;
        lemma_assoc(before, q0, q1);
        lemma_assoc(before, q0 + q1, q2);
        lemma_assoc(before, q0 + q1 + q2, q3);
    }
}

/// Turned over for the screen, a drawing stays where it is: every vertex of a
/// region lies within the box of the drawing, at the height it had from the other
/// side.
pub proof fn flipped_drawings_stay_in_their_frame(polys: Seq<PolyV>, i: int, p: P)
    requires
        0 <= i < polys.len(),
        polys[i].outer.contains(p) || exists|k: int|
            0 <= k < polys[i].holes.len() && (#[trigger] polys[i].holes[k]).contains(p),
    ensures
        ({
            let b = frame_of(polys_hull(polys));
            let y = b.min.y + b.max.y - p.y;
            &&& b.min.x <= p.x <= b.max.x
            &&& b.min.y <= y <= b.max.y
            &&& y - b.min.y == b.max.y - p.y
        }),
{
    polys_hull_covers(polys);
    if polys_hull(polys) is None {
        polys_without_box_are_empty(polys, i);
        if polys[i].outer.contains(p) {
            assert(false);
        } else {
            let k = choose|k: int|
                0 <= k < polys[i].holes.len() && (#[trigger] polys[i].holes[k]).contains(p);
            assert(polys[i].holes[k].len() == 0);
        }
    } else {
        let b = polys_hull(polys)->0;
        assert(covers_poly(b, polys[i]));
        if polys[i].outer.contains(p) {
            let j = choose|j: int| 0 <= j < polys[i].outer.len() && polys[i].outer[j] == p;
            assert(b.contains(polys[i].outer[j]));
        } else {
            let k = choose|k: int|
                0 <= k < polys[i].holes.len() && (#[trigger] polys[i].holes[k]).contains(p);
            let h = polys[i].holes[k];
            assert(covers(b, h));
            let j = choose|j: int| 0 <= j < h.len() && h[j] == p;
            assert(b.contains(h[j]));
        }
    }
}

/// A preview shows the board in front of nothing, what is ablated on the board,
/// and the copper on top, all of it turned over about the same line.
pub proof fn previews_show_all_three(board: Seq<PolyV>, copper: Seq<PolyV>, ablate: Seq<PolyV>)
    ensures
        ({
            let b = frame_of(polys_hull_from(polys_hull_from(polys_hull(board), copper), ablate));
            let flip = b.min.y + b.max.y;
            let x = paths_text(
                board,
                " fill=\"#e8ddc8\" fill-opacity=\"1\" fill-rule=\"evenodd\""@,
                flip,
            );
            let y = paths_text(
                ablate,
                " fill=\"#333333\" fill-opacity=\"1\" fill-rule=\"evenodd\""@,
                flip,
            );
            let z = paths_text(
                copper,
                " fill=\"#b87333\" fill-opacity=\"1\" fill-rule=\"evenodd\""@,
                flip,
            );
            holds(preview_text(board, copper, ablate), x + y + z)
        }),
{
    let b = frame_of(polys_hull_from(polys_hull_from(polys_hull(board), copper), ablate));
    let flip = b.min.y + b.max.y;
    let x = paths_text(
        board,
        " fill=\"#e8ddc8\" fill-opacity=\"1\" fill-rule=\"evenodd\""@,
        flip,
    );
    let y = paths_text(
        ablate,
        " fill=\"#333333\" fill-opacity=\"1\" fill-rule=\"evenodd\""@,
        flip,
    );
    let z = paths_text(
        copper,
        " fill=\"#b87333\" fill-opacity=\"1\" fill-rule=\"evenodd\""@,
        flip,
    );
    let h = svg_open(b);
    lemma_assoc(h, x, y);
    lemma_assoc(h, x + y, z);
    lemma_holds_in(h, x + y + z, x + y + z);
    lemma_holds_in(h + (x + y + z), "</svg>\n"@, x + y + z);
}

/// A drawing opens with the frame of its box: from its corner, as wide and as high
/// as the box, and at least a micrometer.
pub proof fn frames_show_the_whole_box(b: Bounds)
    ensures
        ({
            let (dx, dy) = (b.max.x - b.min.x, b.max.y - b.min.y);
            let w = mm_short(if dx > 1_000 {
                dx
            } else {
                1_000
            });
            let h = mm_short(if dy > 1_000 {
                dy
            } else {
                1_000
            });
            svg_open(b) == "<svg xmlns=\"http://www.w3.org/2000/svg\" width=\""@ + w
                + "mm\" height=\""@ + h + "mm\" viewBox=\""@ + mm_short(b.min.x as int) + " "@
                + mm_short(b.min.y as int) + " "@ + w + " "@ + h + "\">\n"@
        }),
{
}

} // verus!
