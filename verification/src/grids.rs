//! Calibration grids: burned, printed, and fiducial holes.
use vstd::prelude::*;
use crate::model::{lemma_ring_view, Nm, Poly, PolyV, Ring, P};
use crate::num::{div_round_nearest, lemma_nearest_bounds, nearest, nearest_is_close};
use crate::text::{
    holds, lemma_holds_in, mm_short, numeral, put, put_mm_short, put_numeral, put_unit, unit_text,
};

verus! {

broadcast use lemma_ring_view;

/// Magnitude of the origins and extents that grids take.
pub const GRID_LIMIT_NM: i64 = 0x1000_0000_0000_0000;

/// Half of a length, rounded to nearest.
pub open spec fn half_of(v: int) -> int {
    nearest(v, 2)
}

fn to_half(v: i128) -> (h: i128)
    requires
        -0x1_0000_0000_0000_0000 <= v <= 0x1_0000_0000_0000_0000,
    ensures
        h == half_of(v as int),
        -0x8000_0000_0000_0001 <= h <= 0x8000_0000_0000_0001,
{
    proof {
        lemma_nearest_bounds(v as int, 2, -0x8000_0000_0000_0001, 0x8000_0000_0000_0001);
    }
    div_round_nearest(v, 2)
}

/// A square around a center, counter-clockwise.
pub open spec fn square(cx: int, cy: int, half: int) -> PolyV {
    PolyV {
        outer: seq![
            P { x: (cx - half) as i64, y: (cy - half) as i64 },
            P { x: (cx + half) as i64, y: (cy - half) as i64 },
            P { x: (cx + half) as i64, y: (cy + half) as i64 },
            P { x: (cx - half) as i64, y: (cy + half) as i64 },
        ],
        holes: Seq::empty(),
    }
}

/// A point far enough from the end of the coordinates to draw around it.
pub open spec fn drawable(cx: int, cy: int, half: int) -> bool {
    &&& -0x6000_0000_0000_0000 <= cx <= 0x6000_0000_0000_0000
    &&& -0x6000_0000_0000_0000 <= cy <= 0x6000_0000_0000_0000
    &&& 0 <= half <= 0x1000_0000_0000_0000
}

fn push_square(out: &mut Vec<Poly>, cx: i128, cy: i128, half: i128)
    requires
        drawable(cx as int, cy as int, half as int),
    ensures
        final(out).deep_view() == old(out).deep_view().push(square(cx as int, cy as int, half as int)),
{
    let ghost before = out.deep_view();
    let x0: i64 = (cx - half) as i64;
    let x1: i64 = (cx + half) as i64;
    let y0: i64 = (cy - half) as i64;
    let y1: i64 = (cy + half) as i64;
    let mut outer: Ring = Vec::new();
    outer.push(P { x: x0, y: y0 });
    outer.push(P { x: x1, y: y0 });
    outer.push(P { x: x1, y: y1 });
    outer.push(P { x: x0, y: y1 });
    let holes: Vec<Ring> = Vec::new();
    let p = Poly { outer, holes };
    assert(p.deep_view().outer =~= square(cx as int, cy as int, half as int).outer);
    assert(p.deep_view().holes =~= Seq::<Seq<P>>::empty());
    assert(p.deep_view() == square(cx as int, cy as int, half as int));
    out.push(p);
    assert(out.deep_view() =~= before.push(square(cx as int, cy as int, half as int)));
}

/// The first `n` dots of a row.
pub open spec fn row_of_dots(ox: int, y: int, pitch: int, half: int, n: nat) -> Seq<PolyV>
    decreases n,
{
    if n == 0 {
        Seq::empty()
    } else {
        row_of_dots(ox, y, pitch, half, (n - 1) as nat).push(
            square(ox + (n - 1) * pitch, y, half),
        )
    }
}

/// The first `rows` rows of a lattice of `n` columns.
pub open spec fn lattice(
    ox: int,
    oy: int,
    pitch: int,
    half: int,
    n: nat,
    rows: nat,
) -> Seq<PolyV>
    decreases rows,
{
    if rows == 0 {
        Seq::empty()
    } else {
        lattice(ox, oy, pitch, half, n, (rows - 1) as nat) + row_of_dots(
            ox,
            oy + (rows - 1) * pitch,
            pitch,
            half,
            n,
        )
    }
}

/// The burned grid: a square lattice and two marks off it that break its
/// mirror symmetry, one outside the lower left corner and one below the middle
/// of the lowest row, both half a pitch away.
pub open spec fn burn_grid(n: nat, pitch: int, ox: int, oy: int, dot: int) -> Seq<PolyV> {
    let half = half_of(dot);
    lattice(ox, oy, pitch, half, n, n).push(
        square(half_of(2 * ox - pitch), half_of(2 * oy - pitch), half),
    ).push(square(half_of(2 * ox + (n - 1) * pitch), half_of(2 * oy - pitch), half))
}

/// A grid within the coordinates.
pub open spec fn grid_fits(n: nat, pitch: int, ox: int, oy: int, dot: int) -> bool {
    &&& 1 <= n
    &&& 0 <= pitch
    &&& n * pitch <= GRID_LIMIT_NM
    &&& -GRID_LIMIT_NM <= ox <= GRID_LIMIT_NM
    &&& -GRID_LIMIT_NM <= oy <= GRID_LIMIT_NM
    &&& 0 <= dot <= GRID_LIMIT_NM
}

proof fn lemma_step_fits(k: int, n: int, pitch: int)
    requires
        0 <= k <= n,
        0 <= pitch,
        n * pitch <= GRID_LIMIT_NM,
    ensures
        0 <= k * pitch <= GRID_LIMIT_NM,
{
    assert(0 <= k * pitch <= n * pitch) by (nonlinear_arith)
        requires
            0 <= k <= n,
            0 <= pitch,
    ;
}

fn push_row(out: &mut Vec<Poly>, ox: i128, y: i128, pitch: i128, half: i128, n: usize)
    requires
        0 <= pitch,
        n * pitch <= GRID_LIMIT_NM,
        -GRID_LIMIT_NM <= ox <= GRID_LIMIT_NM,
        -2 * GRID_LIMIT_NM <= y <= 2 * GRID_LIMIT_NM,
        0 <= half <= GRID_LIMIT_NM,
    ensures
        final(out).deep_view() == old(out).deep_view() + row_of_dots(
            ox as int,
            y as int,
            pitch as int,
            half as int,
            n as nat,
        ),
{
    let ghost start = out.deep_view();
    let mut k: usize = 0;
    assert(start + row_of_dots(ox as int, y as int, pitch as int, half as int, 0) =~= start);
    while k < n
        invariant
            k <= n,
            0 <= pitch,
            n * pitch <= GRID_LIMIT_NM,
            -GRID_LIMIT_NM <= ox <= GRID_LIMIT_NM,
            -2 * GRID_LIMIT_NM <= y <= 2 * GRID_LIMIT_NM,
            0 <= half <= GRID_LIMIT_NM,
            out.deep_view() == start + row_of_dots(
                ox as int,
                y as int,
                pitch as int,
                half as int,
                k as nat,
            ),
        decreases n - k,
    {
        proof {
            lemma_step_fits(k as int, n as int, pitch as int);
        }
        push_square(out, ox + (k as i128) * pitch, y, half);
        assert(out.deep_view() =~= start + row_of_dots(
            ox as int,
            y as int,
            pitch as int,
            half as int,
            (k + 1) as nat,
        ));
        k += 1;
    }
}

/// The calibration grid to burn.
pub fn calib_grid_dots(n: usize, pitch_nm: Nm, ox: Nm, oy: Nm, dot_nm: Nm) -> (dots: Vec<Poly>)
    requires
        grid_fits(n as nat, pitch_nm as int, ox as int, oy as int, dot_nm as int),
    ensures
        dots.deep_view() == burn_grid(
            n as nat,
            pitch_nm as int,
            ox as int,
            oy as int,
            dot_nm as int,
        ),
{
    let pitch: i128 = pitch_nm as i128;
    let half: i128 = to_half(dot_nm as i128);
    proof {
        lemma_nearest_bounds(dot_nm as int, 2, 0, GRID_LIMIT_NM as int);
    }
    let mut dots: Vec<Poly> = Vec::new();
    let mut row: usize = 0;
    assert(dots.deep_view() =~= lattice(
        ox as int,
        oy as int,
        pitch as int,
        half as int,
        n as nat,
        0,
    ));
    while row < n
        invariant
            row <= n,
            grid_fits(n as nat, pitch_nm as int, ox as int, oy as int, dot_nm as int),
            pitch == pitch_nm,
            0 <= half <= GRID_LIMIT_NM,
            dots.deep_view() == lattice(
                ox as int,
                oy as int,
                pitch as int,
                half as int,
                n as nat,
                row as nat,
            ),
        decreases n - row,
    {
        proof {
            lemma_step_fits(row as int, n as int, pitch as int);
        }
        push_row(&mut dots, ox as i128, oy as i128 + (row as i128) * pitch, pitch, half, n);
        row += 1;
    }
    proof {
        lemma_step_fits(n - 1, n as int, pitch as int);
        lemma_step_fits(1, n as int, pitch as int);
        assert(1 * pitch == pitch);
        let m = 0x2000_0000_0000_0000int;
        lemma_nearest_bounds(2 * ox - pitch, 2, -m, m);
        lemma_nearest_bounds(2 * oy - pitch, 2, -m, m);
        lemma_nearest_bounds(2 * ox + (n - 1) * pitch, 2, -m, m);
    }
    let below: i128 = to_half(2 * oy as i128 - pitch);
    let left: i128 = to_half(2 * ox as i128 - pitch);
    let middle: i128 = to_half(2 * ox as i128 + (n as i128 - 1) * pitch);
    push_square(&mut dots, left, below, half);
    push_square(&mut dots, middle, below, half);
    dots
}

/// The burned grid has one dot per lattice point and two marks.
pub proof fn burn_grid_is_complete(n: nat, pitch: int, ox: int, oy: int, dot: int)
    ensures
        burn_grid(n, pitch, ox, oy, dot).len() == n * n + 2,
{
    lemma_lattice_len(ox, oy, pitch, half_of(dot), n, n);
}

proof fn lemma_row_len(ox: int, y: int, pitch: int, half: int, n: nat)
    ensures
        row_of_dots(ox, y, pitch, half, n).len() == n,
    decreases n,
{
    if n > 0 {
        lemma_row_len(ox, y, pitch, half, (n - 1) as nat);
    }
}

proof fn lemma_lattice_len(ox: int, oy: int, pitch: int, half: int, n: nat, rows: nat)
    ensures
        lattice(ox, oy, pitch, half, n, rows).len() == rows * n,
    decreases rows,
{
    if rows > 0 {
        lemma_lattice_len(ox, oy, pitch, half, n, (rows - 1) as nat);
        lemma_row_len(ox, oy + (rows - 1) * pitch, pitch, half, n);
        assert(rows * n == (rows - 1) * n + n) by (nonlinear_arith)
            requires
                rows > 0,
        ;
    } else {
        assert(rows * n == 0) by (nonlinear_arith)
            requires
                rows == 0,
        ;
    }
}

// ---------------------------------------------------------------------------
// Fiducial holes
// ---------------------------------------------------------------------------

/// A rectangle of width `w` and height `h` around a center, counter-clockwise.
pub open spec fn rect_hole(c: P, w: int, h: int) -> PolyV {
    let x0 = half_of(2 * c.x - w) as i64;
    let x1 = half_of(2 * c.x + w) as i64;
    let y0 = half_of(2 * c.y - h) as i64;
    let y1 = half_of(2 * c.y + h) as i64;
    PolyV {
        outer: seq![
            P { x: x0, y: y0 },
            P { x: x1, y: y0 },
            P { x: x1, y: y1 },
            P { x: x0, y: y1 },
        ],
        holes: Seq::empty(),
    }
}

pub open spec fn hole_fits(c: P) -> bool {
    -GRID_LIMIT_NM <= c.x <= GRID_LIMIT_NM && -GRID_LIMIT_NM <= c.y <= GRID_LIMIT_NM
}

fn corner(v: i64, by: i64) -> (r: i64)
    requires
        -GRID_LIMIT_NM <= v <= GRID_LIMIT_NM,
        -GRID_LIMIT_NM <= by <= GRID_LIMIT_NM,
    ensures
        r == half_of(2 * v + by) as i64,
{
    proof {
        let m = 0x2000_0000_0000_0000int;
        lemma_nearest_bounds(2 * v + by, 2, -m, m);
    }
    to_half(2 * v as i128 + by as i128) as i64
}

/// One rectangular hole per position.
pub fn rect_holes(positions: &Vec<P>, w_nm: Nm, h_nm: Nm) -> (holes: Vec<Poly>)
    requires
        0 <= w_nm <= GRID_LIMIT_NM,
        0 <= h_nm <= GRID_LIMIT_NM,
        forall|i: int| 0 <= i < positions@.len() ==> hole_fits(#[trigger] positions@[i]),
    ensures
        holes.deep_view() == positions@.map_values(|c: P| rect_hole(c, w_nm as int, h_nm as int)),
{
    let ghost all = positions@.map_values(|c: P| rect_hole(c, w_nm as int, h_nm as int));
    let mut holes: Vec<Poly> = Vec::new();
    let mut i: usize = 0;
    assert(holes.deep_view() =~= all.take(0));
    while i < positions.len()
        invariant
            i <= positions@.len(),
            0 <= w_nm <= GRID_LIMIT_NM,
            0 <= h_nm <= GRID_LIMIT_NM,
            forall|k: int| 0 <= k < positions@.len() ==> hole_fits(#[trigger] positions@[k]),
            all == positions@.map_values(|c: P| rect_hole(c, w_nm as int, h_nm as int)),
            holes.deep_view() == all.take(i as int),
        decreases positions@.len() - i,
    {
        let ghost before = holes.deep_view();
        let c = positions[i];
        assert(hole_fits(positions@[i as int]));
        let x0: i64 = corner(c.x, -w_nm);
        let x1: i64 = corner(c.x, w_nm);
        let y0: i64 = corner(c.y, -h_nm);
        let y1: i64 = corner(c.y, h_nm);
        let mut outer: Ring = Vec::new();
        outer.push(P { x: x0, y: y0 });
        outer.push(P { x: x1, y: y0 });
        outer.push(P { x: x1, y: y1 });
        outer.push(P { x: x0, y: y1 });
        let p = Poly { outer, holes: Vec::new() };
        let ghost view = rect_hole(c, w_nm as int, h_nm as int);
        assert(p.deep_view().outer =~= view.outer);
        assert(p.deep_view().holes =~= view.holes);
        holes.push(p);
        assert(all[i as int] == view);
        assert(holes.deep_view() =~= before.push(view));
        assert(holes.deep_view() =~= all.take(i + 1));
        i += 1;
    }
    assert(all.take(i as int) =~= all);
    holes
}

// ---------------------------------------------------------------------------
// The printed grid
// ---------------------------------------------------------------------------

/// Largest span that fits the printable width.
pub const PAPER_MAX_SPAN_NM: i64 = 190_000_000;

/// A length in half nanometers, in millimeters with four decimals.
pub open spec fn mm4(half_nm: int) -> Seq<char> {
    unit_text(half_nm, 200, 4)
}

fn put_mm4(out: &mut String, half_nm: i128)
    requires
        half_nm != i128::MIN,
    ensures
        final(out)@ == old(out)@ + mm4(half_nm as int),
{
    put_unit(out, half_nm, 200, 4);
}

/// One dot of the printed grid.
pub open spec fn circle_text(cx: int, cy: int, dot: int) -> Seq<char> {
    "<circle cx=\""@ + mm4(cx) + "\" cy=\""@ + mm4(cy) + "\" r=\""@ + mm4(dot) + "\"/>\n"@
}

/// Where the leftmost column stands, in half nanometers: the lattice is
/// centered on the page.
pub open spec fn left_edge(span: int) -> int {
    210_000_000 - span
}

pub open spec fn circles_text(span: int, pitch: int, dot: int, row: int, n: nat) -> Seq<char>
    decreases n,
{
    if n == 0 {
        Seq::empty()
    } else {
        circles_text(span, pitch, dot, row, (n - 1) as nat) + circle_text(
            left_edge(span) + 2 * ((n - 1) * pitch),
            120_000_000 + 2 * (row * pitch),
            dot,
        )
    }
}

pub open spec fn rows_text(span: int, pitch: int, dot: int, n: nat, rows: nat) -> Seq<char>
    decreases rows,
{
    if rows == 0 {
        Seq::empty()
    } else {
        rows_text(span, pitch, dot, n, (rows - 1) as nat) + circles_text(
            span,
            pitch,
            dot,
            rows - 1,
            n,
        )
    }
}

/// What stands above the dots.
pub open spec fn page_text(n: nat, pitch: int, dot: int) -> Seq<char> {
    "<svg xmlns=\"http://www.w3.org/2000/svg\" width=\"210mm\" height=\"297mm\" viewBox=\"0 0 210 297\">\n<rect x=\"0\" y=\"0\" width=\"210\" height=\"297\" fill=\"#fff\"/>\n<text x=\"105\" y=\"30\" text-anchor=\"middle\" font-family=\"sans-serif\" font-size=\"4.5\" fill=\"#000\">PCBForge camera-lens paper grid</text>\n<text x=\"105\" y=\"38\" text-anchor=\"middle\" font-family=\"sans-serif\" font-size=\"3.2\" fill=\"#000\">print at 100% / Actual size \u{2014} never fit-to-page</text>\n<text x=\"105\" y=\"44\" text-anchor=\"middle\" font-family=\"sans-serif\" font-size=\"3.2\" fill=\"#000\">measured pitch = outermost dot-centre span \u{f7} (n\u{2212}1) \u{2014} enter this as step-1 measured pitch</text>\n<text x=\"105\" y=\"50\" text-anchor=\"middle\" font-family=\"sans-serif\" font-size=\"3.0\" fill=\"#000\">"@
        + numeral(n, 10) + "\u{d7}"@ + numeral(n, 10) + " dots \u{b7} nominal pitch "@ + mm_short(
        pitch,
    ) + " mm \u{b7} dot \u{2300} "@ + mm_short(dot) + " mm</text>\n<g fill=\"#000\">\n"@
}

/// A tick of the caliper bar at `x`, four millimeters to both sides of it.
pub open spec fn tick_text(x: Seq<char>, bar: int) -> Seq<char> {
    "<line class=\"caliper-tick\" x1=\""@ + x + "\" y1=\""@ + mm4(bar - 8_000_000) + "\" x2=\""@ + x
        + "\" y2=\""@ + mm4(bar + 8_000_000) + "\" stroke=\"#000\" stroke-width=\"0.3\"/>\n"@
}

/// The caliper bar: two ticks a hundred millimeters apart, twenty millimeters
/// below the lattice.
pub open spec fn caliper_text(bar: int) -> Seq<char> {
    "</g>\n<line x1=\"55.0000\" y1=\""@ + mm4(bar) + "\" x2=\"155.0000\" y2=\""@ + mm4(bar)
        + "\" stroke=\"#000\" stroke-width=\"0.3\"/>\n"@ + tick_text("55.0000"@, bar) + tick_text(
        "155.0000"@,
        bar,
    ) + "<text x=\"105\" y=\""@ + mm4(bar + 16_000_000)
        + "\" text-anchor=\"middle\" font-family=\"sans-serif\" font-size=\"3.2\" fill=\"#000\">tick centres = 100.00 mm \u{2014} verify the print is at true scale</text>\n</svg>\n"@
}

/// The caliper bar's height on the page, in half nanometers.
pub open spec fn bar_at(span: int, dot: int) -> int {
    160_000_000 + 2 * span + dot
}

/// The printed grid.
pub open spec fn paper_text(n: nat, pitch: int, dot: int) -> Seq<char> {
    let span = (n - 1) * pitch;
    page_text(n, pitch, dot) + rows_text(span, pitch, dot, n, n) + caliper_text(bar_at(span, dot))
}

/// Why a grid is not printed; nothing if it is.
pub open spec fn paper_fault(n: nat, pitch: int, dot: int) -> Option<Seq<char>> {
    if n < 2 {
        Some("--n must be at least 2"@)
    } else if pitch <= 0 || dot <= 0 {
        Some("--pitch-mm and --dot-mm must be positive"@)
    } else if (n - 1) * pitch > PAPER_MAX_SPAN_NM {
        Some(
            "requested span (n\u{2212}1)\u{b7}pitch = "@ + mm_short((n - 1) * pitch)
                + " mm exceeds the 190 mm printable width \u{2014} reduce --n or --pitch-mm"@,
        )
    } else {
        None
    }
}

fn put_circle(out: &mut String, cx: i128, cy: i128, dot: i128)
    requires
        cx != i128::MIN,
        cy != i128::MIN,
        dot != i128::MIN,
    ensures
        final(out)@ == old(out)@ + circle_text(cx as int, cy as int, dot as int),
{
    let ghost start = out@;
    put(out, "<circle cx=\"");
    put_mm4(out, cx);
    put(out, "\" cy=\"");
    put_mm4(out, cy);
    put(out, "\" r=\"");
    put_mm4(out, dot);
    put(out, "\"/>\n");
    assert(out@ =~= start + circle_text(cx as int, cy as int, dot as int));
}

proof fn lemma_paper_step(k: int, n: int, pitch: int)
    requires
        0 <= k < n,
        0 < pitch,
        (n - 1) * pitch <= PAPER_MAX_SPAN_NM,
    ensures
        0 <= k * pitch <= PAPER_MAX_SPAN_NM,
{
    assert(0 <= k * pitch <= (n - 1) * pitch) by (nonlinear_arith)
        requires
            0 <= k < n,
            0 < pitch,
    ;
}

fn put_circles(out: &mut String, span: i128, pitch: i128, dot: i128, row: usize, n: usize)
    requires
        row < n,
        0 < pitch,
        span == (n - 1) * pitch,
        span <= PAPER_MAX_SPAN_NM,
        0 < dot <= i64::MAX,
    ensures
        final(out)@ == old(out)@ + circles_text(
            span as int,
            pitch as int,
            dot as int,
            row as int,
            n as nat,
        ),
{
    let ghost start = out@;
    let mut k: usize = 0;
    assert(start + circles_text(span as int, pitch as int, dot as int, row as int, 0) =~= start);
    proof {
        lemma_paper_step(row as int, n as int, pitch as int);
    }
    let y: i128 = 120_000_000 + 2 * ((row as i128) * pitch);
    while k < n
        invariant
            k <= n,
            row < n,
            0 < pitch,
            span == (n - 1) * pitch,
            0 <= span <= PAPER_MAX_SPAN_NM,
            0 < dot <= i64::MAX,
            y == 120_000_000 + 2 * (row * pitch),
            out@ == start + circles_text(
                span as int,
                pitch as int,
                dot as int,
                row as int,
                k as nat,
            ),
        decreases n - k,
    {
        proof {
            lemma_paper_step(k as int, n as int, pitch as int);
        }
        put_circle(out, 210_000_000 - span + 2 * ((k as i128) * pitch), y, dot);
        assert(out@ =~= start + circles_text(
            span as int,
            pitch as int,
            dot as int,
            row as int,
            (k + 1) as nat,
        ));
        k += 1;
    }
}

fn put_page(out: &mut String, n: usize, pitch: i128, dot: i128)
    requires
        pitch != i128::MIN,
        dot != i128::MIN,
    ensures
        final(out)@ == old(out)@ + page_text(n as nat, pitch as int, dot as int),
{
    let ghost start = out@;
    put(
        out,
        "<svg xmlns=\"http://www.w3.org/2000/svg\" width=\"210mm\" height=\"297mm\" viewBox=\"0 0 210 297\">\n<rect x=\"0\" y=\"0\" width=\"210\" height=\"297\" fill=\"#fff\"/>\n<text x=\"105\" y=\"30\" text-anchor=\"middle\" font-family=\"sans-serif\" font-size=\"4.5\" fill=\"#000\">PCBForge camera-lens paper grid</text>\n<text x=\"105\" y=\"38\" text-anchor=\"middle\" font-family=\"sans-serif\" font-size=\"3.2\" fill=\"#000\">print at 100% / Actual size \u{2014} never fit-to-page</text>\n<text x=\"105\" y=\"44\" text-anchor=\"middle\" font-family=\"sans-serif\" font-size=\"3.2\" fill=\"#000\">measured pitch = outermost dot-centre span \u{f7} (n\u{2212}1) \u{2014} enter this as step-1 measured pitch</text>\n<text x=\"105\" y=\"50\" text-anchor=\"middle\" font-family=\"sans-serif\" font-size=\"3.0\" fill=\"#000\">",
    );
    put_numeral(out, n as u128, 10);
    put(out, "\u{d7}");
    put_numeral(out, n as u128, 10);
    put(out, " dots \u{b7} nominal pitch ");
    put_mm_short(out, pitch);
    put(out, " mm \u{b7} dot \u{2300} ");
    put_mm_short(out, dot);
    put(out, " mm</text>\n<g fill=\"#000\">\n");
    assert(out@ =~= start + page_text(n as nat, pitch as int, dot as int));
}

fn put_tick(out: &mut String, x: &str, bar: i128)
    requires
        -0x1_0000_0000_0000_0000 <= bar <= 0x1_0000_0000_0000_0000,
    ensures
        final(out)@ == old(out)@ + tick_text(x@, bar as int),
{
    let ghost start = out@;
    put(out, "<line class=\"caliper-tick\" x1=\"");
    put(out, x);
    put(out, "\" y1=\"");
    put_mm4(out, bar - 8_000_000);
    put(out, "\" x2=\"");
    put(out, x);
    put(out, "\" y2=\"");
    put_mm4(out, bar + 8_000_000);
    put(out, "\" stroke=\"#000\" stroke-width=\"0.3\"/>\n");
    assert(out@ =~= start + tick_text(x@, bar as int));
}

fn put_caliper(out: &mut String, bar: i128)
    requires
        -0x1_0000_0000_0000_0000 <= bar <= 0x1_0000_0000_0000_0000,
    ensures
        final(out)@ == old(out)@ + caliper_text(bar as int),
{
    let ghost start = out@;
    put(out, "</g>\n<line x1=\"55.0000\" y1=\"");
    put_mm4(out, bar);
    put(out, "\" x2=\"155.0000\" y2=\"");
    put_mm4(out, bar);
    put(out, "\" stroke=\"#000\" stroke-width=\"0.3\"/>\n");
    put_tick(out, "55.0000", bar);
    put_tick(out, "155.0000", bar);
    put(out, "<text x=\"105\" y=\"");
    put_mm4(out, bar + 16_000_000);
    put(
        out,
        "\" text-anchor=\"middle\" font-family=\"sans-serif\" font-size=\"3.2\" fill=\"#000\">tick centres = 100.00 mm \u{2014} verify the print is at true scale</text>\n</svg>\n",
    );
    assert(out@ =~= start + caliper_text(bar as int));
}

/// A print-ready camera-lens calibration grid: an A4 page with a lattice of
/// dots and a caliper bar to check the scale of the print.
pub fn paper_grid_svg(n: usize, pitch_nm: Nm, dot_nm: Nm) -> (r: Result<String, String>)
    ensures
        r is Ok <==> paper_fault(n as nat, pitch_nm as int, dot_nm as int) is None,
        r matches Ok(doc) ==> doc@ == paper_text(n as nat, pitch_nm as int, dot_nm as int),
        r matches Err(why) ==> paper_fault(n as nat, pitch_nm as int, dot_nm as int) == Some(why@),
{
    if n < 2 {
        return Err(String::from_str("--n must be at least 2"));
    }
    if pitch_nm <= 0 || dot_nm <= 0 {
        return Err(String::from_str("--pitch-mm and --dot-mm must be positive"));
    }
    let pitch: i128 = pitch_nm as i128;
    let dot: i128 = dot_nm as i128;
    assert(0 < (n - 1) * pitch <= 0xffff_ffff_ffff_ffff * 0x7fff_ffff_ffff_ffff)
        by (nonlinear_arith)
        requires
            1 <= n - 1 <= 0xffff_ffff_ffff_ffff,
            1 <= pitch <= 0x7fff_ffff_ffff_ffff,
    ;
    let span: i128 = (n as i128 - 1) * pitch;
    let mut out = String::new();
    if span > PAPER_MAX_SPAN_NM as i128 {
        put(&mut out, "requested span (n\u{2212}1)\u{b7}pitch = ");
        put_mm_short(&mut out, span);
        put(
            &mut out,
            " mm exceeds the 190 mm printable width \u{2014} reduce --n or --pitch-mm",
        );
        assert(Some(out@) =~= paper_fault(n as nat, pitch as int, dot as int)) by {
            assert(out@ =~= "requested span (n\u{2212}1)\u{b7}pitch = "@ + mm_short(
                (n - 1) * pitch,
            ) + " mm exceeds the 190 mm printable width \u{2014} reduce --n or --pitch-mm"@);
        }
        return Err(out);
    }
    put_page(&mut out, n, pitch, dot);
    let ghost start = out@;
    let mut row: usize = 0;
    assert(start + rows_text(span as int, pitch as int, dot as int, n as nat, 0) =~= start);
    while row < n
        invariant
            row <= n,
            2 <= n,
            0 < pitch,
            span == (n - 1) * pitch,
            span <= PAPER_MAX_SPAN_NM,
            0 < dot <= i64::MAX,
            out@ == start + rows_text(
                span as int,
                pitch as int,
                dot as int,
                n as nat,
                row as nat,
            ),
        decreases n - row,
    {
        put_circles(&mut out, span, pitch, dot, row, n);
        assert(out@ =~= start + rows_text(
            span as int,
            pitch as int,
            dot as int,
            n as nat,
            (row + 1) as nat,
        ));
        row += 1;
    }
    put_caliper(&mut out, 160_000_000 + 2 * span + dot);
    assert(out@ =~= paper_text(n as nat, pitch as int, dot as int));
    Ok(out)
}

/// Dot `i` of row `j` of the burned grid stands `i` and `j` pitches from the
/// origin, half a dot to each side of its center; behind the dots stand the two
/// marks, below the lattice by half a pitch: one as far left of it, the other
/// under its middle.
pub proof fn burned_dots_stand_at_the_pitch(
    n: nat,
    pitch: int,
    ox: int,
    oy: int,
    dot: int,
    i: int,
    j: int,
)
    requires
        0 <= i < n,
        0 <= j < n,
    ensures
        ({
            let grid = burn_grid(n, pitch, ox, oy, dot);
            let half = nearest(dot, 2);
            &&& grid.len() == n * n + 2
            &&& 0 <= j * n + i < n * n
            &&& grid[j * n + i] == square(ox + i * pitch, oy + j * pitch, half)
            &&& grid[(n * n) as int] == square(
                nearest(2 * ox - pitch, 2),
                nearest(2 * oy - pitch, 2),
                half,
            )
            &&& grid[(n * n + 1) as int] == square(
                nearest(2 * ox + (n - 1) * pitch, 2),
                nearest(2 * oy - pitch, 2),
                half,
            )
        }),
{
    let half = half_of(dot);
    lemma_lattice_len(ox, oy, pitch, half, n, n);
    lemma_lattice_dot(ox, oy, pitch, half, n, n, i, j);
    assert(0 <= j * n + i < n * n) by (nonlinear_arith)
        requires
            0 <= i < n,
            0 <= j < n,
    ;
}

proof fn lemma_row_dot(ox: int, y: int, pitch: int, half: int, n: nat, i: int)
    requires
        0 <= i < n,
    ensures
        row_of_dots(ox, y, pitch, half, n)[i] == square(ox + i * pitch, y, half),
    decreases n,
{
    lemma_row_len(ox, y, pitch, half, (n - 1) as nat);
    if i < n - 1 {
        lemma_row_dot(ox, y, pitch, half, (n - 1) as nat, i);
    }
}

proof fn lemma_lattice_dot(
    ox: int,
    oy: int,
    pitch: int,
    half: int,
    n: nat,
    rows: nat,
    i: int,
    j: int,
)
    requires
        0 <= i < n,
        0 <= j < rows,
    ensures
        0 <= j * n + i < rows * n,
        lattice(ox, oy, pitch, half, n, rows)[j * n + i] == square(
            ox + i * pitch,
            oy + j * pitch,
            half,
        ),
    decreases rows,
{
    lemma_lattice_len(ox, oy, pitch, half, n, (rows - 1) as nat);
    lemma_lattice_len(ox, oy, pitch, half, n, rows);
    assert(0 <= j * n + i < rows * n) by (nonlinear_arith)
        requires
            0 <= i < n,
            0 <= j < rows,
    ;
    if j < rows - 1 {
        lemma_lattice_dot(ox, oy, pitch, half, n, (rows - 1) as nat, i, j);
    } else {
        lemma_row_dot(ox, oy + (rows - 1) * pitch, pitch, half, n, i);
    }
}

/// A square stands around its center, with sides of twice its half, and runs
/// counter-clockwise from its lower left corner.
pub proof fn squares_stand_around_their_center(cx: int, cy: int, half: int)
    requires
        drawable(cx, cy, half),
    ensures
        ({
            let s = square(cx, cy, half);
            &&& s.holes.len() == 0
            &&& s.outer.len() == 4
            &&& s.outer[0].x == cx - half && s.outer[0].y == cy - half
            &&& s.outer[1].x == cx + half && s.outer[1].y == cy - half
            &&& s.outer[2].x == cx + half && s.outer[2].y == cy + half
            &&& s.outer[3].x == cx - half && s.outer[3].y == cy + half
        }),
{
}

/// A rectangular hole has its width and height, and its center in the middle,
/// both up to a nanometer.
pub proof fn rect_holes_keep_their_size(c: P, w: int, h: int)
    requires
        hole_fits(c),
        0 <= w <= GRID_LIMIT_NM,
        0 <= h <= GRID_LIMIT_NM,
    ensures
        ({
            let r = rect_hole(c, w, h).outer;
            &&& r.len() == 4
            &&& r[0].x == r[3].x && r[1].x == r[2].x && r[0].y == r[1].y && r[2].y == r[3].y
            &&& -1 <= r[1].x - r[0].x - w <= 1
            &&& -1 <= r[2].y - r[1].y - h <= 1
            &&& -1 <= r[0].x + r[1].x - 2 * c.x <= 1
            &&& -1 <= r[1].y + r[2].y - 2 * c.y <= 1
        }),
{
    nearest_is_close(2 * c.x - w, 2);
    nearest_is_close(2 * c.x + w, 2);
    nearest_is_close(2 * c.y - h, 2);
    nearest_is_close(2 * c.y + h, 2);
}

proof fn lemma_circle_in_row(span: int, pitch: int, dot: int, row: int, n: nat, i: int)
    requires
        0 <= i < n,
    ensures
        holds(
            circles_text(span, pitch, dot, row, n),
            circle_text(left_edge(span) + 2 * (i * pitch), 120_000_000 + 2 * (row * pitch), dot),
        ),
    decreases n,
{
    let part = circle_text(
        left_edge(span) + 2 * (i * pitch),
        120_000_000 + 2 * (row * pitch),
        dot,
    );
    let before = circles_text(span, pitch, dot, row, (n - 1) as nat);
    let last = circle_text(
        left_edge(span) + 2 * ((n - 1) * pitch),
        120_000_000 + 2 * (row * pitch),
        dot,
    );
    lemma_holds_in(before, last, part);
    if i < n - 1 {
        lemma_circle_in_row(span, pitch, dot, row, (n - 1) as nat, i);
    }
}

proof fn lemma_circle_in_rows(
    span: int,
    pitch: int,
    dot: int,
    n: nat,
    rows: nat,
    i: int,
    j: int,
)
    requires
        0 <= i < n,
        0 <= j < rows,
    ensures
        holds(
            rows_text(span, pitch, dot, n, rows),
            circle_text(left_edge(span) + 2 * (i * pitch), 120_000_000 + 2 * (j * pitch), dot),
        ),
    decreases rows,
{
    let part = circle_text(
        left_edge(span) + 2 * (i * pitch),
        120_000_000 + 2 * (j * pitch),
        dot,
    );
    lemma_holds_in(
        rows_text(span, pitch, dot, n, (rows - 1) as nat),
        circles_text(span, pitch, dot, rows - 1, n),
        part,
    );
    if j < rows - 1 {
        lemma_circle_in_rows(span, pitch, dot, n, (rows - 1) as nat, i, j);
    } else {
        lemma_circle_in_row(span, pitch, dot, rows - 1, n, i);
    }
}

/// The printed grid has a dot for every column and row, a pitch apart: the
/// columns about the middle of the page, the rows from sixty millimeters down.
pub proof fn printed_dots_stand_at_the_pitch(n: nat, pitch: int, dot: int, i: int, j: int)
    requires
        0 <= i < n,
        0 <= j < n,
    ensures
        holds(
            paper_text(n, pitch, dot),
            "<circle cx=\""@ + unit_text(
                210_000_000 - (n - 1) * pitch + 2 * (i * pitch),
                200,
                4,
            ) + "\" cy=\""@ + unit_text(120_000_000 + 2 * (j * pitch), 200, 4) + "\" r=\""@
                + unit_text(dot, 200, 4) + "\"/>\n"@,
        ),
{
    let span = (n - 1) * pitch;
    lemma_circle_in_rows(span, pitch, dot, n, n, i, j);
    let part = circle_text(
        left_edge(span) + 2 * (i * pitch),
        120_000_000 + 2 * (j * pitch),
        dot,
    );
    let a = page_text(n, pitch, dot);
    let b = rows_text(span, pitch, dot, n, n);
    lemma_holds_in(a, b, part);
    lemma_holds_in(a + b, caliper_text(bar_at(span, dot)), part);
}

} // verus!
