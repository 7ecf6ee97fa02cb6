//! Tiling for jobs larger than the galvo field.
//!
//! A job is covered by overlapping fields. Each element belongs whole to one
//! authoritative tile, so the tiles together hold exactly the job. That tile is
//! the field cell the element's centroid falls in, or the nearest one before it
//! where only that one's window holds the element. An element that no window
//! holds, such as one larger than a field, is assigned all the same, and
//! reported.
use vstd::prelude::*;
use crate::bounds::{
    covers, elems_hull, hull, hull_is_tight, lemma_elems_hull_covers, paths_bbox, ring_bbox, Bounds,
};
use crate::counting::{lemma_occ_concat, lemma_occ_push, lemma_same_multiset, occ};
use crate::model::{lemma_ring_view, ElemV, Nm, PathElem, Paths, P};
use crate::num::{div_round_nearest, lemma_nearest_bounds, nearest, nearest_is_close};
use crate::order::{sum_x, sum_y};

verus! {

broadcast use lemma_ring_view;

/// Default galvo field: 140 millimeters.
pub const FIELD_NM: Nm = 140_000_000;

/// Default stitch overlap between adjacent fields: two millimeters.
pub const STITCH_OVERLAP_NM: Nm = 2_000_000;

/// A request to move the slide and re-register before running a tile.
#[derive(Debug, Clone, Copy, PartialEq, Eq, Structural)]
pub struct ReRegister {
    pub col: u32,
    pub row: u32,
    /// Field window this tile must be registered within.
    pub field_min: P,
    pub field_max: P,
}

/// One tile: the elements it owns and where its field sits.
#[derive(Debug, PartialEq, Eq)]
pub struct Tile {
    pub col: u32,
    pub row: u32,
    pub field_min: P,
    pub field_max: P,
    /// Elements this tile is authoritative for.
    pub paths: Paths,
    pub reregister: ReRegister,
}

/// The mathematical value of a [`Tile`].
#[verifier::ext_equal]
pub struct TileV {
    pub col: int,
    pub row: int,
    pub field_min: (int, int),
    pub field_max: (int, int),
    pub elems: Seq<ElemV>,
}

impl DeepView for Tile {
    type V = TileV;

    open spec fn deep_view(&self) -> TileV {
        TileV {
            col: self.col as int,
            row: self.row as int,
            field_min: (self.field_min.x as int, self.field_min.y as int),
            field_max: (self.field_max.x as int, self.field_max.y as int),
            elems: self.paths.deep_view(),
        }
    }
}

/// The result of tiling a job.
#[derive(Debug, PartialEq, Eq)]
pub struct TilePlan {
    pub tiles: Vec<Tile>,
    pub field_nm: Nm,
    pub overlap_nm: Nm,
    /// Positions of the elements that no field window holds, among them all
    /// that are larger than one field in some dimension.
    pub oversized: Vec<usize>,
}

/// The grid of fields over a job.
#[verifier::ext_equal]
pub struct Grid {
    pub minx: int,
    pub miny: int,
    pub field: int,
    pub stride: int,
    pub cols: int,
    pub rows: int,
}

/// Distance between the origins of adjacent fields.
pub open spec fn stride_of(field: int, overlap: int) -> int {
    if field - overlap > 1 {
        field - overlap
    } else {
        1
    }
}

/// Fields of width `field` at multiples of `stride` that reach `span`: as many
/// as it takes, at least one.
pub open spec fn axis_fields(span: int, field: int, stride: int) -> int {
    if span <= field {
        1
    } else {
        (span - field + stride - 1) / stride + 1
    }
}

/// The grid that covers a bounding box.
pub open spec fn grid_of(b: Bounds, field: int, overlap: int) -> Grid {
    let stride = stride_of(field, overlap);
    Grid {
        minx: b.min.x as int,
        miny: b.min.y as int,
        field,
        stride,
        cols: axis_fields(b.max.x - b.min.x, field, stride),
        rows: axis_fields(b.max.y - b.min.y, field, stride),
    }
}

/// Mean of the points, each coordinate rounded to nearest; the origin if there
/// are none.
pub open spec fn mean_point(s: Seq<P>) -> (int, int) {
    if s.len() == 0 {
        (0, 0)
    } else {
        (nearest(sum_x(s), s.len() as int), nearest(sum_y(s), s.len() as int))
    }
}

/// The field an offset falls in, capped at the last one.
pub open spec fn field_index(off: int, stride: int, count: int) -> int {
    if off <= 0 {
        0
    } else if off / stride < count - 1 {
        off / stride
    } else {
        count - 1
    }
}

/// Along one axis, the field at index `k` reaches from `lo` to `hi`.
pub open spec fn field_spans(k: int, lo: int, hi: int, stride: int, field: int) -> bool {
    k * stride <= lo && hi <= k * stride + field
}

/// Along one axis, the field that owns an element with its centroid at `c` and
/// its ends at `lo` and `hi`: the one the centroid falls in, unless that one
/// does not hold the element and the last one that starts at or before it does.
pub open spec fn axis_owner(
    c: int,
    lo: int,
    hi: int,
    stride: int,
    field: int,
    count: int,
) -> int {
    let k = field_index(c, stride, count);
    let j = field_index(lo, stride, count);
    if !field_spans(k, lo, hi, stride, field) && field_spans(j, lo, hi, stride, field) {
        j
    } else {
        k
    }
}

/// Column and row of the tile that owns an element.
pub open spec fn tile_of(e: ElemV, g: Grid) -> (int, int) {
    let c = mean_point(e.pts);
    match hull(e.pts) {
        None => (
            field_index(c.0 - g.minx, g.stride, g.cols),
            field_index(c.1 - g.miny, g.stride, g.rows),
        ),
        Some(x) => (
            axis_owner(
                c.0 - g.minx,
                x.min.x - g.minx,
                x.max.x - g.minx,
                g.stride,
                g.field,
                g.cols,
            ),
            axis_owner(
                c.1 - g.miny,
                x.min.y - g.miny,
                x.max.y - g.miny,
                g.stride,
                g.field,
                g.rows,
            ),
        ),
    }
}

/// The window of the tile in column `t.0` and row `t.1` holds a box.
pub open spec fn window_holds(g: Grid, t: (int, int), x: Bounds) -> bool {
    &&& g.minx + t.0 * g.stride <= x.min.x && x.max.x <= g.minx + t.0 * g.stride + g.field
    &&& g.miny + t.1 * g.stride <= x.min.y && x.max.y <= g.miny + t.1 * g.stride + g.field
}

/// Position of a tile in row-major order.
pub open spec fn slot_of(e: ElemV, g: Grid) -> int {
    let t = tile_of(e, g);
    t.1 * g.cols + t.0
}

/// The elements that the tile in slot `k` owns, in job order.
pub open spec fn owned(elems: Seq<ElemV>, g: Grid, k: int) -> Seq<ElemV>
    decreases elems.len(),
{
    if elems.len() == 0 {
        Seq::empty()
    } else {
        let before = owned(elems.drop_last(), g, k);
        if slot_of(elems.last(), g) == k {
            before.push(elems.last())
        } else {
            before
        }
    }
}

/// The tile in slot `k`.
pub open spec fn tile_at(elems: Seq<ElemV>, g: Grid, k: int) -> TileV {
    let col = k % g.cols;
    let row = k / g.cols;
    let min = (g.minx + col * g.stride, g.miny + row * g.stride);
    TileV {
        col,
        row,
        field_min: min,
        field_max: (min.0 + g.field, min.1 + g.field),
        elems: owned(elems, g, k),
    }
}

/// The tiles in the first `n` slots; slots that own nothing are skipped.
pub open spec fn tiles_upto(elems: Seq<ElemV>, g: Grid, n: nat) -> Seq<TileV>
    decreases n,
{
    if n == 0 {
        Seq::empty()
    } else {
        let before = tiles_upto(elems, g, (n - 1) as nat);
        if owned(elems, g, n - 1).len() == 0 {
            before
        } else {
            before.push(tile_at(elems, g, n - 1))
        }
    }
}

/// No window of the grid holds the element.
pub open spec fn is_oversized(e: ElemV, g: Grid) -> bool {
    match hull(e.pts) {
        None => false,
        Some(x) => forall|t: (int, int)|
            0 <= t.0 < g.cols && 0 <= t.1 < g.rows ==> !#[trigger] window_holds(g, t, x),
    }
}

/// Positions of the oversized elements among the first `n`.
pub open spec fn oversized_upto(elems: Seq<ElemV>, g: Grid, n: nat) -> Seq<usize>
    decreases n,
{
    if n == 0 {
        Seq::empty()
    } else {
        let before = oversized_upto(elems, g, (n - 1) as nat);
        if is_oversized(elems[n - 1], g) {
            before.push((n - 1) as usize)
        } else {
            before
        }
    }
}

/// What machine integers allow: the span of the job fits a coordinate, the
/// grid has a countable number of fields, and every field corner is a
/// coordinate.
pub open spec fn tileable(b: Bounds, field: int, overlap: int) -> bool {
    let g = grid_of(b, field, overlap);
    &&& b.max.x - b.min.x <= i64::MAX
    &&& b.max.y - b.min.y <= i64::MAX
    &&& i64::MIN <= field - overlap <= i64::MAX
    &&& g.cols * g.rows <= u32::MAX
    &&& g.cols <= u32::MAX
    &&& g.rows <= u32::MAX
    &&& g.minx + (g.cols - 1) * g.stride <= i64::MAX
    &&& g.miny + (g.rows - 1) * g.stride <= i64::MAX
    &&& i64::MIN <= g.minx + g.field
    &&& i64::MIN <= g.miny + g.field
    &&& g.minx + (g.cols - 1) * g.stride + g.field <= i64::MAX
    &&& g.miny + (g.rows - 1) * g.stride + g.field <= i64::MAX
}

/// Number of overlapping fields needed to cover `span`. At least one.
fn axis_count(span: Nm, field: Nm, stride: Nm) -> (n: u32)
    requires
        stride >= 1,
        axis_fields(span as int, field as int, stride as int) <= u32::MAX,
    ensures
        n == axis_fields(span as int, field as int, stride as int),
        n >= 1,
{
    if span <= field {
        return 1;
    }
    let reach: i128 = span as i128 - field as i128 + stride as i128 - 1;
    let d: i128 = stride as i128;
    proof {
        assert(reach / (stride as i128) >= 0) by (nonlinear_arith)
            requires
                reach >= 0,
                stride >= 1,
        ;
    }
    (reach / d) as u32 + 1
}

/// Field index for an offset from the origin of the grid.
fn cell(off: i128, stride: Nm, count: u32) -> (c: u32)
    requires
        stride >= 1,
        count >= 1,
    ensures
        c == field_index(off as int, stride as int, count as int),
        c < count,
{
    if off <= 0 {
        return 0;
    }
    let q: i128 = off / (stride as i128);
    proof {
        assert(off / (stride as i128) >= 0) by (nonlinear_arith)
            requires
                off > 0,
                stride >= 1,
        ;
    }
    if q < (count - 1) as i128 {
        q as u32
    } else {
        count - 1
    }
}

/// Whether the field at index `k` reaches from `lo` to `hi`.
fn spans(k: u32, lo: i128, hi: i128, stride: Nm, field: Nm) -> (r: bool)
    requires
        stride >= 1,
    ensures
        r == field_spans(k as int, lo as int, hi as int, stride as int, field as int),
{
    proof {
        assert(0 <= k * stride <= u32::MAX * i64::MAX) by (nonlinear_arith)
            requires
                0 <= k <= u32::MAX,
                1 <= stride <= i64::MAX,
        ;
    }
    let start: i128 = (k as i128) * (stride as i128);
    start <= lo && hi <= start + field as i128
}

/// Along one axis, the field that owns an element, and whether it holds it.
fn owner(c: i128, lo: i128, hi: i128, stride: Nm, field: Nm, count: u32) -> (r: (u32, bool))
    requires
        stride >= 1,
        count >= 1,
    ensures
        r.0 == axis_owner(
            c as int,
            lo as int,
            hi as int,
            stride as int,
            field as int,
            count as int,
        ),
        r.0 < count,
        r.1 == field_spans(r.0 as int, lo as int, hi as int, stride as int, field as int),
{
    let k: u32 = cell(c, stride, count);
    if spans(k, lo, hi, stride, field) {
        return (k, true);
    }
    let j: u32 = cell(lo, stride, count);
    if spans(j, lo, hi, stride, field) {
        (j, true)
    } else {
        (k, false)
    }
}

/// Mean of the points, rounded to nearest; the origin if there are none.
fn centroid(pts: &Vec<P>) -> (p: P)
    ensures
        (p.x as int, p.y as int) == mean_point(pts@),
{
    if pts.len() == 0 {
        return P { x: 0, y: 0 };
    }
    let mut sx: i128 = 0;
    let mut sy: i128 = 0;
    let mut i: usize = 0;
    while i < pts.len()
        invariant
            i <= pts.len(),
            sx == sum_x(pts@.take(i as int)),
            sy == sum_y(pts@.take(i as int)),
            i64::MIN * i <= sx <= i64::MAX * i,
            i64::MIN * i <= sy <= i64::MAX * i,
        decreases pts.len() - i,
    {
        assert(pts@.take(i + 1).drop_last() =~= pts@.take(i as int));
        sx = sx + pts[i].x as i128;
        sy = sy + pts[i].y as i128;
        i += 1;
    }
    assert(pts@.take(i as int) =~= pts@);
    proof {
        lemma_nearest_bounds(sx as int, pts@.len() as int, i64::MIN as int, i64::MAX as int);
        lemma_nearest_bounds(sy as int, pts@.len() as int, i64::MIN as int, i64::MAX as int);
    }
    let n: i128 = pts.len() as i128;
    P { x: div_round_nearest(sx, n) as i64, y: div_round_nearest(sy, n) as i64 }
}

/// Positions of the elements among the first `n` that slot `k` owns.
spec fn owned_idx(elems: Seq<ElemV>, g: Grid, k: int, n: nat) -> Seq<usize>
    decreases n,
{
    if n == 0 {
        Seq::empty()
    } else {
        let before = owned_idx(elems, g, k, (n - 1) as nat);
        if slot_of(elems[n - 1], g) == k {
            before.push((n - 1) as usize)
        } else {
            before
        }
    }
}

proof fn lemma_owned_idx(elems: Seq<ElemV>, g: Grid, k: int, n: nat)
    requires
        n <= elems.len(),
        n <= usize::MAX,
    ensures
        owned(elems.take(n as int), g, k) == owned_idx(elems, g, k, n).map_values(
            |i: usize| elems[i as int],
        ),
        forall|j: int|
            0 <= j < owned_idx(elems, g, k, n).len() ==> (#[trigger] owned_idx(elems, g, k, n)[j])
                < n,
    decreases n,
{
    if n == 0 {
        assert(owned(elems.take(0), g, k) =~= owned_idx(elems, g, k, 0).map_values(
            |i: usize| elems[i as int],
        ));
    } else {
        lemma_owned_idx(elems, g, k, (n - 1) as nat);
        assert(elems.take(n as int).drop_last() =~= elems.take(n - 1));
        assert(owned(elems.take(n as int), g, k) =~= owned_idx(elems, g, k, n).map_values(
            |i: usize| elems[i as int],
        ));
    }
}

/// Split `paths` into tiles of at most one field, overlapping by `overlap_nm`.
///
/// A job within one field yields a single tile; a job without points yields
/// none.
pub fn tile(paths: &Paths, field_nm: Nm, overlap_nm: Nm) -> (plan: TilePlan)
    requires
        elems_hull(paths.deep_view()) matches Some(b) ==> tileable(
            b,
            field_nm as int,
            overlap_nm as int,
        ),
    ensures
        plan.field_nm == field_nm,
        plan.overlap_nm == overlap_nm,
        match elems_hull(paths.deep_view()) {
            None => plan.tiles@.len() == 0 && plan.oversized@.len() == 0,
            Some(b) => {
                let g = grid_of(b, field_nm as int, overlap_nm as int);
                &&& plan.tiles.deep_view() == tiles_upto(
                    paths.deep_view(),
                    g,
                    (g.cols * g.rows) as nat,
                )
                &&& plan.oversized@ == oversized_upto(paths.deep_view(), g, paths.elems@.len())
                &&& assembled(plan.tiles.deep_view()).to_multiset()
                    == paths.deep_view().to_multiset()
                &&& forall|i: int|
                    0 <= i < paths.elems@.len() && paths.elems@[i].pts@.len() > 0
                        && !plan.oversized@.contains(i as usize) ==> window_holds(
                        g,
                        tile_of(#[trigger] paths.deep_view()[i], g),
                        hull(paths.deep_view()[i].pts)->0,
                    )
                &&& forall|t: int, j: int|
                    #![trigger plan.tiles.deep_view()[t].elems[j]]
                    0 <= t < plan.tiles@.len() && 0 <= j < plan.tiles.deep_view()[t].elems.len()
                        && !is_oversized(plan.tiles.deep_view()[t].elems[j], g) ==> lies_in(
                        plan.tiles.deep_view()[t].elems[j].pts,
                        plan.tiles.deep_view()[t].field_min,
                        plan.tiles.deep_view()[t].field_max,
                    )
            },
        },
        forall|t: int|
            0 <= t < plan.tiles@.len() ==> (#[trigger] plan.tiles@[t]).reregister == (ReRegister {
                col: plan.tiles@[t].col,
                row: plan.tiles@[t].row,
                field_min: plan.tiles@[t].field_min,
                field_max: plan.tiles@[t].field_max,
            }),
{
    let b = match paths_bbox(paths) {
        None => {
            return TilePlan { tiles: Vec::new(), field_nm, overlap_nm, oversized: Vec::new() };
        },
        Some(b) => b,
    };
    let ghost ev = paths.deep_view();
    let ghost g = grid_of(b, field_nm as int, overlap_nm as int);
    proof {
        lemma_box_is_ordered(ev);
    }
    let stride: i64 = if field_nm as i128 - overlap_nm as i128 > 1 {
        (field_nm as i128 - overlap_nm as i128) as i64
    } else {
        1
    };
    let cols: u32 = axis_count(b.max.x - b.min.x, field_nm, stride);
    let rows: u32 = axis_count(b.max.y - b.min.y, field_nm, stride);
    assert(g.stride == stride && g.cols == cols && g.rows == rows);
    let slots: u32 = cols * rows;

    let mut buckets: Vec<Vec<usize>> = Vec::new();
    let mut s: u32 = 0;
    while s < slots
        invariant
            s <= slots,
            buckets@.len() == s,
            forall|k: int| 0 <= k < s ==> (#[trigger] buckets@[k])@ == owned_idx(ev, g, k, 0),
        decreases slots - s,
    {
        let empty: Vec<usize> = Vec::new();
        assert(empty@ =~= owned_idx(ev, g, s as int, 0));
        buckets.push(empty);
        s += 1;
    }
    let mut oversized: Vec<usize> = Vec::new();
    let mut i: usize = 0;
    while i < paths.elems.len()
        invariant
            i <= paths.elems.len(),
            ev == paths.deep_view(),
            g == grid_of(b, field_nm as int, overlap_nm as int),
            tileable(b, field_nm as int, overlap_nm as int),
            g.stride == stride && g.cols == cols && g.rows == rows,
            stride >= 1,
            cols >= 1,
            rows >= 1,
            slots == cols * rows,
            buckets@.len() == slots,
            forall|k: int|
                0 <= k < slots ==> (#[trigger] buckets@[k])@ == owned_idx(ev, g, k, i as nat),
            oversized@ == oversized_upto(ev, g, i as nat),
        decreases paths.elems.len() - i,
    {
        let e = &paths.elems[i];
        assert(ev[i as int] == e.deep_view());
        let c = centroid(&e.pts);
        let cx: i128 = c.x as i128 - b.min.x as i128;
        let cy: i128 = c.y as i128 - b.min.y as i128;
        let (col, row, held): (u32, u32, bool) = match ring_bbox(&e.pts) {
            None => (cell(cx, stride, cols), cell(cy, stride, rows), true),
            Some(eb) => {
                let x0: i128 = eb.min.x as i128 - b.min.x as i128;
                let x1: i128 = eb.max.x as i128 - b.min.x as i128;
                let y0: i128 = eb.min.y as i128 - b.min.y as i128;
                let y1: i128 = eb.max.y as i128 - b.min.y as i128;
                let (col, over): (u32, bool) = owner(cx, x0, x1, stride, field_nm, cols);
                let (row, beside): (u32, bool) = owner(cy, y0, y1, stride, field_nm, rows);
                (col, row, over && beside)
            },
        };
        proof {
            if hull(e.pts@) is Some {
                lemma_held(ev[i as int], g);
            }
        }
        if !held {
            oversized.push(i);
        }
        proof {
            assert(row * cols + col < cols * rows && row * cols <= u32::MAX) by (nonlinear_arith)
                requires
                    0 <= col < cols,
                    0 <= row < rows,
                    cols * rows <= u32::MAX,
            ;
        }
        let k: usize = (row * cols + col) as usize;
        assert(k == slot_of(ev[i as int], g));
        let ghost before = buckets@;
        buckets[k].push(i);
        assert(buckets@.len() == before.len());
        assert(buckets@[k as int]@ =~= before[k as int]@.push(i));
        assert(forall|j: int| 0 <= j < slots && j != k ==> #[trigger] buckets@[j] == before[j]);
        i += 1;
    }

    let mut tiles: Vec<Tile> = Vec::new();
    let mut k: u32 = 0;
    let mut row: u32 = 0;
    let mut col: u32 = 0;
    assert(tiles.deep_view() =~= tiles_upto(ev, g, 0));
    while k < slots
        invariant
            k <= slots,
            ev == paths.deep_view(),
            g == grid_of(b, field_nm as int, overlap_nm as int),
            tileable(b, field_nm as int, overlap_nm as int),
            g.stride == stride && g.cols == cols && g.rows == rows,
            stride >= 1,
            cols >= 1,
            slots == cols * rows,
            buckets@.len() == slots,
            col < cols,
            k == row * cols + col,
            forall|j: int|
                0 <= j < slots ==> (#[trigger] buckets@[j])@ == owned_idx(ev, g, j, ev.len()),
            tiles.deep_view() == tiles_upto(ev, g, k as nat),
            forall|t: int|
                0 <= t < tiles@.len() ==> (#[trigger] tiles@[t]).reregister == (ReRegister {
                    col: tiles@[t].col,
                    row: tiles@[t].row,
                    field_min: tiles@[t].field_min,
                    field_max: tiles@[t].field_max,
                }),
        decreases slots - k,
    {
        let bucket = &buckets[k as usize];
        let n: usize = paths.elems.len();
        proof {
            lemma_owned_idx(ev, g, k as int, ev.len());
            assert(ev.take(ev.len() as int) =~= ev);
            assert(k as int % (cols as int) == col && k as int / (cols as int) == row) by {
                vstd::arithmetic::div_mod::lemma_fundamental_div_mod_converse(
                    k as int,
                    cols as int,
                    row as int,
                    col as int,
                );
            }
            assert(row < rows) by (nonlinear_arith)
                requires
                    row * cols + col < cols * rows,
                    0 <= col,
                    cols >= 1,
            ;
            assert(0 <= col * stride <= (cols - 1) * stride) by (nonlinear_arith)
                requires
                    0 <= col < cols,
                    stride >= 1,
            ;
            assert(0 <= row * stride <= (rows - 1) * stride) by (nonlinear_arith)
                requires
                    0 <= row < rows,
                    stride >= 1,
            ;
        }
        if bucket.len() > 0 {
            let x0: i64 = (b.min.x as i128 + (col as i128) * (stride as i128)) as i64;
            let y0: i64 = (b.min.y as i128 + (row as i128) * (stride as i128)) as i64;
            let x1: i64 = (x0 as i128 + field_nm as i128) as i64;
            let y1: i64 = (y0 as i128 + field_nm as i128) as i64;
            let mut elems: Vec<PathElem> = Vec::new();
            let mut j: usize = 0;
            while j < bucket.len()
                invariant
                    j <= bucket.len(),
                    ev == paths.deep_view(),
                    elems@.len() == j,
                    forall|q: int| 0 <= q < bucket@.len() ==> (#[trigger] bucket@[q]) < ev.len(),
                    forall|q: int|
                        0 <= q < j ==> (#[trigger] elems@[q]).deep_view() == ev[bucket@[q] as int],
                decreases bucket.len() - j,
            {
                let e = paths.elems[bucket[j]].clone();
                elems.push(e);
                j += 1;
            }
            assert(elems.deep_view() =~= owned(ev, g, k as int));
            let field_min = P { x: x0, y: y0 };
            let field_max = P { x: x1, y: y1 };
            let ghost before = tiles.deep_view();
            tiles.push(
                Tile {
                    col,
                    row,
                    field_min,
                    field_max,
                    paths: Paths { elems },
                    reregister: ReRegister { col, row, field_min, field_max },
                },
            );
            assert(tiles.deep_view() =~= before.push(tile_at(ev, g, k as int)));
        }
        proof {
            assert(row * cols + cols == (row + 1) * cols) by (nonlinear_arith);
        }
        k += 1;
        if col + 1 == cols {
            col = 0;
            row += 1;
        } else {
            col += 1;
        }
    }
    proof {
        assert(is_grid(g, b));
        tiles_partition_the_job(ev, b, g);
        assert forall|i: int|
            0 <= i < ev.len() && paths.elems@[i].pts@.len() > 0 && !oversized@.contains(
                i as usize,
            ) implies window_holds(g, tile_of(#[trigger] ev[i], g), hull(ev[i].pts)->0) by {
            assert(ev[i] == paths.elems@[i].deep_view());
            lemma_oversized(ev, g, ev.len(), i);
            lemma_held(ev[i], g);
        }
        assert forall|t: int, j: int|
            #![trigger tiles.deep_view()[t].elems[j]]
            0 <= t < tiles@.len() && 0 <= j < tiles.deep_view()[t].elems.len() && !is_oversized(
                tiles.deep_view()[t].elems[j],
                g,
            ) implies lies_in(
            tiles.deep_view()[t].elems[j].pts,
            tiles.deep_view()[t].field_min,
            tiles.deep_view()[t].field_max,
        ) by {
            tiles_hold_what_they_own(ev, b, g, t, j);
        }
    }
    TilePlan { tiles, field_nm, overlap_nm, oversized }
}

/// The corners of a job's box are in order.
proof fn lemma_box_is_ordered(elems: Seq<ElemV>)
    ensures
        elems_hull(elems) matches Some(b) ==> b.min.x <= b.max.x && b.min.y <= b.max.y,
    decreases elems.len(),
{
    if elems.len() > 0 {
        lemma_box_is_ordered(elems.drop_last());
        lemma_hull_from_is_ordered(elems_hull(elems.drop_last()), elems.last().pts);
    }
}

proof fn lemma_hull_from_is_ordered(b: Option<Bounds>, s: Seq<P>)
    requires
        b matches Some(c) ==> c.min.x <= c.max.x && c.min.y <= c.max.y,
    ensures
        crate::bounds::hull_from(b, s) matches Some(c) ==> c.min.x <= c.max.x && c.min.y <= c.max.y,
    decreases s.len(),
{
    if s.len() > 0 {
        lemma_hull_from_is_ordered(b, s.drop_last());
    }
}

/// A box around points inside another box is no larger.
proof fn lemma_inner_extent(inner: Bounds, outer: Bounds, s: Seq<P>)
    requires
        crate::bounds::tight(inner, s),
        covers(outer, s),
    ensures
        outer.min.x <= inner.min.x,
        inner.max.x <= outer.max.x,
        outer.min.y <= inner.min.y,
        inner.max.y <= outer.max.y,
        inner.min.x <= inner.max.x,
        inner.min.y <= inner.max.y,
{
    let i0 = choose|i: int| 0 <= i < s.len() && (#[trigger] s[i]).x == inner.min.x;
    let i1 = choose|i: int| 0 <= i < s.len() && (#[trigger] s[i]).x == inner.max.x;
    let i2 = choose|i: int| 0 <= i < s.len() && (#[trigger] s[i]).y == inner.min.y;
    let i3 = choose|i: int| 0 <= i < s.len() && (#[trigger] s[i]).y == inner.max.y;
    assert(outer.contains(s[i0]) && outer.contains(s[i1]) && outer.contains(s[i2])
        && outer.contains(s[i3]));
    assert(inner.contains(s[i0]));
}

// ---------------------------------------------------------------------------
// Totals and laws
// ---------------------------------------------------------------------------

/// All elements of the tiles, tile by tile.
pub open spec fn assembled(tiles: Seq<TileV>) -> Seq<ElemV>
    decreases tiles.len(),
{
    if tiles.len() == 0 {
        Seq::empty()
    } else {
        assembled(tiles.drop_last()) + tiles.last().elems
    }
}

impl TilePlan {
    /// Total authoritative elements across all tiles.
    pub fn total_elems(&self) -> (n: usize)
        requires
            assembled(self.tiles.deep_view()).len() <= usize::MAX,
        ensures
            n == assembled(self.tiles.deep_view()).len(),
    {
        let ghost tv = self.tiles.deep_view();
        let mut n: usize = 0;
        let mut i: usize = 0;
        while i < self.tiles.len()
            invariant
                i <= self.tiles.len(),
                tv == self.tiles.deep_view(),
                assembled(tv).len() <= usize::MAX,
                n == assembled(tv.take(i as int)).len(),
            decreases self.tiles.len() - i,
        {
            proof {
                assert(tv.take(i + 1).drop_last() =~= tv.take(i as int));
                assert(tv[i as int] == self.tiles@[i as int].deep_view());
                lemma_assembled_prefix(tv, (i + 1) as nat);
            }
            n = n + self.tiles[i].paths.elems.len();
            i += 1;
        }
        assert(tv.take(i as int) =~= tv);
        n
    }
}

proof fn lemma_assembled_prefix(tiles: Seq<TileV>, k: nat)
    requires
        k <= tiles.len(),
    ensures
        assembled(tiles.take(k as int)).len() <= assembled(tiles).len(),
    decreases tiles.len(),
{
    if k < tiles.len() {
        lemma_assembled_prefix(tiles.drop_last(), k);
        assert(tiles.drop_last().take(k as int) =~= tiles.take(k as int));
    } else {
        assert(tiles.take(k as int) =~= tiles);
    }
}

/// A grid that covers a bounding box whose corners are in order.
pub open spec fn is_grid(g: Grid, b: Bounds) -> bool {
    exists|field: int, overlap: int|
        b.min.x <= b.max.x && b.min.y <= b.max.y && g == #[trigger] grid_of(b, field, overlap)
}

proof fn lemma_grid(b: Bounds, field: int, overlap: int)
    requires
        b.min.x <= b.max.x,
        b.min.y <= b.max.y,
    ensures
        ({
            let g = grid_of(b, field, overlap);
            &&& g.stride >= 1
            &&& g.cols >= 1
            &&& g.rows >= 1
            &&& g.minx + (g.cols - 1) * g.stride + g.field >= b.max.x
            &&& g.miny + (g.rows - 1) * g.stride + g.field >= b.max.y
        }),
{
    let stride = stride_of(field, overlap);
    lemma_axis(b.max.x - b.min.x, field, stride);
    lemma_axis(b.max.y - b.min.y, field, stride);
}

proof fn lemma_axis(span: int, field: int, stride: int)
    requires
        stride >= 1,
    ensures
        axis_fields(span, field, stride) >= 1,
        (axis_fields(span, field, stride) - 1) * stride + field >= span,
{
    if span > field {
        let reach = span - field + stride - 1;
        vstd::arithmetic::div_mod::lemma_fundamental_div_mod(reach, stride);
        let q = reach / stride;
        assert(q >= 0) by (nonlinear_arith)
            requires
                reach >= 0,
                stride >= 1,
                q == reach / stride,
        ;
        assert(q * stride == stride * q) by (nonlinear_arith);
    }
}

/// How often `w` is owned by the first `n` slots.
spec fn slots_occ(elems: Seq<ElemV>, g: Grid, n: nat, w: ElemV) -> nat
    decreases n,
{
    if n == 0 {
        0
    } else {
        slots_occ(elems, g, (n - 1) as nat, w) + occ(owned(elems, g, n - 1), w)
    }
}

proof fn lemma_tiles_occ(elems: Seq<ElemV>, g: Grid, n: nat, w: ElemV)
    ensures
        occ(assembled(tiles_upto(elems, g, n)), w) == slots_occ(elems, g, n, w),
    decreases n,
{
    if n > 0 {
        lemma_tiles_occ(elems, g, (n - 1) as nat, w);
        let before = tiles_upto(elems, g, (n - 1) as nat);
        let t = tile_at(elems, g, n - 1);
        if owned(elems, g, n - 1).len() > 0 {
            assert(before.push(t).drop_last() =~= before);
            lemma_occ_concat(assembled(before), t.elems, w);
        } else {
            assert(occ(owned(elems, g, n - 1), w) == 0);
        }
    }
}

proof fn lemma_slots_occ(elems: Seq<ElemV>, g: Grid, n: nat, w: ElemV)
    requires
        forall|i: int| 0 <= i < elems.len() ==> 0 <= slot_of(#[trigger] elems[i], g) < n,
    ensures
        slots_occ(elems, g, n, w) == occ(elems, w),
    decreases elems.len(),
{
    if elems.len() == 0 {
        lemma_no_slots(elems, g, n, w);
    } else {
        let r = elems.drop_last();
        assert forall|i: int| 0 <= i < r.len() implies 0 <= slot_of(#[trigger] r[i], g) < n by {
            assert(r[i] == elems[i]);
        }
        lemma_slots_occ(r, g, n, w);
        let last = elems.last();
        assert(elems[elems.len() - 1] == last);
        lemma_one_more(elems, g, n, w);
    }
}

proof fn lemma_no_slots(elems: Seq<ElemV>, g: Grid, n: nat, w: ElemV)
    requires
        elems.len() == 0,
    ensures
        slots_occ(elems, g, n, w) == 0,
    decreases n,
{
    if n > 0 {
        lemma_no_slots(elems, g, (n - 1) as nat, w);
    }
}

/// One more element is owned by exactly one slot.
proof fn lemma_one_more(elems: Seq<ElemV>, g: Grid, n: nat, w: ElemV)
    requires
        elems.len() > 0,
        slot_of(elems.last(), g) >= 0,
    ensures
        slots_occ(elems, g, n, w) == slots_occ(elems.drop_last(), g, n, w) + if slot_of(
            elems.last(),
            g,
        ) < n && elems.last() == w {
            1nat
        } else {
            0nat
        },
    decreases n,
{
    if n > 0 {
        lemma_one_more(elems, g, (n - 1) as nat, w);
        let before = owned(elems.drop_last(), g, n - 1);
        lemma_occ_push(before, elems.last(), w);
    }
}

proof fn lemma_index_capped(off: int, stride: int, count: int)
    requires
        stride >= 1,
        count >= 1,
    ensures
        0 <= field_index(off, stride, count) < count,
{
    if off > 0 {
        assert(off / stride >= 0) by (nonlinear_arith)
            requires
                off > 0,
                stride >= 1,
        ;
    }
}

proof fn lemma_slot_in_grid(e: ElemV, g: Grid)
    requires
        g.stride >= 1,
        g.cols >= 1,
        g.rows >= 1,
    ensures
        0 <= tile_of(e, g).0 < g.cols,
        0 <= tile_of(e, g).1 < g.rows,
        0 <= slot_of(e, g) < g.cols * g.rows,
{
    let c = mean_point(e.pts);
    let t = tile_of(e, g);
    lemma_index_capped(c.0 - g.minx, g.stride, g.cols);
    lemma_index_capped(c.1 - g.miny, g.stride, g.rows);
    if hull(e.pts) is Some {
        let x = hull(e.pts)->0;
        lemma_index_capped(x.min.x - g.minx, g.stride, g.cols);
        lemma_index_capped(x.min.y - g.miny, g.stride, g.rows);
    }
    assert(0 <= t.1 * g.cols + t.0 < g.cols * g.rows) by (nonlinear_arith)
        requires
            0 <= t.0 < g.cols,
            0 <= t.1 < g.rows,
    ;
}

/// Every element is authoritative in exactly one tile: put together, the tiles
/// of a job hold the job's elements, each as often as it came in.
pub proof fn tiles_partition_the_job(elems: Seq<ElemV>, b: Bounds, g: Grid)
    requires
        is_grid(g, b),
    ensures
        assembled(tiles_upto(elems, g, (g.cols * g.rows) as nat)).to_multiset()
            == elems.to_multiset(),
        assembled(tiles_upto(elems, g, (g.cols * g.rows) as nat)).len() == elems.len(),
{
    let (field, overlap) = choose|field: int, overlap: int|
        b.min.x <= b.max.x && b.min.y <= b.max.y && g == #[trigger] grid_of(b, field, overlap);
    lemma_grid(b, field, overlap);
    assert forall|i: int| 0 <= i < elems.len() implies 0 <= slot_of(#[trigger] elems[i], g)
        < g.cols * g.rows by {
        lemma_slot_in_grid(elems[i], g);
    }
    assert(g.cols * g.rows >= 0) by (nonlinear_arith)
        requires
            g.cols >= 1,
            g.rows >= 1,
    ;
    let n = (g.cols * g.rows) as nat;
    let all = assembled(tiles_upto(elems, g, n));
    assert forall|w: ElemV| #[trigger] occ(all, w) == occ(elems, w) by {
        lemma_tiles_occ(elems, g, n, w);
        lemma_slots_occ(elems, g, n, w);
    }
    lemma_same_multiset(all, elems);
    all.to_multiset_ensures();
    elems.to_multiset_ensures();
}

/// Adjacent fields of a row overlap by exactly the stitch margin, as long as
/// the margin leaves a step.
pub proof fn adjacent_fields_overlap(
    elems: Seq<ElemV>,
    b: Bounds,
    field: int,
    overlap: int,
    row: int,
    col: int,
)
    requires
        b.min.x <= b.max.x,
        b.min.y <= b.max.y,
        field - overlap >= 1,
        0 <= col,
        col + 1 < grid_of(b, field, overlap).cols,
        0 <= row,
    ensures
        ({
            let g = grid_of(b, field, overlap);
            let left = tile_at(elems, g, row * g.cols + col);
            let right = tile_at(elems, g, row * g.cols + col + 1);
            &&& left.row == right.row
            &&& left.field_max.0 - right.field_min.0 == overlap
        }),
{
    let g = grid_of(b, field, overlap);
    vstd::arithmetic::div_mod::lemma_fundamental_div_mod_converse(
        row * g.cols + col,
        g.cols,
        row,
        col,
    );
    vstd::arithmetic::div_mod::lemma_fundamental_div_mod_converse(
        row * g.cols + col + 1,
        g.cols,
        row,
        col + 1,
    );
    assert((col + 1) * g.stride == col * g.stride + g.stride) by (nonlinear_arith);
}

/// All points of a list lie between two corners.
pub open spec fn lies_in(s: Seq<P>, min: (int, int), max: (int, int)) -> bool {
    forall|i: int|
        0 <= i < s.len() ==> min.0 <= (#[trigger] s[i]).x <= max.0 && min.1 <= s[i].y <= max.1
}

/// If any field along an axis holds an element, the last one that starts at or
/// before it does.
proof fn lemma_last_start_holds(lo: int, hi: int, stride: int, field: int, count: int, i: int)
    requires
        stride >= 1,
        0 <= i < count,
        field_spans(i, lo, hi, stride, field),
    ensures
        field_spans(field_index(lo, stride, count), lo, hi, stride, field),
{
    let j = field_index(lo, stride, count);
    if lo > 0 {
        vstd::arithmetic::div_mod::lemma_fundamental_div_mod(lo, stride);
        let q = lo / stride;
        assert(i <= q && q * stride <= lo) by (nonlinear_arith)
            requires
                i * stride <= lo,
                lo == stride * q + lo % stride,
                0 <= lo % stride < stride,
                stride >= 1,
        ;
        assert(i * stride <= j * stride <= q * stride) by (nonlinear_arith)
            requires
                i <= j <= q,
                stride >= 1,
        ;
    } else {
        assert(i == 0) by (nonlinear_arith)
            requires
                i * stride <= 0,
                i >= 0,
                stride >= 1,
        ;
    }
}

/// An element is oversized exactly if the window of its own tile does not hold
/// it.
proof fn lemma_held(e: ElemV, g: Grid)
    requires
        g.stride >= 1,
        g.cols >= 1,
        g.rows >= 1,
        hull(e.pts) is Some,
    ensures
        is_oversized(e, g) <==> !window_holds(g, tile_of(e, g), hull(e.pts)->0),
{
    let x = hull(e.pts)->0;
    let own = tile_of(e, g);
    lemma_slot_in_grid(e, g);
    if is_oversized(e, g) {
        assert(!window_holds(g, own, x));
    } else {
        let t = choose|t: (int, int)|
            0 <= t.0 < g.cols && 0 <= t.1 < g.rows && #[trigger] window_holds(g, t, x);
        lemma_last_start_holds(
            x.min.x - g.minx,
            x.max.x - g.minx,
            g.stride,
            g.field,
            g.cols,
            t.0,
        );
        lemma_last_start_holds(
            x.min.y - g.miny,
            x.max.y - g.miny,
            g.stride,
            g.field,
            g.rows,
            t.1,
        );
    }
}

/// The reported positions are those of the oversized elements.
proof fn lemma_oversized(elems: Seq<ElemV>, g: Grid, n: nat, i: int)
    requires
        0 <= i < n <= elems.len(),
        n <= usize::MAX,
    ensures
        oversized_upto(elems, g, n).contains(i as usize) <==> is_oversized(elems[i], g),
    decreases n,
{
    let all = oversized_upto(elems, g, n);
    let before = oversized_upto(elems, g, (n - 1) as nat);
    lemma_reported_range(elems, g, (n - 1) as nat);
    if i == n - 1 {
        if is_oversized(elems[i], g) {
            assert(all[all.len() - 1] == i as usize);
        } else if all.contains(i as usize) {
            let k = choose|k: int| 0 <= k < all.len() && all[k] == i as usize;
            assert(before[k] < n - 1);
        }
    } else {
        lemma_oversized(elems, g, (n - 1) as nat, i);
        if before.contains(i as usize) {
            let k = choose|k: int| 0 <= k < before.len() && before[k] == i as usize;
            assert(all[k] == i as usize);
        }
        if all.contains(i as usize) {
            let k = choose|k: int| 0 <= k < all.len() && all[k] == i as usize;
            assert(before[k] == i as usize);
        }
    }
}

proof fn lemma_reported_range(elems: Seq<ElemV>, g: Grid, n: nat)
    requires
        n <= usize::MAX,
    ensures
        forall|k: int|
            0 <= k < oversized_upto(elems, g, n).len() ==> (#[trigger] oversized_upto(
                elems,
                g,
                n,
            )[k]) < n,
    decreases n,
{
    if n > 0 {
        lemma_reported_range(elems, g, (n - 1) as nat);
        let before = oversized_upto(elems, g, (n - 1) as nat);
        let all = oversized_upto(elems, g, n);
        assert forall|k: int| 0 <= k < all.len() implies (#[trigger] all[k]) < n by {
            if k < before.len() {
                assert(all[k] == before[k]);
            }
        }
    }
}

/// Each element of a job lies in its tile's window unless it is reported; what
/// is larger than a field is always reported, and what is no larger than the
/// overlap never.
pub proof fn owned_element_fits_its_window(
    elems: Seq<ElemV>,
    b: Bounds,
    field: int,
    overlap: int,
    i: int,
)
    requires
        elems_hull(elems) == Some(b),
        0 <= i < elems.len(),
        elems[i].pts.len() > 0,
    ensures
        ({
            let g = grid_of(b, field, overlap);
            let extent = hull(elems[i].pts)->0;
            &&& is_oversized(elems[i], g) || window_holds(g, tile_of(elems[i], g), extent)
            &&& extent.max.x - extent.min.x > field || extent.max.y - extent.min.y > field
                ==> is_oversized(elems[i], g)
            &&& field - overlap >= 1 && extent.max.x - extent.min.x <= overlap && extent.max.y
                - extent.min.y <= overlap ==> !is_oversized(elems[i], g)
        }),
{
    let g = grid_of(b, field, overlap);
    let e = elems[i];
    lemma_elems_hull_covers(elems);
    lemma_box_is_ordered(elems);
    lemma_grid(b, field, overlap);
    hull_is_tight(e.pts);
    let extent = hull(e.pts)->0;
    lemma_held(e, g);
    assert(covers(b, elems[i].pts));
    lemma_inner_extent(extent, b, e.pts);
    if field - overlap >= 1 && extent.max.x - extent.min.x <= overlap && extent.max.y
        - extent.min.y <= overlap {
        let t = (
            field_index(extent.min.x - g.minx, g.stride, g.cols),
            field_index(extent.min.y - g.miny, g.stride, g.rows),
        );
        lemma_window(extent.min.x - g.minx, g.stride, g.cols);
        lemma_window(extent.min.y - g.miny, g.stride, g.rows);
        lemma_index_in_axis(extent.min.x - g.minx, g.stride, g.cols);
        lemma_index_in_axis(extent.min.y - g.miny, g.stride, g.rows);
        assert(window_holds(g, t, extent));
    }
}

proof fn lemma_index_in_axis(off: int, stride: int, count: int)
    requires
        stride >= 1,
        count >= 1,
        off >= 0,
    ensures
        0 <= field_index(off, stride, count) < count,
        field_index(off, stride, count) * stride <= off,
{
    let k = field_index(off, stride, count);
    vstd::arithmetic::div_mod::lemma_fundamental_div_mod(off, stride);
    let q = off / stride;
    assert(q >= 0) by (nonlinear_arith)
        requires
            off >= 0,
            stride >= 1,
            q == off / stride,
    ;
    assert(k * stride <= off) by (nonlinear_arith)
        requires
            0 <= k <= q,
            off == stride * q + off % stride,
            off % stride >= 0,
            stride >= 1,
    ;
}

proof fn lemma_owned_slot(elems: Seq<ElemV>, g: Grid, k: int, j: int)
    requires
        0 <= j < owned(elems, g, k).len(),
    ensures
        slot_of(owned(elems, g, k)[j], g) == k,
    decreases elems.len(),
{
    let before = owned(elems.drop_last(), g, k);
    if j < before.len() {
        lemma_owned_slot(elems.drop_last(), g, k, j);
    }
}

/// The slot a tile stands for.
proof fn lemma_tile_slot(elems: Seq<ElemV>, g: Grid, n: nat, t: int) -> (k: int)
    requires
        0 <= t < tiles_upto(elems, g, n).len(),
    ensures
        0 <= k < n,
        tiles_upto(elems, g, n)[t] == tile_at(elems, g, k),
    decreases n,
{
    let before = tiles_upto(elems, g, (n - 1) as nat);
    if t < before.len() {
        lemma_tile_slot(elems, g, (n - 1) as nat, t)
    } else {
        n - 1
    }
}

/// Every point of an element lies in the window of the tile that owns the
/// element, unless no window of the grid holds it.
pub proof fn tiles_hold_what_they_own(elems: Seq<ElemV>, b: Bounds, g: Grid, t: int, j: int)
    requires
        is_grid(g, b),
        0 <= t < tiles_upto(elems, g, (g.cols * g.rows) as nat).len(),
        0 <= j < tiles_upto(elems, g, (g.cols * g.rows) as nat)[t].elems.len(),
        !is_oversized(tiles_upto(elems, g, (g.cols * g.rows) as nat)[t].elems[j], g),
    ensures
        ({
            let tile = tiles_upto(elems, g, (g.cols * g.rows) as nat)[t];
            lies_in(tile.elems[j].pts, tile.field_min, tile.field_max)
        }),
{
    let (field, overlap) = choose|field: int, overlap: int|
        b.min.x <= b.max.x && b.min.y <= b.max.y && g == #[trigger] grid_of(b, field, overlap);
    lemma_grid(b, field, overlap);
    let n = (g.cols * g.rows) as nat;
    let tile = tiles_upto(elems, g, n)[t];
    let k = lemma_tile_slot(elems, g, n, t);
    lemma_owned_slot(elems, g, k, j);
    let e = tile.elems[j];
    let own = tile_of(e, g);
    lemma_slot_in_grid(e, g);
    vstd::arithmetic::div_mod::lemma_fundamental_div_mod_converse(k, g.cols, own.1, own.0);
    if e.pts.len() > 0 {
        hull_is_tight(e.pts);
        let x = hull(e.pts)->0;
        lemma_held(e, g);
        assert forall|i: int| 0 <= i < e.pts.len() implies tile.field_min.0 <= (
        #[trigger] e.pts[i]).x <= tile.field_max.0 && tile.field_min.1 <= e.pts[i].y
            <= tile.field_max.1 by {
            assert(x.contains(e.pts[i]));
        }
    }
}

/// Below the last field, an offset stays short of the next field's origin.
proof fn lemma_window(off: int, stride: int, count: int)
    requires
        stride >= 1,
        count >= 1,
    ensures
        field_index(off, stride, count) < count - 1 ==> off < (field_index(off, stride, count) + 1)
            * stride,
        field_index(off, stride, count) == count - 1 || field_index(off, stride, count) < count - 1,
        (field_index(off, stride, count) + 1) * stride == field_index(off, stride, count) * stride
            + stride,
{
    let k = field_index(off, stride, count);
    assert((k + 1) * stride == k * stride + stride) by (nonlinear_arith);
    if off > 0 {
        vstd::arithmetic::div_mod::lemma_fundamental_div_mod(off, stride);
        assert(stride * (off / stride) == (off / stride) * stride) by (nonlinear_arith);
        assert(0 <= off / stride) by (nonlinear_arith)
            requires
                off > 0,
                stride >= 1,
        ;
    } else {
        assert(k * stride == 0) by (nonlinear_arith)
            requires
                k == 0,
        ;
    }
}

/// The fields of an axis reach from one end of the job to the other, each a field
/// less the overlap after the one before it, and none more than it takes.
pub proof fn fields_reach_over_the_job(b: Bounds, field: int, overlap: int)
    requires
        b.min.x <= b.max.x,
        b.min.y <= b.max.y,
        field - overlap >= 1,
    ensures
        ({
            let g = grid_of(b, field, overlap);
            let step = field - overlap;
            &&& g.minx == b.min.x && g.miny == b.min.y && g.field == field && g.stride == step
            &&& g.cols >= 1 && g.rows >= 1
            &&& b.max.x <= b.min.x + (g.cols - 1) * step + field
            &&& b.max.y <= b.min.y + (g.rows - 1) * step + field
            &&& g.cols > 1 ==> b.max.x > b.min.x + (g.cols - 2) * step + field
            &&& g.rows > 1 ==> b.max.y > b.min.y + (g.rows - 2) * step + field
        }),
{
    lemma_axis_reach(b.max.x - b.min.x, field, field - overlap);
    lemma_axis_reach(b.max.y - b.min.y, field, field - overlap);
}

proof fn lemma_axis_reach(span: int, field: int, stride: int)
    requires
        stride >= 1,
    ensures
        axis_fields(span, field, stride) >= 1,
        span <= (axis_fields(span, field, stride) - 1) * stride + field,
        axis_fields(span, field, stride) > 1 ==> span > (axis_fields(span, field, stride) - 2)
            * stride + field,
{
    if span > field {
        let reach = span - field + stride - 1;
        let q = reach / stride;
        vstd::arithmetic::div_mod::lemma_fundamental_div_mod(reach, stride);
        assert(q >= 1 && span - field <= q * stride && span - field > (q - 1) * stride)
            by (nonlinear_arith)
            requires
                reach == stride * q + reach % stride,
                0 <= reach % stride < stride,
                reach == span - field + stride - 1,
                span > field,
                stride >= 1,
        ;
    } else {
        assert(0 * stride == 0);
    }
}

/// A tile owns the elements of the job that are its own, all of them and in job
/// order.
pub proof fn tiles_own_their_elements_in_order(elems: Seq<ElemV>, g: Grid, k: int)
    ensures
        owned(elems, g, k) == elems.filter(
            |e: ElemV| tile_of(e, g).1 * g.cols + tile_of(e, g).0 == k,
        ),
    decreases elems.len(),
{
    reveal(Seq::filter);
    if elems.len() > 0 {
        tiles_own_their_elements_in_order(elems.drop_last(), g, k);
    }
}

/// An element belongs to the field its centroid falls in, along each axis, if the
/// window of that field holds it there.
pub proof fn elements_follow_their_centroid(e: ElemV, g: Grid, k: int, m: int)
    requires
        e.pts.len() > 0,
        g.stride >= 1,
        0 <= k < g.cols,
        0 <= m < g.rows,
    ensures
        ({
            let c = mean_point(e.pts);
            let (x, y) = (c.0 - g.minx, c.1 - g.miny);
            &&& k * g.stride <= x < (k + 1) * g.stride && (forall|i: int|
                0 <= i < e.pts.len() ==> k * g.stride <= (#[trigger] e.pts[i]).x - g.minx <= k
                    * g.stride + g.field) ==> tile_of(e, g).0 == k
            &&& m * g.stride <= y < (m + 1) * g.stride && (forall|i: int|
                0 <= i < e.pts.len() ==> m * g.stride <= (#[trigger] e.pts[i]).y - g.miny <= m
                    * g.stride + g.field) ==> tile_of(e, g).1 == m
        }),
{
    let c = mean_point(e.pts);
    hull_is_tight(e.pts);
    let h = hull(e.pts)->0;
    let i0 = choose|i: int| 0 <= i < e.pts.len() && (#[trigger] e.pts[i]).x == h.min.x;
    let i1 = choose|i: int| 0 <= i < e.pts.len() && (#[trigger] e.pts[i]).x == h.max.x;
    let i2 = choose|i: int| 0 <= i < e.pts.len() && (#[trigger] e.pts[i]).y == h.min.y;
    let i3 = choose|i: int| 0 <= i < e.pts.len() && (#[trigger] e.pts[i]).y == h.max.y;
    assert(e.pts[i0].x == h.min.x && e.pts[i1].x == h.max.x);
    assert(e.pts[i2].y == h.min.y && e.pts[i3].y == h.max.y);
    if k * g.stride <= c.0 - g.minx < (k + 1) * g.stride {
        lemma_in_cell(c.0 - g.minx, g.stride, g.cols, k);
    }
    if m * g.stride <= c.1 - g.miny < (m + 1) * g.stride {
        lemma_in_cell(c.1 - g.miny, g.stride, g.rows, m);
    }
}

proof fn lemma_in_cell(off: int, stride: int, count: int, k: int)
    requires
        stride >= 1,
        0 <= k < count,
        k * stride <= off < (k + 1) * stride,
    ensures
        field_index(off, stride, count) == k,
{
    assert((k + 1) * stride == k * stride + stride) by (nonlinear_arith);
    assert(k * stride == stride * k) by (nonlinear_arith);
    vstd::arithmetic::div_mod::lemma_fundamental_div_mod_converse(off, stride, k, off - k * stride);
    if off <= 0 {
        assert(k == 0) by (nonlinear_arith)
            requires
                k * stride <= 0,
                k >= 0,
                stride >= 1,
        ;
    }
}

/// The mean of points lies where they are on average, up to half a nanometer.
pub proof fn means_are_close(s: Seq<P>)
    requires
        s.len() > 0,
    ensures
        -s.len() <= 2 * (sum_x(s) - s.len() * mean_point(s).0) <= s.len(),
        -s.len() <= 2 * (sum_y(s) - s.len() * mean_point(s).1) <= s.len(),
{
    nearest_is_close(sum_x(s), s.len() as int);
    nearest_is_close(sum_y(s), s.len() as int);
}

/// Every tile stands for a place of the grid, and its window is the field there.
/// Tiles come row by row from below, from left to right, and none is empty.
pub proof fn tiles_are_fields_of_the_grid(elems: Seq<ElemV>, g: Grid, n: nat)
    requires
        g.cols >= 1,
    ensures
        forall|t: int|
            0 <= t < tiles_upto(elems, g, n).len() ==> {
                let tile = #[trigger] tiles_upto(elems, g, n)[t];
                &&& 0 <= tile.col < g.cols
                &&& 0 <= tile.row * g.cols + tile.col < n
                &&& tile.field_min == (g.minx + tile.col * g.stride, g.miny + tile.row * g.stride)
                &&& tile.field_max == (
                    g.minx + tile.col * g.stride + g.field,
                    g.miny + tile.row * g.stride + g.field,
                )
                &&& tile.elems.len() > 0
            },
        forall|t: int, u: int|
            #![trigger tiles_upto(elems, g, n)[t], tiles_upto(elems, g, n)[u]]
            0 <= t < u < tiles_upto(elems, g, n).len() ==> tiles_upto(elems, g, n)[t].row * g.cols
                + tiles_upto(elems, g, n)[t].col < tiles_upto(elems, g, n)[u].row * g.cols
                + tiles_upto(elems, g, n)[u].col,
    decreases n,
{
    if n > 0 {
        tiles_are_fields_of_the_grid(elems, g, (n - 1) as nat);
        let before = tiles_upto(elems, g, (n - 1) as nat);
        let all = tiles_upto(elems, g, n);
        let k = n - 1;
        vstd::arithmetic::div_mod::lemma_fundamental_div_mod(k, g.cols);
        assert((k / g.cols) * g.cols == g.cols * (k / g.cols)) by (nonlinear_arith);
        assert forall|t: int| 0 <= t < all.len() implies {
            let tile = #[trigger] all[t];
            &&& 0 <= tile.col < g.cols
            &&& 0 <= tile.row * g.cols + tile.col < n
            &&& tile.field_min == (g.minx + tile.col * g.stride, g.miny + tile.row * g.stride)
            &&& tile.field_max == (
                g.minx + tile.col * g.stride + g.field,
                g.miny + tile.row * g.stride + g.field,
            )
            &&& tile.elems.len() > 0
        } by {
            if t < before.len() {
                assert(all[t] == before[t]);
            }
        }
        assert forall|t: int, u: int|
            #![trigger all[t], all[u]]
            0 <= t < u < all.len() implies all[t].row * g.cols + all[t].col < all[u].row * g.cols
            + all[u].col by {
            assert(all[t] == before[t]);
            if u < before.len() {
                assert(all[u] == before[u]);
            }
        }
    }
}

/// The elements listed as oversized are those that no field of the grid can hold,
/// in job order.
pub proof fn oversized_elements_are_listed(elems: Seq<ElemV>, g: Grid, n: nat, k: usize)
    requires
        n <= elems.len() <= usize::MAX,
    ensures
        oversized_upto(elems, g, n).contains(k) <==> k < n && elems[k as int].pts.len() > 0
            && forall|c: int, r: int|
            #![trigger g.minx + c * g.stride, g.miny + r * g.stride]
            0 <= c < g.cols && 0 <= r < g.rows ==> exists|i: int|
                0 <= i < elems[k as int].pts.len() && {
                    let p = #[trigger] elems[k as int].pts[i];
                    ||| p.x < g.minx + c * g.stride
                    ||| p.x > g.minx + c * g.stride + g.field
                    ||| p.y < g.miny + r * g.stride
                    ||| p.y > g.miny + r * g.stride + g.field
                },
        forall|i: int, j: int|
            #![trigger oversized_upto(elems, g, n)[i], oversized_upto(elems, g, n)[j]]
            0 <= i < j < oversized_upto(elems, g, n).len() ==> oversized_upto(elems, g, n)[i]
                < oversized_upto(elems, g, n)[j],
{
    lemma_oversized_list(elems, g, n);
    if k < n {
        let e = elems[k as int];
        if e.pts.len() > 0 {
            hull_is_tight(e.pts);
            let h = hull(e.pts)->0;
            let i0 = choose|i: int| 0 <= i < e.pts.len() && (#[trigger] e.pts[i]).x == h.min.x;
            let i1 = choose|i: int| 0 <= i < e.pts.len() && (#[trigger] e.pts[i]).x == h.max.x;
            let i2 = choose|i: int| 0 <= i < e.pts.len() && (#[trigger] e.pts[i]).y == h.min.y;
            let i3 = choose|i: int| 0 <= i < e.pts.len() && (#[trigger] e.pts[i]).y == h.max.y;
            assert(e.pts[i0].x == h.min.x && e.pts[i1].x == h.max.x);
            assert(e.pts[i2].y == h.min.y && e.pts[i3].y == h.max.y);
            if !is_oversized(e, g) {
                let t = choose|t: (int, int)|
                    0 <= t.0 < g.cols && 0 <= t.1 < g.rows && #[trigger] window_holds(g, t, h);
                let (c, r) = t;
                assert(g.minx + c * g.stride <= h.min.x && g.miny + r * g.stride <= h.min.y);
                assert forall|i: int| 0 <= i < e.pts.len() implies !{
                    let p = #[trigger] e.pts[i];
                    ||| p.x < g.minx + c * g.stride
                    ||| p.x > g.minx + c * g.stride + g.field
                    ||| p.y < g.miny + r * g.stride
                    ||| p.y > g.miny + r * g.stride + g.field
                } by {
                    assert(covers(h, e.pts));
                }
            } else {
                assert forall|c: int, r: int|
                    #![trigger g.minx + c * g.stride, g.miny + r * g.stride]
                    0 <= c < g.cols && 0 <= r < g.rows implies exists|i: int|
                    0 <= i < elems[k as int].pts.len() && {
                        let p = #[trigger] elems[k as int].pts[i];
                        ||| p.x < g.minx + c * g.stride
                        ||| p.x > g.minx + c * g.stride + g.field
                        ||| p.y < g.miny + r * g.stride
                        ||| p.y > g.miny + r * g.stride + g.field
                    } by {
                    assert(!window_holds(g, (c, r), h));
                    assert(e.pts[i0].x == h.min.x && e.pts[i1].x == h.max.x);
                }
            }
        } else {
            assert(hull(e.pts) is None);
        }
    }
}

proof fn lemma_oversized_list(elems: Seq<ElemV>, g: Grid, n: nat)
    requires
        n <= elems.len() <= usize::MAX,
    ensures
        forall|k: usize|
            #[trigger] oversized_upto(elems, g, n).contains(k) <==> k < n && is_oversized(
                elems[k as int],
                g,
            ),
        forall|i: int, j: int|
            #![trigger oversized_upto(elems, g, n)[i], oversized_upto(elems, g, n)[j]]
            0 <= i < j < oversized_upto(elems, g, n).len() ==> oversized_upto(elems, g, n)[i]
                < oversized_upto(elems, g, n)[j],
    decreases n,
{
    if n > 0 {
        lemma_oversized_list(elems, g, (n - 1) as nat);
        let before = oversized_upto(elems, g, (n - 1) as nat);
        let now = oversized_upto(elems, g, n);
        assert forall|k: usize| #[trigger] now.contains(k) <==> k < n && is_oversized(
            elems[k as int],
            g,
        ) by {
            if is_oversized(elems[n - 1], g) {
                assert(now[now.len() - 1] == n - 1);
                if before.contains(k) {
                    let i = choose|i: int| 0 <= i < before.len() && before[i] == k;
                    assert(now[i] == k);
                }
                if now.contains(k) && k != n - 1 {
                    let i = choose|i: int| 0 <= i < now.len() && now[i] == k;
                    assert(before[i] == k);
                }
            }
        }
        assert forall|i: int, j: int| #![trigger now[i], now[j]] 0 <= i < j < now.len() implies now[i]
            < now[j] by {
            assert(now[i] == before[i]);
            assert(before.contains(before[i]));
            if j < before.len() {
                assert(now[j] == before[j]);
            }
        }
    }
}

} // verus!
