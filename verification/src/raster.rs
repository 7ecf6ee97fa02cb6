//! Sums over windows of a gray image.
//!
//! A summed-area table holds, for every corner, the sum over all pixels above
//! and to the left of it; four of its cells give the sum over any window.
use vstd::prelude::*;

verus! {

/// A gray image: rows of equal width.
#[derive(Debug, PartialEq, Eq)]
pub struct Gray {
    pub width: usize,
    pub rows: Vec<Vec<u8>>,
}

impl Gray {
    pub open spec fn wf(self) -> bool {
        &&& self.width < usize::MAX
        &&& forall|y: int| 0 <= y < self.rows@.len() ==> (#[trigger] self.rows@[y])@.len() == self.width
    }

    /// The value of a pixel.
    pub open spec fn at(self, x: int, y: int) -> u8 {
        self.rows@[y]@[x]
    }
}

/// What a pixel adds to a sum: its value or the square of it.
pub open spec fn weight(v: u8, squared: bool) -> int {
    if squared {
        v * v
    } else {
        v as int
    }
}

/// The sum over columns `x0` up to `x1` of row `y`.
pub open spec fn row_sum(f: Gray, squared: bool, y: int, x0: int, x1: int) -> int
    decreases x1 - x0,
{
    if x1 <= x0 {
        0
    } else {
        row_sum(f, squared, y, x0, x1 - 1) + weight(f.at(x1 - 1, y), squared)
    }
}

/// The sum over a window: columns `x0` up to `x1`, rows `y0` up to `y1`.
pub open spec fn window_sum(f: Gray, squared: bool, x0: int, y0: int, x1: int, y1: int) -> int
    decreases y1 - y0,
{
    if y1 <= y0 {
        0
    } else {
        window_sum(f, squared, x0, y0, x1, y1 - 1) + row_sum(f, squared, y1 - 1, x0, x1)
    }
}

/// A row splits at any column.
proof fn lemma_row_splits(f: Gray, squared: bool, y: int, x0: int, x1: int)
    requires
        0 <= x0 <= x1,
    ensures
        row_sum(f, squared, y, 0, x1) == row_sum(f, squared, y, 0, x0) + row_sum(
            f,
            squared,
            y,
            x0,
            x1,
        ),
    decreases x1 - x0,
{
    if x0 < x1 {
        lemma_row_splits(f, squared, y, x0, x1 - 1);
    }
}

/// A window splits at any row.
proof fn lemma_rows_split(f: Gray, squared: bool, x: int, y0: int, y1: int)
    requires
        0 <= y0 <= y1,
    ensures
        window_sum(f, squared, 0, 0, x, y1) == window_sum(f, squared, 0, 0, x, y0) + window_sum(
            f,
            squared,
            0,
            y0,
            x,
            y1,
        ),
    decreases y1 - y0,
{
    if y0 < y1 {
        lemma_rows_split(f, squared, x, y0, y1 - 1);
    }
}

/// A window splits at any column.
proof fn lemma_columns_split(f: Gray, squared: bool, x0: int, x1: int, y0: int, y1: int)
    requires
        0 <= x0 <= x1,
    ensures
        window_sum(f, squared, 0, y0, x1, y1) == window_sum(f, squared, 0, y0, x0, y1) + window_sum(
            f,
            squared,
            x0,
            y0,
            x1,
            y1,
        ),
    decreases y1 - y0,
{
    if y0 < y1 {
        lemma_columns_split(f, squared, x0, x1, y0, y1 - 1);
        lemma_row_splits(f, squared, y1 - 1, x0, x1);
    }
}

proof fn lemma_weight(v: u8, squared: bool)
    ensures
        0 <= weight(v, squared) <= 65_025,
{
    assert(0 <= v * v <= 65_025) by (nonlinear_arith)
        requires
            0 <= v <= 255,
    ;
}

proof fn lemma_row_bounds(f: Gray, squared: bool, y: int, x0: int, x1: int)
    requires
        x0 <= x1,
    ensures
        0 <= row_sum(f, squared, y, x0, x1) <= 65_025 * (x1 - x0),
    decreases x1 - x0,
{
    if x0 < x1 {
        lemma_row_bounds(f, squared, y, x0, x1 - 1);
        lemma_weight(f.at(x1 - 1, y), squared);
    }
}

/// A sum over a window is no larger than its pixels can make it.
pub proof fn lemma_window_bounds(f: Gray, squared: bool, x0: int, y0: int, x1: int, y1: int)
    requires
        x0 <= x1,
        y0 <= y1,
    ensures
        0 <= window_sum(f, squared, x0, y0, x1, y1) <= (65_025 * (x1 - x0)) * (y1 - y0),
    decreases y1 - y0,
{
    let m = 65_025 * (x1 - x0);
    if y0 < y1 {
        lemma_window_bounds(f, squared, x0, y0, x1, y1 - 1);
        lemma_row_bounds(f, squared, y1 - 1, x0, x1);
        assert(m * (y1 - y0) == m * (y1 - 1 - y0) + m) by (nonlinear_arith);
    } else {
        assert(m * (y1 - y0) == 0) by (nonlinear_arith)
            requires
                y1 == y0,
        ;
    }
}

/// The table's width leaves room for every sum.
pub open spec fn summable(f: Gray) -> bool {
    f.wf() && (65_025 * f.width) * f.rows@.len() <= u128::MAX
}

proof fn lemma_corner_fits(f: Gray, squared: bool, x: int, y: int)
    requires
        summable(f),
        0 <= x <= f.width,
        0 <= y <= f.rows@.len(),
    ensures
        0 <= window_sum(f, squared, 0, 0, x, y) <= u128::MAX,
{
    lemma_window_bounds(f, squared, 0, 0, x, y);
    assert((65_025 * x) * y <= (65_025 * f.width) * f.rows@.len()) by (nonlinear_arith)
        requires
            0 <= x <= f.width,
            0 <= y <= f.rows@.len(),
    ;
}

/// A summed-area table: of the pixels or of their squares.
#[derive(Debug, PartialEq, Eq)]
pub struct Table {
    cells: Vec<Vec<u128>>,
}

impl Table {
    /// The table sums this image.
    pub closed spec fn sums(self, f: Gray, squared: bool) -> bool {
        &&& self.cells@.len() == f.rows@.len() + 1
        &&& forall|y: int|
            0 <= y <= f.rows@.len() ==> corner_row((#[trigger] self.cells@[y])@, f, squared, y)
    }

    /// Sum up an image.
    pub fn new(f: &Gray, squared: bool) -> (t: Table)
        requires
            summable(*f),
        ensures
            t.sums(*f, squared),
    {
        let h: usize = f.rows.len();
        let mut cells: Vec<Vec<u128>> = Vec::new();
        cells.push(zeros(f, squared));
        let mut y: usize = 0;
        while y < h
            invariant
                y <= h == f.rows@.len(),
                summable(*f),
                cells@.len() == y + 1,
                forall|k: int|
                    0 <= k <= y ==> corner_row((#[trigger] cells@[k])@, *f, squared, k),
            decreases h - y,
        {
            let row = next_row(f, squared, y, &cells[y]);
            cells.push(row);
            y += 1;
        }
        Table { cells }
    }

    /// The sum over a window, from the four corners.
    pub fn area_sum(
        &self,
        f: &Gray,
        squared: bool,
        x0: usize,
        y0: usize,
        x1: usize,
        y1: usize,
    ) -> (s: u128)
        requires
            summable(*f),
            self.sums(*f, squared),
            x0 <= x1 <= f.width,
            y0 <= y1 <= f.rows@.len(),
        ensures
            s == window_sum(*f, squared, x0 as int, y0 as int, x1 as int, y1 as int),
    {
        let ghost sq = squared;
        proof {
            assert(corner_row(self.cells@[y0 as int]@, *f, sq, y0 as int));
            assert(corner_row(self.cells@[y1 as int]@, *f, sq, y1 as int));
            lemma_rows_split(*f, sq, x0 as int, y0 as int, y1 as int);
            lemma_rows_split(*f, sq, x1 as int, y0 as int, y1 as int);
            lemma_columns_split(*f, sq, x0 as int, x1 as int, y0 as int, y1 as int);
            lemma_window_bounds(*f, sq, 0, y0 as int, x0 as int, y1 as int);
            lemma_window_bounds(*f, sq, x0 as int, y0 as int, x1 as int, y1 as int);
        }
        let right: u128 = self.cells[y1][x1] - self.cells[y0][x1];
        let left: u128 = self.cells[y1][x0] - self.cells[y0][x0];
        right - left
    }
}

/// One row of a table.
pub open spec fn corner_row(row: Seq<u128>, f: Gray, squared: bool, y: int) -> bool {
    &&& row.len() == f.width + 1
    &&& forall|x: int|
        0 <= x <= f.width ==> #[trigger] row[x] == window_sum(f, squared, 0, 0, x, y)
}

fn zeros(f: &Gray, squared: bool) -> (row: Vec<u128>)
    requires
        f.wf(),
    ensures
        corner_row(row@, *f, squared, 0),
{
    let mut row: Vec<u128> = Vec::new();
    let mut x: usize = 0;
    while x < f.width + 1
        invariant
            x <= f.width + 1 <= usize::MAX,
            row@.len() == x,
            forall|k: int| 0 <= k < x ==> #[trigger] row@[k] == 0,
        decreases f.width + 1 - x,
    {
        row.push(0);
        x += 1;
    }
    row
}

/// The row below, from the row above and the pixels between.
fn next_row(f: &Gray, squared: bool, y: usize, above: &Vec<u128>) -> (row: Vec<u128>)
    requires
        summable(*f),
        y < f.rows@.len(),
        corner_row(above@, *f, squared, y as int),
    ensures
        corner_row(row@, *f, squared, y + 1),
{
    let mut row: Vec<u128> = Vec::new();
    let mut run: u128 = 0;
    row.push(above[0]);
    proof {
        lemma_row_bounds(*f, squared, y as int, 0, 0);
    }
    let mut x: usize = 0;
    while x < f.width
        invariant
            x <= f.width,
            summable(*f),
            y < f.rows@.len(),
            corner_row(above@, *f, squared, y as int),
            row@.len() == x + 1,
            run == row_sum(*f, squared, y as int, 0, x as int),
            forall|k: int|
                0 <= k <= x ==> #[trigger] row@[k] == window_sum(*f, squared, 0, 0, k, y + 1),
        decreases f.width - x,
    {
        assert(f.rows@[y as int]@.len() == f.width);
        let v: u8 = f.rows[y][x];
        proof {
            lemma_weight(v, squared);
            lemma_corner_fits(*f, squared, x + 1, y + 1);
            lemma_window_bounds(*f, squared, 0, 0, x + 1, y as int);
            assert(f.at(x as int, y as int) == v);
            assert(above@[x + 1] == window_sum(*f, squared, 0, 0, x + 1, y as int));
        }
        let add: u128 = if squared {
            (v as u128) * (v as u128)
        } else {
            v as u128
        };
        run = run + add;
        row.push(above[x + 1] + run);
        x += 1;
    }
    row
}

/// The window of a radius around a coordinate, cut off at the border.
pub fn around(at: usize, radius: usize, size: usize) -> (r: (usize, usize))
    requires
        at < size,
        at + radius < usize::MAX,
    ensures
        r.0 == if at >= radius {
            at - radius
        } else {
            0
        },
        r.1 == if at + radius + 1 <= size {
            at + radius + 1
        } else {
            size as int
        },
        r.0 <= at < r.1 <= size,
{
    let lo: usize = if at >= radius {
        at - radius
    } else {
        0
    };
    let hi: usize = if at + radius + 1 <= size {
        at + radius + 1
    } else {
        size
    };
    (lo, hi)
}

/// A window of one pixel sums to its value, or to the square of it; an empty one
/// to nothing; and a window sums to what the parts of any cut across it do.
pub proof fn windows_sum_their_pixels(
    f: Gray,
    squared: bool,
    x0: int,
    y0: int,
    x1: int,
    y1: int,
    x2: int,
    y2: int,
)
    requires
        x0 <= x1 <= x2,
        y0 <= y1 <= y2,
    ensures
        window_sum(f, false, x0, y0, x0 + 1, y0 + 1) == f.rows@[y0]@[x0],
        window_sum(f, true, x0, y0, x0 + 1, y0 + 1) == f.rows@[y0]@[x0] * f.rows@[y0]@[x0],
        window_sum(f, squared, x0, y0, x0, y2) == 0,
        window_sum(f, squared, x0, y0, x2, y0) == 0,
        window_sum(f, squared, x0, y0, x2, y2) == window_sum(f, squared, x0, y0, x1, y2)
            + window_sum(f, squared, x1, y0, x2, y2),
        window_sum(f, squared, x0, y0, x2, y2) == window_sum(f, squared, x0, y0, x2, y1)
            + window_sum(f, squared, x0, y1, x2, y2),
{
    reveal_with_fuel(window_sum, 2);
    reveal_with_fuel(row_sum, 2);
    lemma_no_columns(f, squared, x0, y0, y2);
    lemma_cut_columns(f, squared, x0, x1, x2, y0, y2);
    lemma_cut_rows(f, squared, x0, x2, y0, y1, y2);
}

proof fn lemma_no_columns(f: Gray, squared: bool, x: int, y0: int, y1: int)
    ensures
        window_sum(f, squared, x, y0, x, y1) == 0,
    decreases y1 - y0,
{
    if y0 < y1 {
        lemma_no_columns(f, squared, x, y0, y1 - 1);
    }
}

proof fn lemma_cut_row(f: Gray, squared: bool, y: int, x0: int, x1: int, x2: int)
    requires
        x0 <= x1 <= x2,
    ensures
        row_sum(f, squared, y, x0, x2) == row_sum(f, squared, y, x0, x1) + row_sum(
            f,
            squared,
            y,
            x1,
            x2,
        ),
    decreases x2 - x1,
{
    if x1 < x2 {
        lemma_cut_row(f, squared, y, x0, x1, x2 - 1);
    }
}

proof fn lemma_cut_columns(
    f: Gray,
    squared: bool,
    x0: int,
    x1: int,
    x2: int,
    y0: int,
    y1: int,
)
    requires
        x0 <= x1 <= x2,
    ensures
        window_sum(f, squared, x0, y0, x2, y1) == window_sum(f, squared, x0, y0, x1, y1)
            + window_sum(f, squared, x1, y0, x2, y1),
    decreases y1 - y0,
{
    if y0 < y1 {
        lemma_cut_columns(f, squared, x0, x1, x2, y0, y1 - 1);
        lemma_cut_row(f, squared, y1 - 1, x0, x1, x2);
    }
}

proof fn lemma_cut_rows(f: Gray, squared: bool, x0: int, x1: int, y0: int, y1: int, y2: int)
    requires
        y0 <= y1 <= y2,
    ensures
        window_sum(f, squared, x0, y0, x1, y2) == window_sum(f, squared, x0, y0, x1, y1)
            + window_sum(f, squared, x0, y1, x1, y2),
    decreases y2 - y1,
{
    if y1 < y2 {
        lemma_cut_rows(f, squared, x0, x1, y0, y1, y2 - 1);
    }
}

} // verus!
