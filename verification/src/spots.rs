//! Bright spots of a calibration grid: which pixels hang together, and whether
//! they make a compact spot.
use vstd::prelude::*;
use vstd::set_lib::{lemma_len_subset, lemma_set_subset_finite};

verus! {

// ---------------------------------------------------------------------------
// Components
// ---------------------------------------------------------------------------

/// A pixel of a mask.
pub struct Cell {
    pub x: int,
    pub y: int,
}

/// Which pixels of a window are lit: rows of equal width.
#[derive(Debug, PartialEq, Eq)]
pub struct Mask {
    pub width: usize,
    pub lit: Vec<Vec<bool>>,
}

impl Mask {
    pub open spec fn wf(self) -> bool {
        &&& self.width <= i32::MAX
        &&& self.lit@.len() <= i32::MAX
        &&& forall|y: int| 0 <= y < self.lit@.len() ==> (#[trigger] self.lit@[y])@.len() == self.width
    }

    pub open spec fn inside(self, c: Cell) -> bool {
        0 <= c.x < self.width && 0 <= c.y < self.lit@.len()
    }

    pub open spec fn shines(self, c: Cell) -> bool {
        self.inside(c) && self.lit@[c.y]@[c.x]
    }
}

/// Two pixels touch, by a side or a corner.
pub open spec fn adjacent(a: Cell, b: Cell) -> bool {
    a != b && -1 <= a.x - b.x <= 1 && -1 <= a.y - b.y <= 1
}

/// A lit pixel is connected to the seed by at most `n` steps over lit pixels.
pub open spec fn reached(m: Mask, seed: Cell, n: nat, c: Cell) -> bool
    decreases n,
{
    m.shines(c) && (c == seed || (n > 0 && exists|d: Cell|
        #[trigger] adjacent(d, c) && reached(m, seed, (n - 1) as nat, d)))
}

/// A pixel belongs to the seed's component.
pub open spec fn connected(m: Mask, seed: Cell, c: Cell) -> bool {
    exists|n: nat| reached(m, seed, n, c)
}

/// The seed's component: the lit pixels connected to it.
pub open spec fn component(m: Mask, seed: Cell) -> Set<Cell> {
    Set::new(|c: Cell| connected(m, seed, c))
}

/// Fewest pixels of a spot.
pub const MIN_SPOT: usize = 6;

/// The component is the size of a spot: neither too small nor too large, and
/// nowhere wider than the extent.
pub open spec fn is_spot(m: Mask, seed: Cell, max_extent: int, max_area: int) -> bool {
    let c = component(m, seed);
    &&& MIN_SPOT <= c.len() <= max_area
    &&& forall|a: Cell, b: Cell|
        #![trigger c.contains(a), c.contains(b)]
        c.contains(a) && c.contains(b) ==> a.x - b.x < max_extent && a.y - b.y < max_extent
}

proof fn lemma_row_finite(y: int, w: nat)
    ensures
        Set::new(|c: Cell| c.y == y && 0 <= c.x < w).finite(),
    decreases w,
{
    let s = Set::new(|c: Cell| c.y == y && 0 <= c.x < w);
    if w == 0 {
        assert(s =~= Set::empty());
    } else {
        lemma_row_finite(y, (w - 1) as nat);
        let r = Set::new(|c: Cell| c.y == y && 0 <= c.x < w - 1);
        assert(s =~= r.insert(Cell { x: w - 1, y }));
    }
}

proof fn lemma_grid_finite(w: nat, h: nat)
    ensures
        Set::new(|c: Cell| 0 <= c.x < w && 0 <= c.y < h).finite(),
    decreases h,
{
    let s = Set::new(|c: Cell| 0 <= c.x < w && 0 <= c.y < h);
    if h == 0 {
        assert(s =~= Set::empty());
    } else {
        lemma_grid_finite(w, (h - 1) as nat);
        lemma_row_finite(h - 1, w);
        let r = Set::new(|c: Cell| 0 <= c.x < w && 0 <= c.y < h - 1);
        let row = Set::new(|c: Cell| c.y == h - 1 && 0 <= c.x < w);
        assert(s =~= r.union(row));
    }
}

/// A component is finite.
pub proof fn lemma_component_finite(m: Mask, seed: Cell)
    ensures
        component(m, seed).finite(),
{
    let grid = Set::new(|c: Cell| 0 <= c.x < m.width && 0 <= c.y < m.lit@.len());
    lemma_grid_finite(m.width as nat, m.lit@.len());
    assert forall|c: Cell| component(m, seed).contains(c) implies grid.contains(c) by {
        let n = choose|n: nat| reached(m, seed, n, c);
        assert(reached(m, seed, n, c));
    }
    lemma_set_subset_finite(grid, component(m, seed));
}

/// How many of the first pixels of a row were not seen.
spec fn unseen_row(row: Seq<bool>) -> nat
    decreases row.len(),
{
    if row.len() == 0 {
        0
    } else {
        unseen_row(row.drop_last()) + if row.last() {
            0nat
        } else {
            1nat
        }
    }
}

spec fn unseen(rows: Seq<Vec<bool>>) -> nat
    decreases rows.len(),
{
    if rows.len() == 0 {
        0
    } else {
        unseen(rows.drop_last()) + unseen_row(rows.last()@)
    }
}

proof fn lemma_see_row(row: Seq<bool>, x: int)
    requires
        0 <= x < row.len(),
        !row[x],
    ensures
        unseen_row(row.update(x, true)) + 1 == unseen_row(row),
    decreases row.len(),
{
    let r = row.update(x, true);
    if x == row.len() - 1 {
        assert(r.drop_last() =~= row.drop_last());
    } else {
        lemma_see_row(row.drop_last(), x);
        assert(r.drop_last() =~= row.drop_last().update(x, true));
    }
}

proof fn lemma_see(rows: Seq<Vec<bool>>, y: int, v: Vec<bool>, x: int)
    requires
        0 <= y < rows.len(),
        0 <= x < rows[y]@.len(),
        !rows[y]@[x],
        v@ == rows[y]@.update(x, true),
    ensures
        unseen(rows.update(y, v)) + 1 == unseen(rows),
    decreases rows.len(),
{
    let r = rows.update(y, v);
    if y == rows.len() - 1 {
        assert(r.drop_last() =~= rows.drop_last());
        lemma_see_row(rows[y]@, x);
    } else {
        lemma_see(rows.drop_last(), y, v, x);
        assert(r.drop_last() =~= rows.drop_last().update(y, v));
    }
}

/// A pixel was seen.
spec fn was_seen(seen: Seq<Vec<bool>>, c: Cell) -> bool {
    seen[c.y]@[c.x]
}

/// A pixel waits to be looked at.
spec fn waits(stack: Seq<(i64, i64)>, c: Cell) -> bool {
    exists|k: int| 0 <= k < stack.len() && #[trigger] stack[k].0 == c.x && stack[k].1 == c.y
}

spec fn shaped(seen: Seq<Vec<bool>>, m: Mask) -> bool {
    &&& seen.len() == m.lit@.len()
    &&& forall|y: int| 0 <= y < seen.len() ==> (#[trigger] seen[y])@.len() == m.width
}

/// What holds while a component is explored. `found` are the lit pixels seen.
spec fn exploring(
    m: Mask,
    seed: Cell,
    seen: Seq<Vec<bool>>,
    stack: Seq<(i64, i64)>,
    found: Set<Cell>,
) -> bool {
    &&& found.finite()
    &&& forall|c: Cell| #[trigger] found.contains(c) ==> connected(m, seed, c) && was_seen(seen, c)
    &&& forall|c: Cell| m.shines(c) && #[trigger] was_seen(seen, c) ==> found.contains(c)
    &&& forall|k: int|
        0 <= k < stack.len() ==> {
            let c = Cell { x: (#[trigger] stack[k]).0 as int, y: stack[k].1 as int };
            &&& m.shines(c) ==> connected(m, seed, c)
            &&& i32::MIN <= c.x <= i32::MAX
            &&& i32::MIN <= c.y <= i32::MAX
        }
    &&& forall|c: Cell, d: Cell|
        #![trigger found.contains(c), adjacent(c, d)]
        found.contains(c) && adjacent(c, d) && m.inside(d) ==> was_seen(seen, d) || waits(stack, d)
    &&& m.inside(seed) ==> was_seen(seen, seed) || waits(stack, seed)
}

/// When nothing waits, the lit pixels seen are the component.
proof fn lemma_explored(m: Mask, seed: Cell, seen: Seq<Vec<bool>>, found: Set<Cell>)
    requires
        exploring(m, seed, seen, Seq::empty(), found),
    ensures
        found == component(m, seed),
{
    assert forall|c: Cell| component(m, seed).contains(c) implies found.contains(c) by {
        let n = choose|n: nat| reached(m, seed, n, c);
        lemma_reached_found(m, seed, seen, found, n, c);
    }
    assert(found =~= component(m, seed));
}

proof fn lemma_reached_found(
    m: Mask,
    seed: Cell,
    seen: Seq<Vec<bool>>,
    found: Set<Cell>,
    n: nat,
    c: Cell,
)
    requires
        exploring(m, seed, seen, Seq::empty(), found),
        reached(m, seed, n, c),
    ensures
        found.contains(c),
    decreases n,
{
    if c == seed {
        assert(was_seen(seen, c));
    } else {
        let d = choose|d: Cell|
            #[trigger] adjacent(d, c) && reached(m, seed, (n - 1) as nat, d);
        lemma_reached_found(m, seed, seen, found, (n - 1) as nat, d);
        assert(adjacent(d, c));
        assert(was_seen(seen, c));
    }
}

/// A lit neighbour of a connected pixel is connected.
proof fn lemma_step(m: Mask, seed: Cell, c: Cell, d: Cell)
    requires
        connected(m, seed, c),
        adjacent(c, d),
        m.shines(d),
    ensures
        connected(m, seed, d),
{
    let n = choose|n: nat| reached(m, seed, n, c);
    assert(reached(m, seed, (n + 1 - 1) as nat, c));
    assert(reached(m, seed, n + 1, d));
}

/// The pixels around a pixel.
spec fn ring8(x: i64, y: i64) -> Seq<(i64, i64)> {
    seq![
        ((x - 1) as i64, (y - 1) as i64),
        (x, (y - 1) as i64),
        ((x + 1) as i64, (y - 1) as i64),
        ((x - 1) as i64, y),
        ((x + 1) as i64, y),
        ((x - 1) as i64, (y + 1) as i64),
        (x, (y + 1) as i64),
        ((x + 1) as i64, (y + 1) as i64),
    ]
}

fn push_neighbours(stack: &mut Vec<(i64, i64)>, x: i64, y: i64)
    requires
        0 <= x <= i32::MAX,
        0 <= y <= i32::MAX,
    ensures
        final(stack)@ == old(stack)@ + ring8(x, y),
{
    let ghost before = stack@;
    stack.push((x - 1, y - 1));
    stack.push((x, y - 1));
    stack.push((x + 1, y - 1));
    stack.push((x - 1, y));
    stack.push((x + 1, y));
    stack.push((x - 1, y + 1));
    stack.push((x, y + 1));
    stack.push((x + 1, y + 1));
    assert(stack@ =~= before + ring8(x, y));
}

/// The pixels around a pixel are those that touch it.
proof fn lemma_ring8(x: i64, y: i64)
    requires
        0 <= x < i32::MAX,
        0 <= y < i32::MAX,
    ensures
        ({
            let c = Cell { x: x as int, y: y as int };
            &&& forall|k: int|
                0 <= k < 8 ==> adjacent(
                    c,
                    Cell { x: (#[trigger] ring8(x, y)[k]).0 as int, y: ring8(x, y)[k].1 as int },
                )
            &&& forall|d: Cell| #[trigger] adjacent(c, d) ==> waits(ring8(x, y), d)
        }),
{
    let c = Cell { x: x as int, y: y as int };
    let r = ring8(x, y);
    assert forall|d: Cell| #[trigger] adjacent(c, d) implies waits(r, d) by {
        let k: int = if d.y == y - 1 {
            d.x - x + 1
        } else if d.y == y {
            if d.x < x {
                3int
            } else {
                4int
            }
        } else {
            d.x - x + 6
        };
        assert(0 <= k < 8);
        assert(r[k].0 == d.x && r[k].1 == d.y);
    }
}

/// What waits in one of two stacks waits in both together.
proof fn lemma_waits(a: Seq<(i64, i64)>, b: Seq<(i64, i64)>, c: Cell)
    ensures
        waits(a, c) || waits(b, c) ==> waits(a + b, c),
{
    let all = a + b;
    if waits(a, c) {
        let k = choose|k: int| 0 <= k < a.len() && #[trigger] a[k].0 == c.x && a[k].1 == c.y;
        assert(all[k].0 == c.x && all[k].1 == c.y);
    } else if waits(b, c) {
        let k = choose|k: int| 0 <= k < b.len() && #[trigger] b[k].0 == c.x && b[k].1 == c.y;
        assert(all[a.len() + k].0 == c.x && all[a.len() + k].1 == c.y);
    }
}

/// Looking at a pixel outside the window, or at one seen before, changes
/// nothing.
proof fn lemma_skip(
    m: Mask,
    seed: Cell,
    seen: Seq<Vec<bool>>,
    stack: Seq<(i64, i64)>,
    found: Set<Cell>,
)
    requires
        stack.len() > 0,
        exploring(m, seed, seen, stack, found),
        ({
            let c = Cell { x: stack.last().0 as int, y: stack.last().1 as int };
            !m.inside(c) || was_seen(seen, c)
        }),
    ensures
        exploring(m, seed, seen, stack.drop_last(), found),
{
    let rest = stack.drop_last();
    let c = Cell { x: stack.last().0 as int, y: stack.last().1 as int };
    assert forall|d: Cell| m.inside(d) && #[trigger] waits(stack, d) implies was_seen(seen, d)
        || waits(rest, d) by {
        let k = choose|k: int|
            0 <= k < stack.len() && #[trigger] stack[k].0 == d.x && stack[k].1 == d.y;
        if k < rest.len() {
            assert(rest[k].0 == d.x && rest[k].1 == d.y);
        } else {
            assert(d == c);
        }
    }
    assert forall|k: int| 0 <= k < rest.len() implies ({
        let e = Cell { x: (#[trigger] rest[k]).0 as int, y: rest[k].1 as int };
        &&& m.shines(e) ==> connected(m, seed, e)
        &&& i32::MIN <= e.x <= i32::MAX
        &&& i32::MIN <= e.y <= i32::MAX
    }) by {
        assert(rest[k] == stack[k]);
    }
}

/// Seeing one more pixel of the window.
proof fn lemma_look(
    m: Mask,
    seed: Cell,
    seen: Seq<Vec<bool>>,
    after: Seq<Vec<bool>>,
    stack: Seq<(i64, i64)>,
    found: Set<Cell>,
)
    requires
        m.wf(),
        shaped(seen, m),
        shaped(after, m),
        stack.len() > 0,
        exploring(m, seed, seen, stack, found),
        ({
            let c = Cell { x: stack.last().0 as int, y: stack.last().1 as int };
            &&& m.inside(c)
            &&& !was_seen(seen, c)
            &&& forall|d: Cell|
                m.inside(d) ==> #[trigger] was_seen(after, d) == (was_seen(seen, d) || d == c)
        }),
    ensures
        ({
            let c = Cell { x: stack.last().0 as int, y: stack.last().1 as int };
            let rest = stack.drop_last();
            if m.shines(c) {
                exploring(m, seed, after, rest + ring8(c.x as i64, c.y as i64), found.insert(c))
            } else {
                exploring(m, seed, after, rest, found)
            }
        }),
{
    let c = Cell { x: stack.last().0 as int, y: stack.last().1 as int };
    let rest = stack.drop_last();
    assert forall|d: Cell| m.inside(d) && #[trigger] waits(stack, d) implies was_seen(after, d)
        || waits(rest, d) by {
        let k = choose|k: int|
            0 <= k < stack.len() && #[trigger] stack[k].0 == d.x && stack[k].1 == d.y;
        if k < rest.len() {
            assert(rest[k].0 == d.x && rest[k].1 == d.y);
        } else {
            assert(d == c);
        }
    }
    assert forall|k: int| 0 <= k < rest.len() implies ({
        let e = Cell { x: (#[trigger] rest[k]).0 as int, y: rest[k].1 as int };
        &&& m.shines(e) ==> connected(m, seed, e)
        &&& i32::MIN <= e.x <= i32::MAX
        &&& i32::MIN <= e.y <= i32::MAX
    }) by {
        assert(rest[k] == stack[k]);
    }
    assert forall|d: Cell| #[trigger] found.contains(d) implies m.inside(d) by {
        let n = choose|n: nat| reached(m, seed, n, d);
        assert(reached(m, seed, n, d));
    }
    if m.shines(c) {
        let x = c.x as i64;
        let y = c.y as i64;
        let ring = ring8(x, y);
        let all = rest + ring;
        let more = found.insert(c);
        lemma_ring8(x, y);
        assert(stack[stack.len() - 1] == stack.last());
        assert(connected(m, seed, c));
        lemma_waits(rest, ring, seed);
        assert forall|k: int| 0 <= k < all.len() implies ({
            let e = Cell { x: (#[trigger] all[k]).0 as int, y: all[k].1 as int };
            &&& m.shines(e) ==> connected(m, seed, e)
            &&& i32::MIN <= e.x <= i32::MAX
            &&& i32::MIN <= e.y <= i32::MAX
        }) by {
            let e = Cell { x: all[k].0 as int, y: all[k].1 as int };
            if k < rest.len() {
                assert(all[k] == rest[k]);
            } else {
                assert(all[k] == ring[k - rest.len()]);
                assert(adjacent(c, e));
                if m.shines(e) {
                    lemma_step(m, seed, c, e);
                }
            }
        }
        assert forall|a: Cell, d: Cell|
            #![trigger more.contains(a), adjacent(a, d)]
            more.contains(a) && adjacent(a, d) && m.inside(d) implies was_seen(after, d) || waits(
            all,
            d,
        ) by {
            if a == c {
                assert(waits(ring, d));
            } else {
                assert(found.contains(a));
                if !was_seen(seen, d) {
                    assert(waits(stack, d));
                }
            }
            lemma_waits(rest, ring, d);
        }
    }
}

/// The box around the pixels found: it holds them all, and each side touches
/// one.
spec fn boxed(found: Set<Cell>, x0: int, x1: int, y0: int, y1: int) -> bool {
    &&& forall|c: Cell| #[trigger] found.contains(c) ==> x0 <= c.x <= x1 && y0 <= c.y <= y1
    &&& exists|c: Cell| #[trigger] found.contains(c) && c.x == x0
    &&& exists|c: Cell| #[trigger] found.contains(c) && c.x == x1
    &&& exists|c: Cell| #[trigger] found.contains(c) && c.y == y0
    &&& exists|c: Cell| #[trigger] found.contains(c) && c.y == y1
}

proof fn lemma_boxed(found: Set<Cell>, c: Cell, x0: int, x1: int, y0: int, y1: int)
    requires
        boxed(found, x0, x1, y0, y1),
    ensures
        boxed(
            found.insert(c),
            if c.x < x0 { c.x } else { x0 },
            if c.x > x1 { c.x } else { x1 },
            if c.y < y0 { c.y } else { y0 },
            if c.y > y1 { c.y } else { y1 },
        ),
{
    let more = found.insert(c);
    let a = choose|a: Cell| #[trigger] found.contains(a) && a.x == x0;
    let b = choose|a: Cell| #[trigger] found.contains(a) && a.x == x1;
    let d = choose|a: Cell| #[trigger] found.contains(a) && a.y == y0;
    let e = choose|a: Cell| #[trigger] found.contains(a) && a.y == y1;
    assert(more.contains(a) && more.contains(b) && more.contains(d) && more.contains(e));
    assert(more.contains(c));
}

/// A component that outgrows a limit is no spot.
proof fn lemma_too_large(
    m: Mask,
    seed: Cell,
    found: Set<Cell>,
    x0: int,
    x1: int,
    y0: int,
    y1: int,
    max_extent: int,
    max_area: int,
)
    requires
        forall|c: Cell| #[trigger] found.contains(c) ==> connected(m, seed, c),
        boxed(found, x0, x1, y0, y1),
        found.len() > max_area || x1 - x0 >= max_extent || y1 - y0 >= max_extent,
    ensures
        !is_spot(m, seed, max_extent, max_area),
{
    let all = component(m, seed);
    lemma_component_finite(m, seed);
    assert(found.subset_of(all));
    lemma_len_subset(found, all);
    let a = choose|a: Cell| #[trigger] found.contains(a) && a.x == x0;
    let b = choose|a: Cell| #[trigger] found.contains(a) && a.x == x1;
    let d = choose|a: Cell| #[trigger] found.contains(a) && a.y == y0;
    let e = choose|a: Cell| #[trigger] found.contains(a) && a.y == y1;
    assert(all.contains(a) && all.contains(b) && all.contains(d) && all.contains(e));
}

fn nothing_seen(m: &Mask) -> (seen: Vec<Vec<bool>>)
    requires
        m.wf(),
    ensures
        shaped(seen@, *m),
        forall|c: Cell| m.inside(c) ==> !#[trigger] was_seen(seen@, c),
{
    let mut seen: Vec<Vec<bool>> = Vec::new();
    let mut y: usize = 0;
    while y < m.lit.len()
        invariant
            m.wf(),
            y == seen@.len(),
            y <= m.lit@.len(),
            forall|k: int|
                0 <= k < y ==> (#[trigger] seen@[k])@.len() == m.width && forall|x: int|
                    0 <= x < m.width ==> !#[trigger] seen@[k]@[x],
        decreases m.lit@.len() - y,
    {
        let mut row: Vec<bool> = Vec::new();
        let mut x: usize = 0;
        while x < m.width
            invariant
                x == row@.len(),
                x <= m.width,
                forall|k: int| 0 <= k < x ==> !#[trigger] row@[k],
            decreases m.width - x,
        {
            row.push(false);
            x += 1;
        }
        seen.push(row);
        y += 1;
    }
    seen
}

/// Whether the component of a pixel is the size of a spot. The search stops as
/// soon as the component outgrows a limit.
pub fn component_is_square_sized(
    m: &Mask,
    sx: i64,
    sy: i64,
    max_extent: i64,
    max_area: usize,
) -> (r: bool)
    requires
        m.wf(),
        i32::MIN <= sx <= i32::MAX,
        i32::MIN <= sy <= i32::MAX,
    ensures
        r == is_spot(
            *m,
            Cell { x: sx as int, y: sy as int },
            max_extent as int,
            max_area as int,
        ),
{
    let ghost seed = Cell { x: sx as int, y: sy as int };
    let h: i64 = m.lit.len() as i64;
    let w: i64 = m.width as i64;
    let mut seen = nothing_seen(m);
    let mut stack: Vec<(i64, i64)> = Vec::new();
    stack.push((sx, sy));
    let mut count: usize = 0;
    let mut x0: i64 = sx;
    let mut x1: i64 = sx;
    let mut y0: i64 = sy;
    let mut y1: i64 = sy;
    let ghost mut found: Set<Cell> = Set::empty();
    proof {
        assert(stack@[0] == (sx, sy));
        assert(waits(stack@, seed)) by {
            assert(stack@[0].0 == seed.x && stack@[0].1 == seed.y);
        }
        if m.shines(seed) {
            assert(reached(*m, seed, 0, seed));
        }
        assert forall|c: Cell| m.shines(c) && #[trigger] was_seen(seen@, c) implies found.contains(
            c,
        ) by {
            assert(m.inside(c));
        }
        assert(exploring(*m, seed, seen@, stack@, found));
    }
    while stack.len() > 0
        invariant
            m.wf(),
            h == m.lit@.len(),
            w == m.width,
            seed == (Cell { x: sx as int, y: sy as int }),
            shaped(seen@, *m),
            exploring(*m, seed, seen@, stack@, found),
            count == found.len(),
            count <= max_area,
            count > 0 ==> boxed(found, x0 as int, x1 as int, y0 as int, y1 as int),
            count > 0 ==> x1 - x0 < max_extent && y1 - y0 < max_extent,
            count > 0 ==> 0 <= x0 <= x1 <= i32::MAX && 0 <= y0 <= y1 <= i32::MAX,
        decreases unseen(seen@), stack@.len(),
    {
        let ghost was = stack@;
        let ghost before = seen@;
        let top = stack[stack.len() - 1];
        stack.pop();
        let x: i64 = top.0;
        let y: i64 = top.1;
        let ghost c = Cell { x: x as int, y: y as int };
        assert(stack@ =~= was.drop_last());
        let outside: bool = x < 0 || y < 0 || x >= w || y >= h;
        if outside || seen[y as usize][x as usize] {
            proof {
                lemma_skip(*m, seed, before, was, found);
            }
            continue;
        }
        assert(m.inside(c) && !was_seen(seen@, c));
        let xi: usize = x as usize;
        let yi: usize = y as usize;
        seen[yi][xi] = true;
        proof {
            assert(seen@[y as int]@ =~= before[y as int]@.update(x as int, true));
            assert(seen@ =~= before.update(y as int, seen@[y as int]));
            lemma_see(before, y as int, seen@[y as int], x as int);
            assert forall|d: Cell| m.inside(d) implies #[trigger] was_seen(seen@, d) == (was_seen(
                before,
                d,
            ) || d == c) by {
                if d.y == c.y && d.x == c.x {
                    assert(d == c);
                }
            }
            lemma_look(*m, seed, before, seen@, was, found);
        }
        assert(m.lit@[y as int]@.len() == m.width);
        if !m.lit[yi][xi] {
            continue;
        }
        let ghost old_found = found;
        proof {
            assert(!found.contains(c));
            found = found.insert(c);
            assert forall|d: Cell| #[trigger] found.contains(d) implies connected(*m, seed, d) by {
                if d == c {
                    assert(was[was.len() - 1] == top);
                }
            }
        }
        if count == 0 {
            x0 = x;
            x1 = x;
            y0 = y;
            y1 = y;
            proof {
                assert(old_found.len() == 0);
                assert(old_found =~= Set::empty());
                assert(found.contains(c));
            }
        } else {
            proof {
                lemma_boxed(old_found, c, x0 as int, x1 as int, y0 as int, y1 as int);
            }
            if x < x0 {
                x0 = x;
            }
            if x > x1 {
                x1 = x;
            }
            if y < y0 {
                y0 = y;
            }
            if y > y1 {
                y1 = y;
            }
        }
        if count >= max_area || x1 - x0 >= max_extent || y1 - y0 >= max_extent {
            proof {
                lemma_too_large(
                    *m,
                    seed,
                    found,
                    x0 as int,
                    x1 as int,
                    y0 as int,
                    y1 as int,
                    max_extent as int,
                    max_area as int,
                );
            }
            return false;
        }
        count += 1;
        push_neighbours(&mut stack, x, y);
    }
    proof {
        assert(stack@ =~= Seq::empty());
        lemma_explored(*m, seed, seen@, found);
        let all = component(*m, seed);
        assert forall|a: Cell, b: Cell|
            #![trigger all.contains(a), all.contains(b)]
            all.contains(a) && all.contains(b) implies a.x - b.x < max_extent && a.y - b.y
            < max_extent by {
            assert(found.contains(a) && found.contains(b));
            if count == 0 {
                assert(found =~= Set::empty());
            }
        }
    }
    count >= MIN_SPOT
}

/// A component holds its seed, if that is lit, and with a pixel every lit pixel
/// that touches it by a side or a corner; and it is the least such set.
pub proof fn components_are_what_hangs_together(m: Mask, seed: Cell, s: Set<Cell>)
    requires
        m.shines(seed) ==> s.contains(seed),
        forall|c: Cell, d: Cell|
            #![trigger s.contains(c), m.shines(d)]
            s.contains(c) && m.shines(d) && -1 <= c.x - d.x <= 1 && -1 <= c.y - d.y <= 1
                ==> s.contains(d),
    ensures
        m.shines(seed) ==> component(m, seed).contains(seed),
        forall|c: Cell, d: Cell|
            #![trigger component(m, seed).contains(c), m.shines(d)]
            component(m, seed).contains(c) && m.shines(d) && -1 <= c.x - d.x <= 1 && -1 <= c.y - d.y
                <= 1 ==> component(m, seed).contains(d),
        component(m, seed).subset_of(s),
{
    if m.shines(seed) {
        assert(reached(m, seed, 0, seed));
    }
    assert forall|c: Cell, d: Cell|
        #![trigger component(m, seed).contains(c), m.shines(d)]
        component(m, seed).contains(c) && m.shines(d) && -1 <= c.x - d.x <= 1 && -1 <= c.y - d.y
            <= 1 implies component(m, seed).contains(d) by {
        let n = choose|n: nat| reached(m, seed, n, c);
        if c != d {
            assert(adjacent(c, d));
            assert(reached(m, seed, n + 1, d));
        }
    }
    assert forall|c: Cell| component(m, seed).contains(c) implies s.contains(c) by {
        let n = choose|n: nat| reached(m, seed, n, c);
        lemma_reached_in(m, seed, s, n, c);
    }
}

proof fn lemma_reached_in(m: Mask, seed: Cell, s: Set<Cell>, n: nat, c: Cell)
    requires
        m.shines(seed) ==> s.contains(seed),
        forall|c: Cell, d: Cell|
            #![trigger s.contains(c), m.shines(d)]
            s.contains(c) && m.shines(d) && -1 <= c.x - d.x <= 1 && -1 <= c.y - d.y <= 1
                ==> s.contains(d),
        reached(m, seed, n, c),
    ensures
        s.contains(c),
    decreases n,
{
    if c != seed {
        let d = choose|d: Cell| #[trigger] adjacent(d, c) && reached(m, seed, (n - 1) as nat, d);
        lemma_reached_in(m, seed, s, (n - 1) as nat, d);
        assert(s.contains(d) && m.shines(c));
    }
}

/// A spot has six pixels at least, no more than the area, and fits a square of
/// the extent; whatever does, is one.
pub proof fn spots_fit_their_limits(m: Mask, seed: Cell, max_extent: int, max_area: int)
    ensures
        is_spot(m, seed, max_extent, max_area) <==> {
            let c = component(m, seed);
            &&& c.len() >= 6
            &&& c.len() <= max_area
            &&& forall|a: Cell, b: Cell|
                #![trigger c.contains(a), c.contains(b)]
                c.contains(a) && c.contains(b) ==> b.x < a.x + max_extent && b.y < a.y + max_extent
        },
{
}

} // verus!
