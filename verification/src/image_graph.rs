//! Rectangle decomposition of a pixel grid: reachable clear space is
//! partitioned into disjoint maximal axis-aligned rectangles, each a graph
//! node, and adjacent rectangles are linked by edges discovered during a
//! boundary scan of every claimed rectangle.

use std::collections::VecDeque;

use vstd::prelude::*;

use crate::graph::{edge_of, edges_unique, has_key, key_index, value_of, Edge, EdgeSetGraph, NodeID};
use crate::math::{Rect, V2};

verus! {

broadcast use vstd::seq_lib::group_seq_properties;

/// The largest accepted grid side; keeps every coordinate, node count and
/// cell index comfortably inside the machine integer types.
pub const MAX_DIM: usize = 0x7fff;

/// The state of one grid cell.
#[derive(Clone, Copy, Debug, PartialEq, Eq, Structural)]
pub enum GridSquare {
    Clear,
    Wall,
    Covered(NodeID),
}

/// How many cells of the sequence are clear.
pub closed spec fn count_clear_seq(s: Seq<GridSquare>) -> nat
    decreases s.len(),
{
    if s.len() == 0 {
        0
    } else {
        count_clear_seq(s.drop_last()) + if s.last() == GridSquare::Clear {
            1nat
        } else {
            0nat
        }
    }
}

proof fn lemma_count_le_len(s: Seq<GridSquare>)
    ensures
        count_clear_seq(s) <= s.len(),
    decreases s.len(),
{
    if s.len() > 0 {
        lemma_count_le_len(s.drop_last());
    }
}

/// Overwriting a clear cell with anything else strictly lowers the clear
/// count.
proof fn lemma_count_update(s: Seq<GridSquare>, i: int, v: GridSquare)
    requires
        0 <= i < s.len(),
        s[i] == GridSquare::Clear,
        v != GridSquare::Clear,
    ensures
        count_clear_seq(s.update(i, v)) < count_clear_seq(s),
    decreases s.len(),
{
    let s2 = s.update(i, v);
    if i == s.len() - 1 {
        assert(s2.drop_last() =~= s.drop_last());
        assert(s2.last() == v && s.last() == GridSquare::Clear);
    } else {
        assert(s2.drop_last() =~= s.drop_last().update(i, v));
        lemma_count_update(s.drop_last(), i, v);
        assert(s2.last() == s.last());
    }
}

/// A dense row-major grid of cell states, built once from a bitmap and
/// mutated only by the decomposer, which claims clear cells for rectangles.
pub struct Grid {
    squares: Vec<GridSquare>,
    width: usize,
    height: usize,
}

proof fn lemma_grid_area(w: int, h: int)
    by (nonlinear_arith)
    requires
        0 <= w <= MAX_DIM,
        0 <= h <= MAX_DIM,
    ensures
        w * h <= 0x3fff0001,
{
}

proof fn lemma_grid_index(w: int, h: int, x: int, y: int)
    by (nonlinear_arith)
    requires
        0 <= x < w,
        0 <= y < h,
    ensures
        0 <= y * w + x < w * h,
{
}

proof fn lemma_grid_index_injective(w: int, x1: int, y1: int, x2: int, y2: int)
    by (nonlinear_arith)
    requires
        0 <= x1 < w,
        0 <= x2 < w,
        0 <= y1,
        0 <= y2,
        !(x1 == x2 && y1 == y2),
    ensures
        y1 * w + x1 != y2 * w + x2,
{
}

impl Grid {
    pub closed spec fn spec_width(&self) -> int {
        self.width as int
    }

    pub closed spec fn spec_height(&self) -> int {
        self.height as int
    }

    /// The cell array matches the dimensions and both sides are bounded.
    pub closed spec fn wf(&self) -> bool {
        &&& self.squares@.len() == self.width * self.height
        &&& self.width <= MAX_DIM
        &&& self.height <= MAX_DIM
    }

    /// The state of the cell at (x, y).
    pub closed spec fn at(&self, x: int, y: int) -> GridSquare {
        self.squares@[y * self.spec_width() + x]
    }

    /// How many cells are still clear.
    pub closed spec fn spec_clear_count(&self) -> nat {
        count_clear_seq(self.squares@)
    }

    pub open spec fn spec_in_bounds(&self, p: V2) -> bool {
        0 <= p.x < self.spec_width() && 0 <= p.y < self.spec_height()
    }

    /// Builds the grid from per-cell clear flags in row-major order.
    pub fn new(width: usize, height: usize, clear: Vec<bool>) -> (g: Grid)
        requires
            width <= MAX_DIM,
            height <= MAX_DIM,
            clear@.len() == width * height,
        ensures
            g.wf(),
            g.spec_width() == width,
            g.spec_height() == height,
            forall|x: int, y: int|
                0 <= x < width && 0 <= y < height ==> g.at(x, y) == (if clear@[y * width + x] {
                    GridSquare::Clear
                } else {
                    GridSquare::Wall
                }),
    {
        let total = clear.len();
        let mut squares: Vec<GridSquare> = Vec::new();
        let mut i: usize = 0;
        while i < total
            invariant
                total == clear@.len(),
                0 <= i <= total,
                squares@.len() == i,
                forall|j: int|
                    0 <= j < i ==> squares@[j] == (if clear@[j] {
                        GridSquare::Clear
                    } else {
                        GridSquare::Wall
                    }),
            decreases total - i,
        {
            if clear[i] {
                squares.push(GridSquare::Clear);
            } else {
                squares.push(GridSquare::Wall);
            }
            i += 1;
        }
        let g = Grid { squares, width, height };
        proof {
            assert forall|x: int, y: int| 0 <= x < width && 0 <= y < height implies g.at(x, y) == (
            if clear@[y * width + x] {
                GridSquare::Clear
            } else {
                GridSquare::Wall
            }) by {
                lemma_grid_index(width as int, height as int, x, y);
            }
        }
        g
    }

    pub fn in_bounds(&self, pos: V2) -> (r: bool)
        requires
            self.wf(),
        ensures
            r == self.spec_in_bounds(pos),
    {
        pos.x >= 0 && pos.y >= 0 && (pos.x as usize) < self.width && (pos.y as usize) < self.height
    }

    pub fn get(&self, pos: V2) -> (sq: GridSquare)
        requires
            self.wf(),
            self.spec_in_bounds(pos),
        ensures
            sq == self.at(pos.x as int, pos.y as int),
    {
        proof {
            lemma_grid_index(self.spec_width(), self.spec_height(), pos.x as int, pos.y as int);
            lemma_grid_area(self.spec_width(), self.spec_height());
        }
        let index = pos.y as usize * self.width + pos.x as usize;
        self.squares[index]
    }

    /// Overwrites the cell at `pos`.
    fn set(&mut self, pos: V2, sq: GridSquare)
        requires
            old(self).wf(),
            old(self).spec_in_bounds(pos),
        ensures
            final(self).wf(),
            final(self).spec_width() == old(self).spec_width(),
            final(self).spec_height() == old(self).spec_height(),
            final(self).at(pos.x as int, pos.y as int) == sq,
            forall|x: int, y: int|
                0 <= x < old(self).spec_width() && 0 <= y < old(self).spec_height() && !(x == pos.x
                    && y == pos.y) ==> final(self).at(x, y) == old(self).at(x, y),
            final(self).squares@ == old(self).squares@.update(
                pos.y * old(self).spec_width() + pos.x,
                sq,
            ),
    {
        proof {
            lemma_grid_index(self.spec_width(), self.spec_height(), pos.x as int, pos.y as int);
            lemma_grid_area(self.spec_width(), self.spec_height());
        }
        let index = pos.y as usize * self.width + pos.x as usize;
        self.squares.set(index, sq);
        proof {
            assert forall|x: int, y: int|
                0 <= x < old(self).spec_width() && 0 <= y < old(self).spec_height() && !(x == pos.x
                    && y == pos.y) implies final(self).at(x, y) == old(self).at(x, y) by {
                lemma_grid_index(old(self).spec_width(), old(self).spec_height(), x, y);
                lemma_grid_index_injective(
                    old(self).spec_width(),
                    x,
                    y,
                    pos.x as int,
                    pos.y as int,
                );
            }
        }
    }
}

/// Is every cell of the row `y` with `x0 <= x < x1` clear?
fn row_clear(grid: &Grid, x0: i32, x1: i32, y: i32) -> (r: bool)
    requires
        grid.wf(),
        0 <= x0 <= x1 <= grid.spec_width(),
        0 <= y < grid.spec_height(),
    ensures
        r <==> forall|x: int| x0 <= x < x1 ==> grid.at(x, y as int) == GridSquare::Clear,
{
    let mut x = x0;
    while x < x1
        invariant
            grid.wf(),
            0 <= x0 <= x <= x1 <= grid.spec_width(),
            0 <= y < grid.spec_height(),
            forall|k: int| x0 <= k < x ==> grid.at(k, y as int) == GridSquare::Clear,
        decreases x1 - x,
    {
        if grid.get(V2::new(x, y)) != GridSquare::Clear {
            return false;
        }
        x += 1;
    }
    true
}

/// Grows a rectangle of clear cells around the seed: first the seed's row is
/// extended left, then right, then whole rows are absorbed upward and
/// downward while every cell across the fixed x-range stays clear. The
/// result is maximal under that scan order and deterministic.
pub fn grow_rect(grid: &Grid, seed: V2) -> (r: Rect)
    requires
        grid.wf(),
        grid.spec_in_bounds(seed),
        grid.at(seed.x as int, seed.y as int) == GridSquare::Clear,
    ensures
        r.wf(),
        r.spec_contains(seed),
        0 <= r.mins.x,
        r.maxs.x <= grid.spec_width(),
        0 <= r.mins.y,
        r.maxs.y <= grid.spec_height(),
        forall|x: int, y: int| r.contains_cell(x, y) ==> grid.at(x, y) == GridSquare::Clear,
        // maximal under the scan order: each side is blocked
        r.mins.x == 0 || grid.at(r.mins.x - 1, seed.y as int) != GridSquare::Clear,
        r.maxs.x == grid.spec_width() || grid.at(r.maxs.x as int, seed.y as int)
            != GridSquare::Clear,
        r.mins.y == 0 || exists|x: int|
            r.mins.x <= x < r.maxs.x && #[trigger] grid.at(x, r.mins.y - 1) != GridSquare::Clear,
        r.maxs.y == grid.spec_height() || exists|x: int|
            r.mins.x <= x < r.maxs.x && #[trigger] grid.at(x, r.maxs.y as int)
                != GridSquare::Clear,
{
    let width = grid.width_i32();
    let height = grid.height_i32();
    let mut minsx = seed.x;
    let mut maxsx = seed.x + 1;
    let mut minsy = seed.y;
    let mut maxsy = seed.y + 1;
    while minsx > 0 && grid.get(V2::new(minsx - 1, seed.y)) == GridSquare::Clear
        invariant
            grid.wf(),
            grid.spec_in_bounds(seed),
            0 <= minsx <= seed.x,
            forall|x: int| minsx <= x <= seed.x ==> grid.at(x, seed.y as int) == GridSquare::Clear,
        decreases minsx,
    {
        minsx -= 1;
    }
    while maxsx < width && grid.get(V2::new(maxsx, seed.y)) == GridSquare::Clear
        invariant
            grid.wf(),
            grid.spec_in_bounds(seed),
            width == grid.spec_width(),
            seed.x < maxsx <= width,
            forall|x: int| seed.x < x < maxsx ==> grid.at(x, seed.y as int) == GridSquare::Clear,
        decreases width - maxsx,
    {
        maxsx += 1;
    }
    while minsy > 0 && row_clear(grid, minsx, maxsx, minsy - 1)
        invariant
            grid.wf(),
            grid.spec_in_bounds(seed),
            0 <= minsx <= seed.x,
            seed.x < maxsx <= grid.spec_width(),
            0 <= minsy <= seed.y,
            forall|x: int, y: int|
                minsx <= x < maxsx && minsy <= y <= seed.y ==> grid.at(x, y) == GridSquare::Clear,
        decreases minsy,
    {
        minsy -= 1;
    }
    while maxsy < height && row_clear(grid, minsx, maxsx, maxsy)
        invariant
            grid.wf(),
            grid.spec_in_bounds(seed),
            height == grid.spec_height(),
            0 <= minsx <= seed.x,
            seed.x < maxsx <= grid.spec_width(),
            0 <= minsy <= seed.y,
            seed.y < maxsy <= height,
            forall|x: int, y: int|
                minsx <= x < maxsx && minsy <= y < maxsy ==> grid.at(x, y) == GridSquare::Clear,
        decreases height - maxsy,
    {
        maxsy += 1;
    }
    Rect::new_unchecked(V2::new(minsx, minsy), V2::new(maxsx, maxsy))
}

impl Grid {
    fn width_i32(&self) -> (w: i32)
        requires
            self.wf(),
        ensures
            w == self.spec_width(),
    {
        self.width as i32
    }

    fn height_i32(&self) -> (h: i32)
        requires
            self.wf(),
        ensures
            h == self.spec_height(),
    {
        self.height as i32
    }
}

/// Claims every cell of a grown rectangle for the node `id`: each cell goes
/// from clear to covered, and nothing else changes.
fn claim_rect(grid: &mut Grid, rect: Rect, id: NodeID)
    requires
        old(grid).wf(),
        rect.wf(),
        rect.mins.x < rect.maxs.x,
        rect.mins.y < rect.maxs.y,
        0 <= rect.mins.x,
        rect.maxs.x <= old(grid).spec_width(),
        0 <= rect.mins.y,
        rect.maxs.y <= old(grid).spec_height(),
        forall|x: int, y: int|
            rect.contains_cell(x, y) ==> #[trigger] old(grid).at(x, y) == GridSquare::Clear,
    ensures
        final(grid).wf(),
        final(grid).spec_width() == old(grid).spec_width(),
        final(grid).spec_height() == old(grid).spec_height(),
        forall|x: int, y: int|
            rect.contains_cell(x, y) ==> #[trigger] final(grid).at(x, y) == GridSquare::Covered(
                id,
            ),
        forall|x: int, y: int|
            0 <= x < old(grid).spec_width() && 0 <= y < old(grid).spec_height()
                && !rect.contains_cell(x, y) ==> #[trigger] final(grid).at(x, y) == old(grid).at(
                x,
                y,
            ),
        final(grid).spec_clear_count() < old(grid).spec_clear_count(),
{
    let mut y = rect.mins.y;
    while y < rect.maxs.y
        invariant
            grid.wf(),
            grid.spec_width() == old(grid).spec_width(),
            grid.spec_height() == old(grid).spec_height(),
            rect.wf(),
            rect.mins.x < rect.maxs.x,
            rect.mins.y < rect.maxs.y,
            0 <= rect.mins.x,
            rect.maxs.x <= grid.spec_width(),
            0 <= rect.mins.y,
            rect.maxs.y <= grid.spec_height(),
            rect.mins.y <= y <= rect.maxs.y,
            forall|xx: int, yy: int|
                rect.contains_cell(xx, yy) ==> #[trigger] old(grid).at(xx, yy)
                    == GridSquare::Clear,
            forall|xx: int, yy: int|
                rect.contains_cell(xx, yy) && yy < y ==> #[trigger] grid.at(xx, yy)
                    == GridSquare::Covered(id),
            forall|xx: int, yy: int|
                0 <= xx < grid.spec_width() && 0 <= yy < grid.spec_height() && !(
                rect.contains_cell(xx, yy) && yy < y) ==> #[trigger] grid.at(xx, yy) == old(
                    grid,
                ).at(xx, yy),
            grid.spec_clear_count() <= old(grid).spec_clear_count(),
            y > rect.mins.y ==> grid.spec_clear_count() < old(grid).spec_clear_count(),
        decreases rect.maxs.y - y,
    {
        let mut x = rect.mins.x;
        while x < rect.maxs.x
            invariant
                grid.wf(),
                grid.spec_width() == old(grid).spec_width(),
                grid.spec_height() == old(grid).spec_height(),
                rect.wf(),
                rect.mins.x < rect.maxs.x,
                rect.mins.y < rect.maxs.y,
                0 <= rect.mins.x,
                rect.maxs.x <= grid.spec_width(),
                0 <= rect.mins.y,
                rect.maxs.y <= grid.spec_height(),
                rect.mins.y <= y < rect.maxs.y,
                rect.mins.x <= x <= rect.maxs.x,
                forall|xx: int, yy: int|
                    rect.contains_cell(xx, yy) ==> #[trigger] old(grid).at(xx, yy)
                        == GridSquare::Clear,
                forall|xx: int, yy: int|
                    rect.contains_cell(xx, yy) && (yy < y || (yy == y && xx < x))
                        ==> #[trigger] grid.at(xx, yy) == GridSquare::Covered(id),
                forall|xx: int, yy: int|
                    0 <= xx < grid.spec_width() && 0 <= yy < grid.spec_height() && !(
                    rect.contains_cell(xx, yy) && (yy < y || (yy == y && xx < x)))
                        ==> #[trigger] grid.at(xx, yy) == old(grid).at(xx, yy),
                grid.spec_clear_count() <= old(grid).spec_clear_count(),
                (y > rect.mins.y || x > rect.mins.x) ==> grid.spec_clear_count() < old(
                    grid,
                ).spec_clear_count(),
            decreases rect.maxs.x - x,
        {
            let pos = V2::new(x, y);
            proof {
                assert(grid.at(x as int, y as int) == GridSquare::Clear);
                lemma_grid_index(grid.spec_width(), grid.spec_height(), x as int, y as int);
            }
            let ghost before = grid.squares@;
            grid.set(pos, GridSquare::Covered(id));
            proof {
                lemma_count_update(
                    before,
                    y * grid.spec_width() + x,
                    GridSquare::Covered(id),
                );
            }
            x += 1;
        }
        y += 1;
    }
}

/// Every edge of the list is canonical, positive, and bounded by `id`.
pub open spec fn edges_bounded(es: Seq<Edge>, id: NodeID) -> bool {
    forall|j: int|
        0 <= j < es.len() ==> 1 <= (#[trigger] es[j]).min && es[j].min < es[j].max && es[j].max
            <= id
}

/// Inserts an edge unless it is already present (set semantics).
fn insert_edge(edges: &mut Vec<Edge>, e: Edge)
    requires
        edges_unique(old(edges)@),
    ensures
        edges_unique(final(edges)@),
        final(edges)@.len() >= old(edges)@.len(),
        forall|j: int|
            0 <= j < old(edges)@.len() ==> #[trigger] final(edges)@[j] == old(edges)@[j],
        forall|j: int|
            old(edges)@.len() <= j < final(edges)@.len() ==> #[trigger] final(edges)@[j] == e,
        final(edges)@.contains(e),
        forall|x: Edge| old(edges)@.contains(x) ==> final(edges)@.contains(x),
{
    let ghost orig = edges@;
    let mut i: usize = 0;
    while i < edges.len()
        invariant
            edges@ == orig,
            old(edges)@ == orig,
            edges_unique(orig),
            0 <= i <= orig.len(),
            forall|j: int| 0 <= j < i ==> orig[j] != e,
        decreases orig.len() - i,
    {
        if edges[i] == e {
            proof {
                assert(edges@[i as int] == e);
            }
            return ;
        }
        i += 1;
    }
    edges.push(e);
    proof {
        assert(edges@.last() == e);
    }
}

/// Every cell from (x, y) to (ex, ey) along `step` is clear.
pub open spec fn clear_to(grid: Grid, step: V2, x: int, y: int, ex: int, ey: int) -> bool {
    if step.x == 1 {
        ey == y && x <= ex && (forall|xx: int|
            x <= xx <= ex ==> #[trigger] grid.at(xx, y) == GridSquare::Clear)
    } else {
        ex == x && y <= ey && (forall|yy: int|
            y <= yy <= ey ==> #[trigger] grid.at(x, yy) == GridSquare::Clear)
    }
}

/// The cells of a one-cell-wide strip starting at `start`, walking `count`
/// steps along `step` (which is a unit step right or down).
pub open spec fn on_strip(start: V2, step: V2, count: int, x: int, y: int) -> bool {
    if step.x == 1 {
        y == start.y && start.x <= x < start.x + count
    } else {
        x == start.x && start.y <= y < start.y + count
    }
}

/// A clear strip cell whose successor along the strip is off the in-bounds
/// strip or not clear: the last cell of a maximal clear run.
pub open spec fn run_end_seed(grid: Grid, strip_start: V2, step: V2, count: int, e: V2) -> bool {
    &&& grid.spec_in_bounds(e)
    &&& on_strip(strip_start, step, count, e.x as int, e.y as int)
    &&& grid.at(e.x as int, e.y as int) == GridSquare::Clear
    &&& !(0 <= e.x + step.x < grid.spec_width() && 0 <= e.y + step.y < grid.spec_height()
        && on_strip(strip_start, step, count, e.x + step.x, e.y + step.y) && grid.at(
        e.x + step.x,
        e.y + step.y,
    ) == GridSquare::Clear)
}

/// Some in-bounds strip cell is covered by node `j`.
pub open spec fn strip_has_covered(
    grid: Grid,
    strip_start: V2,
    step: V2,
    count: int,
    j: NodeID,
) -> bool {
    exists|x: int, y: int|
        0 <= x < grid.spec_width() && 0 <= y < grid.spec_height() && on_strip(
            strip_start,
            step,
            count,
            x,
            y,
        ) && #[trigger] grid.at(x, y) == GridSquare::Covered(j)
}

/// The seed `e` guards the strip cell (x, y): it lies further along the
/// strip and every cell between them is clear.
pub open spec fn strip_seed_guard(
    grid: Grid,
    strip_start: V2,
    step: V2,
    count: int,
    x: int,
    y: int,
    e: V2,
) -> bool {
    &&& on_strip(strip_start, step, count, e.x as int, e.y as int)
    &&& clear_to(grid, step, x, y, e.x as int, e.y as int)
}

/// Walks one strip just outside a claimed rectangle, finalizing each run of
/// equal cell states: a covered run records an edge between `id` and the
/// covering node, a clear run enqueues its last cell as a future seed, a
/// wall run is ignored. The trailing run is finalized after the walk.
/// Walks the strip, finalizing every run but the trailing one; returns the
/// final scan position and the state of the still open run.
#[verifier::rlimit(100)]
#[verifier::spinoff_prover]
fn walk_strip(
    grid: &Grid,
    queue: &mut VecDeque<V2>,
    edges: &mut Vec<Edge>,
    id: NodeID,
    strip_start: V2,
    step: V2,
    count: i32,
) -> (r: (V2, GridSquare))
    requires
        grid.wf(),
        step == (V2 { x: 1i32, y: 0i32 }) || step == (V2 { x: 0i32, y: 1i32 }),
        0 <= count,
        -1 <= strip_start.x <= grid.spec_width(),
        -1 <= strip_start.y <= grid.spec_height(),
        step.x == 1 ==> 0 <= strip_start.x && strip_start.x + count <= grid.spec_width(),
        step.y == 1 ==> 0 <= strip_start.y && strip_start.y + count <= grid.spec_height(),
        1 <= id,
        forall|x: int, y: int|
            0 <= x < grid.spec_width() && 0 <= y < grid.spec_height() ==> (#[trigger] grid.at(x, y)
                matches GridSquare::Covered(j) ==> 1 <= j <= id),
        forall|x: int, y: int|
            0 <= x < grid.spec_width() && 0 <= y < grid.spec_height() && on_strip(
                strip_start,
                step,
                count as int,
                x,
                y,
            ) ==> #[trigger] grid.at(x, y) != GridSquare::Covered(id),
        forall|j: int| 0 <= j < old(queue)@.len() ==> grid.spec_in_bounds(#[trigger] old(queue)@[j]),
        edges_unique(old(edges)@),
        edges_bounded(old(edges)@, id),
    ensures
        forall|x: int, y: int, j: NodeID|
            0 <= x < grid.spec_width() && 0 <= y < grid.spec_height() && on_strip(
                strip_start,
                step,
                count as int,
                x,
                y,
            ) && #[trigger] grid.at(x, y) == GridSquare::Covered(j) ==> final(edges)@.contains(
                #[trigger] edge_of(id, j),
            ) || r.1 == GridSquare::Covered(j),
        forall|e: Edge| old(edges)@.contains(e) ==> final(edges)@.contains(e),
        forall|p: V2| old(queue)@.contains(p) ==> final(queue)@.contains(p),
        final(queue)@.len() >= old(queue)@.len(),
        forall|n: int| 0 <= n < old(queue)@.len() ==> #[trigger] final(queue)@[n] == old(queue)@[n],
        final(edges)@.len() >= old(edges)@.len(),
        forall|n: int| 0 <= n < old(edges)@.len() ==> #[trigger] final(edges)@[n] == old(edges)@[n],
        forall|n: int|
            old(edges)@.len() <= n < final(edges)@.len() ==> (#[trigger] final(edges)@[n]).max
                == id && strip_has_covered(
                *grid,
                strip_start,
                step,
                count as int,
                final(edges)@[n].min,
            ),
        forall|n: int|
            old(queue)@.len() <= n < final(queue)@.len() ==> run_end_seed(
                *grid,
                strip_start,
                step,
                count as int,
                #[trigger] final(queue)@[n],
            ),
        forall|x: int, y: int|
            0 <= x < grid.spec_width() && 0 <= y < grid.spec_height() && on_strip(
                strip_start,
                step,
                count as int,
                x,
                y,
            ) && #[trigger] grid.at(x, y) == GridSquare::Clear ==> (exists|e: V2|
                #[trigger] final(queue)@.contains(e) && strip_seed_guard(
                    *grid,
                    strip_start,
                    step,
                    count as int,
                    x,
                    y,
                    e,
                )) || (r.1 == GridSquare::Clear && clear_to(
                *grid,
                step,
                x,
                y,
                r.0.x - step.x,
                r.0.y - step.y,
            )),
        grid.spec_in_bounds(r.0) ==> !on_strip(
            strip_start,
            step,
            count as int,
            r.0.x as int,
            r.0.y as int,
        ),
        edges_unique(final(edges)@),
        edges_bounded(final(edges)@, id),
        forall|j: int|
            0 <= j < final(queue)@.len() ==> grid.spec_in_bounds(#[trigger] final(queue)@[j]),
        r.1 == GridSquare::Wall || (grid.spec_in_bounds(
            V2 { x: (r.0.x - step.x) as i32, y: (r.0.y - step.y) as i32 },
        ) && r.1 == grid.at(r.0.x - step.x, r.0.y - step.y) && on_strip(
            strip_start,
            step,
            count as int,
            r.0.x - step.x,
            r.0.y - step.y,
        )),
        (r.1 matches GridSquare::Covered(j) ==> 1 <= j <= id && j != id),
{
    let ghost q0 = queue@;
    let ghost e0 = edges@;
    let mut pos = strip_start;
    let mut prev = GridSquare::Wall;
    let mut k: i32 = 0;
    while k < count
        invariant
            grid.wf(),
            step == (V2 { x: 1i32, y: 0i32 }) || step == (V2 { x: 0i32, y: 1i32 }),
            0 <= count,
            -1 <= strip_start.x <= grid.spec_width(),
            -1 <= strip_start.y <= grid.spec_height(),
            step.x == 1 ==> 0 <= strip_start.x && strip_start.x + count <= grid.spec_width(),
            step.y == 1 ==> 0 <= strip_start.y && strip_start.y + count <= grid.spec_height(),
            1 <= id,
            forall|x: int, y: int|
                0 <= x < grid.spec_width() && 0 <= y < grid.spec_height() ==> (#[trigger] grid.at(
                    x,
                    y,
                ) matches GridSquare::Covered(j) ==> 1 <= j <= id),
            forall|x: int, y: int|
                0 <= x < grid.spec_width() && 0 <= y < grid.spec_height() && on_strip(
                    strip_start,
                    step,
                    count as int,
                    x,
                    y,
                ) ==> #[trigger] grid.at(x, y) != GridSquare::Covered(id),
            0 <= k <= count,
            step.x == 1 ==> pos.y == strip_start.y && pos.x == strip_start.x + k,
            step.y == 1 ==> pos.x == strip_start.x && pos.y == strip_start.y + k,
            prev == GridSquare::Wall || (k >= 1 && grid.spec_in_bounds(
                V2 { x: (pos.x - step.x) as i32, y: (pos.y - step.y) as i32 },
            ) && prev == grid.at(pos.x - step.x, pos.y - step.y) && on_strip(
                strip_start,
                step,
                count as int,
                pos.x - step.x,
                pos.y - step.y,
            )),
            forall|j: int| 0 <= j < queue@.len() ==> grid.spec_in_bounds(#[trigger] queue@[j]),
            old(queue)@ == q0,
            forall|p: V2| q0.contains(p) ==> queue@.contains(p),
            old(edges)@ == e0,
            edges_unique(edges@),
            edges_bounded(edges@, id),
            forall|e: Edge| e0.contains(e) ==> edges@.contains(e),
            queue@.len() >= q0.len(),
            forall|n: int| 0 <= n < q0.len() ==> #[trigger] queue@[n] == q0[n],
            edges@.len() >= e0.len(),
            forall|n: int| 0 <= n < e0.len() ==> #[trigger] edges@[n] == e0[n],
            forall|n: int|
                e0.len() <= n < edges@.len() ==> (#[trigger] edges@[n]).max == id
                    && strip_has_covered(*grid, strip_start, step, count as int, edges@[n].min),
            forall|n: int|
                q0.len() <= n < queue@.len() ==> run_end_seed(
                    *grid,
                    strip_start,
                    step,
                    count as int,
                    #[trigger] queue@[n],
                ),
            forall|x: int, y: int|
                0 <= x < grid.spec_width() && 0 <= y < grid.spec_height() && on_strip(
                    strip_start,
                    step,
                    k as int,
                    x,
                    y,
                ) && #[trigger] grid.at(x, y) == GridSquare::Clear ==> (exists|e: V2|
                    #[trigger] queue@.contains(e) && strip_seed_guard(
                        *grid,
                        strip_start,
                        step,
                        count as int,
                        x,
                        y,
                        e,
                    )) || (prev == GridSquare::Clear && clear_to(
                    *grid,
                    step,
                    x,
                    y,
                    pos.x - step.x,
                    pos.y - step.y,
                )),
            forall|x: int, y: int, j: NodeID|
                0 <= x < grid.spec_width() && 0 <= y < grid.spec_height() && on_strip(
                    strip_start,
                    step,
                    k as int,
                    x,
                    y,
                ) && #[trigger] grid.at(x, y) == GridSquare::Covered(j) ==> edges@.contains(
                    #[trigger] edge_of(id, j),
                ) || prev == GridSquare::Covered(j),
        ensures
            forall|x: int, y: int, j: NodeID|
                0 <= x < grid.spec_width() && 0 <= y < grid.spec_height() && on_strip(
                    strip_start,
                    step,
                    count as int,
                    x,
                    y,
                ) && #[trigger] grid.at(x, y) == GridSquare::Covered(j) ==> edges@.contains(
                    #[trigger] edge_of(id, j),
                ) || prev == GridSquare::Covered(j),
            forall|e: Edge| e0.contains(e) ==> edges@.contains(e),
            forall|p: V2| q0.contains(p) ==> queue@.contains(p),
            queue@.len() >= q0.len(),
            forall|n: int| 0 <= n < q0.len() ==> #[trigger] queue@[n] == q0[n],
            edges@.len() >= e0.len(),
            forall|n: int| 0 <= n < e0.len() ==> #[trigger] edges@[n] == e0[n],
            forall|n: int|
                e0.len() <= n < edges@.len() ==> (#[trigger] edges@[n]).max == id
                    && strip_has_covered(*grid, strip_start, step, count as int, edges@[n].min),
            forall|n: int|
                q0.len() <= n < queue@.len() ==> run_end_seed(
                    *grid,
                    strip_start,
                    step,
                    count as int,
                    #[trigger] queue@[n],
                ),
            forall|x: int, y: int|
                0 <= x < grid.spec_width() && 0 <= y < grid.spec_height() && on_strip(
                    strip_start,
                    step,
                    count as int,
                    x,
                    y,
                ) && #[trigger] grid.at(x, y) == GridSquare::Clear ==> (exists|e: V2|
                    #[trigger] queue@.contains(e) && strip_seed_guard(
                        *grid,
                        strip_start,
                        step,
                        count as int,
                        x,
                        y,
                        e,
                    )) || (prev == GridSquare::Clear && clear_to(
                    *grid,
                    step,
                    x,
                    y,
                    pos.x - step.x,
                    pos.y - step.y,
                )),
            grid.spec_in_bounds(pos) ==> !on_strip(
                strip_start,
                step,
                count as int,
                pos.x as int,
                pos.y as int,
            ),
            edges_unique(edges@),
            edges_bounded(edges@, id),
            forall|j: int| 0 <= j < queue@.len() ==> grid.spec_in_bounds(#[trigger] queue@[j]),
            prev == GridSquare::Wall || (grid.spec_in_bounds(
                V2 { x: (pos.x - step.x) as i32, y: (pos.y - step.y) as i32 },
            ) && prev == grid.at(pos.x - step.x, pos.y - step.y) && on_strip(
                strip_start,
                step,
                count as int,
                pos.x - step.x,
                pos.y - step.y,
            )),
        decreases count - k,
    {
        if !grid.in_bounds(pos) {
            proof {
                // the strip leaves the grid here and never re-enters: every
                // in-bounds strip cell was already scanned
                assert forall|x: int, y: int, j: NodeID|
                    0 <= x < grid.spec_width() && 0 <= y < grid.spec_height() && on_strip(
                        strip_start,
                        step,
                        count as int,
                        x,
                        y,
                    ) && #[trigger] grid.at(x, y) == GridSquare::Covered(j) implies edges@.contains(
                    #[trigger] edge_of(id, j),
                ) || prev == GridSquare::Covered(j) by {
                    if step.x == 1 {
                        assert(x < strip_start.x + k);
                    } else {
                        assert(y < strip_start.y + k);
                    }
                    assert(on_strip(strip_start, step, k as int, x, y));
                }
                assert forall|x: int, y: int|
                    0 <= x < grid.spec_width() && 0 <= y < grid.spec_height() && on_strip(
                        strip_start,
                        step,
                        count as int,
                        x,
                        y,
                    ) && #[trigger] grid.at(x, y) == GridSquare::Clear implies (exists|e: V2|
                    #[trigger] queue@.contains(e) && strip_seed_guard(
                        *grid,
                        strip_start,
                        step,
                        count as int,
                        x,
                        y,
                        e,
                    )) || (prev == GridSquare::Clear && clear_to(
                    *grid,
                    step,
                    x,
                    y,
                    pos.x - step.x,
                    pos.y - step.y,
                )) by {
                    if step.x == 1 {
                        assert(x < strip_start.x + k);
                    } else {
                        assert(y < strip_start.y + k);
                    }
                    assert(on_strip(strip_start, step, k as int, x, y));
                }
            }
            break ;
        }
        let ghost k0 = k;
        let ghost pos0 = pos;
        let ghost prev0 = prev;
        let ghost qs = queue@;
        let square = grid.get(pos);
        if square != prev {
    match prev {
                GridSquare::Covered(pid) => {
                    proof {
                        assert(1 <= pid <= id && pid != id);
                    }
                    let ghost pre_edges = edges@;
                    let new_edge = Edge::new(id, pid);
                    insert_edge(edges, new_edge);
                    proof {
                        assert(new_edge == edge_of(id, pid));
                        assert(grid.at(pos.x - step.x, pos.y - step.y) == GridSquare::Covered(
                            pid,
                        ));
                        assert(strip_has_covered(
                            *grid,
                            strip_start,
                            step,
                            count as int,
                            pid,
                        )) by {
                            assert(0 <= pos.x - step.x < grid.spec_width() && 0 <= pos.y - step.y
                                < grid.spec_height() && on_strip(
                                strip_start,
                                step,
                                count as int,
                                pos.x - step.x,
                                pos.y - step.y,
                            ) && grid.at(pos.x - step.x, pos.y - step.y) == GridSquare::Covered(
                                pid,
                            ));
                        }
                        assert forall|n: int|
                            pre_edges.len() <= n < edges@.len() implies (#[trigger] edges@[n]).max
                            == id && strip_has_covered(
                            *grid,
                            strip_start,
                            step,
                            count as int,
                            edges@[n].min,
                        ) by {
                            assert(edges@[n] == new_edge);
                            assert(new_edge.min == pid && new_edge.max == id);
                        }
                    }
                },
                GridSquare::Clear => {
                    let seed = V2::new(pos.x - step.x, pos.y - step.y);
                    queue.push_back(seed);
                    proof {
                        assert(grid.at(seed.x as int, seed.y as int) == GridSquare::Clear);
                        assert(grid.at(pos.x as int, pos.y as int) != GridSquare::Clear);
                        assert(run_end_seed(*grid, strip_start, step, count as int, seed));
                        assert(queue@.last() == seed);
                        assert(queue@.contains(seed));
                    }
                },
                GridSquare::Wall => {},
            }
            prev = square;
        }
        pos = V2::new(pos.x + step.x, pos.y + step.y);
        k += 1;
        proof {
            assert forall|x: int, y: int|
                0 <= x < grid.spec_width() && 0 <= y < grid.spec_height() && on_strip(
                    strip_start,
                    step,
                    k as int,
                    x,
                    y,
                ) && #[trigger] grid.at(x, y) == GridSquare::Clear implies (exists|e: V2|
                #[trigger] queue@.contains(e) && strip_seed_guard(
                    *grid,
                    strip_start,
                    step,
                    count as int,
                    x,
                    y,
                    e,
                )) || (prev == GridSquare::Clear && clear_to(
                *grid,
                step,
                x,
                y,
                pos.x - step.x,
                pos.y - step.y,
            )) by {
                if on_strip(strip_start, step, k0 as int, x, y) {
                    // scanned earlier: promote the old guard
                    if exists|e: V2| #[trigger] qs.contains(e) && strip_seed_guard(
                        *grid,
                        strip_start,
                        step,
                        count as int,
                        x,
                        y,
                        e,
                    ) {
                        let e = choose|e: V2|
                            #[trigger] qs.contains(e) && strip_seed_guard(
                                *grid,
                                strip_start,
                                step,
                                count as int,
                                x,
                                y,
                                e,
                            );
                        assert(queue@.contains(e));
                    } else {
                        // the cell lay on the run that was still open
                        assert(prev0 == GridSquare::Clear && clear_to(
                            *grid,
                            step,
                            x,
                            y,
                            pos0.x - step.x,
                            pos0.y - step.y,
                        ));
                        if square == GridSquare::Clear {
                            assert(prev == GridSquare::Clear);
                            assert(grid.at(pos0.x as int, pos0.y as int) == GridSquare::Clear);
                            assert(clear_to(*grid, step, x, y, pos.x - step.x, pos.y - step.y));
                        } else {
                            // the run just ended and its last cell was enqueued
                            assert(queue@.last() == (V2 {
                                x: (pos0.x - step.x) as i32,
                                y: (pos0.y - step.y) as i32,
                            }));
                            let e = queue@.last();
                            assert(queue@.contains(e));
                            assert(strip_seed_guard(
                                *grid,
                                strip_start,
                                step,
                                count as int,
                                x,
                                y,
                                e,
                            ));
                        }
                    }
                } else {
                    // the newly scanned cell itself: its run is open
                    assert(x == pos0.x && y == pos0.y);
                    assert(square == GridSquare::Clear && prev == GridSquare::Clear);
                    assert(clear_to(*grid, step, x, y, pos.x - step.x, pos.y - step.y));
                }
            }
        }
    }
    (pos, prev)
}

#[verifier::rlimit(100)]
#[verifier::spinoff_prover]
fn scan_edge(
    grid: &Grid,
    queue: &mut VecDeque<V2>,
    edges: &mut Vec<Edge>,
    id: NodeID,
    strip_start: V2,
    step: V2,
    count: i32,
)
    requires
        grid.wf(),
        step == (V2 { x: 1i32, y: 0i32 }) || step == (V2 { x: 0i32, y: 1i32 }),
        0 <= count,
        -1 <= strip_start.x <= grid.spec_width(),
        -1 <= strip_start.y <= grid.spec_height(),
        step.x == 1 ==> 0 <= strip_start.x && strip_start.x + count <= grid.spec_width(),
        step.y == 1 ==> 0 <= strip_start.y && strip_start.y + count <= grid.spec_height(),
        1 <= id,
        forall|x: int, y: int|
            0 <= x < grid.spec_width() && 0 <= y < grid.spec_height() ==> (#[trigger] grid.at(x, y)
                matches GridSquare::Covered(j) ==> 1 <= j <= id),
        forall|x: int, y: int|
            0 <= x < grid.spec_width() && 0 <= y < grid.spec_height() && on_strip(
                strip_start,
                step,
                count as int,
                x,
                y,
            ) ==> #[trigger] grid.at(x, y) != GridSquare::Covered(id),
        forall|j: int| 0 <= j < old(queue)@.len() ==> grid.spec_in_bounds(#[trigger] old(queue)@[j]),
        edges_unique(old(edges)@),
        edges_bounded(old(edges)@, id),
    ensures
        forall|j: int|
            0 <= j < final(queue)@.len() ==> grid.spec_in_bounds(#[trigger] final(queue)@[j]),
        final(queue)@.len() >= old(queue)@.len(),
        forall|n: int| 0 <= n < old(queue)@.len() ==> #[trigger] final(queue)@[n] == old(queue)@[n],
        forall|p: V2| old(queue)@.contains(p) ==> final(queue)@.contains(p),
        edges_unique(final(edges)@),
        edges_bounded(final(edges)@, id),
        final(edges)@.len() >= old(edges)@.len(),
        forall|n: int| 0 <= n < old(edges)@.len() ==> #[trigger] final(edges)@[n] == old(edges)@[n],
        forall|e: Edge| old(edges)@.contains(e) ==> final(edges)@.contains(e),
        forall|x: int, y: int, j: NodeID|
            0 <= x < grid.spec_width() && 0 <= y < grid.spec_height() && on_strip(
                strip_start,
                step,
                count as int,
                x,
                y,
            ) && #[trigger] grid.at(x, y) == GridSquare::Covered(j) ==> final(edges)@.contains(
                #[trigger] edge_of(id, j),
            ),
        // only edges to nodes seen on the strip are inserted
        forall|n: int|
            old(edges)@.len() <= n < final(edges)@.len() ==> (#[trigger] final(edges)@[n]).max
                == id && strip_has_covered(
                *grid,
                strip_start,
                step,
                count as int,
                final(edges)@[n].min,
            ),
        // each clear run enqueues its last cell: every clear strip cell is
        // joined, through clear strip cells, to an enqueued seed
        forall|x: int, y: int|
            0 <= x < grid.spec_width() && 0 <= y < grid.spec_height() && on_strip(
                strip_start,
                step,
                count as int,
                x,
                y,
            ) && #[trigger] grid.at(x, y) == GridSquare::Clear ==> exists|e: V2|
                #[trigger] final(queue)@.contains(e) && strip_seed_guard(
                    *grid,
                    strip_start,
                    step,
                    count as int,
                    x,
                    y,
                    e,
                ),
        // and nothing else: every new seed is a clear strip cell ending a run
        forall|n: int|
            old(queue)@.len() <= n < final(queue)@.len() ==> run_end_seed(
                *grid,
                strip_start,
                step,
                count as int,
                #[trigger] final(queue)@[n],
            ),
{
    let walked = walk_strip(grid, queue, edges, id, strip_start, step, count);
    let pos = walked.0;
    let prev = walked.1;
    match prev {
        GridSquare::Covered(pid) => {
            proof {
                assert(1 <= pid <= id && pid != id);
            }
            let ghost pre_edges = edges@;
            let new_edge = Edge::new(id, pid);
            insert_edge(edges, new_edge);
            proof {
                assert(edges@.contains(edge_of(id, pid)));
                assert(new_edge == edge_of(id, pid));
                assert(strip_has_covered(*grid, strip_start, step, count as int, pid)) by {
                    assert(0 <= pos.x - step.x < grid.spec_width() && 0 <= pos.y - step.y
                        < grid.spec_height() && on_strip(
                        strip_start,
                        step,
                        count as int,
                        pos.x - step.x,
                        pos.y - step.y,
                    ) && grid.at(pos.x - step.x, pos.y - step.y) == GridSquare::Covered(pid));
                }
                assert forall|n: int|
                    pre_edges.len() <= n < edges@.len() implies (#[trigger] edges@[n]).max == id
                    && strip_has_covered(
                    *grid,
                    strip_start,
                    step,
                    count as int,
                    edges@[n].min,
                ) by {
                    assert(edges@[n] == new_edge);
                    assert(new_edge.min == pid && new_edge.max == id);
                }
                assert forall|x: int, y: int|
                    0 <= x < grid.spec_width() && 0 <= y < grid.spec_height() && on_strip(
                        strip_start,
                        step,
                        count as int,
                        x,
                        y,
                    ) && #[trigger] grid.at(x, y) == GridSquare::Clear implies exists|e: V2|
                    #[trigger] queue@.contains(e) && strip_seed_guard(
                        *grid,
                        strip_start,
                        step,
                        count as int,
                        x,
                        y,
                        e,
                    ) by {
                    assert(prev != GridSquare::Clear);
                }
            }
        },
        GridSquare::Clear => {
            let ghost qpre = queue@;
            let seed = V2::new(pos.x - step.x, pos.y - step.y);
            queue.push_back(seed);
            proof {
                assert(grid.at(seed.x as int, seed.y as int) == GridSquare::Clear);
                assert(run_end_seed(*grid, strip_start, step, count as int, seed));
                assert(queue@.last() == seed);
                assert(queue@.contains(seed));
                assert forall|x: int, y: int|
                    0 <= x < grid.spec_width() && 0 <= y < grid.spec_height() && on_strip(
                        strip_start,
                        step,
                        count as int,
                        x,
                        y,
                    ) && #[trigger] grid.at(x, y) == GridSquare::Clear implies exists|e: V2|
                    #[trigger] queue@.contains(e) && strip_seed_guard(
                        *grid,
                        strip_start,
                        step,
                        count as int,
                        x,
                        y,
                        e,
                    ) by {
                    if exists|e: V2|
                        #[trigger] qpre.contains(e) && strip_seed_guard(
                            *grid,
                            strip_start,
                            step,
                            count as int,
                            x,
                            y,
                            e,
                        ) {
                        let e = choose|e: V2|
                            #[trigger] qpre.contains(e) && strip_seed_guard(
                                *grid,
                                strip_start,
                                step,
                                count as int,
                                x,
                                y,
                                e,
                            );
                        assert(queue@.contains(e));
                    } else {
                        assert(clear_to(*grid, step, x, y, pos.x - step.x, pos.y - step.y));
                        assert(strip_seed_guard(
                            *grid,
                            strip_start,
                            step,
                            count as int,
                            x,
                            y,
                            seed,
                        ));
                    }
                }
            }
        },
        GridSquare::Wall => {
            proof {
                assert forall|x: int, y: int|
                    0 <= x < grid.spec_width() && 0 <= y < grid.spec_height() && on_strip(
                        strip_start,
                        step,
                        count as int,
                        x,
                        y,
                    ) && #[trigger] grid.at(x, y) == GridSquare::Clear implies exists|e: V2|
                    #[trigger] queue@.contains(e) && strip_seed_guard(
                        *grid,
                        strip_start,
                        step,
                        count as int,
                        x,
                        y,
                        e,
                    ) by {
                    assert(prev != GridSquare::Clear);
                }
            }
        },
    }
}

/// A cell of one of the four one-cell-wide strips just outside `rect`.
pub open spec fn rect_boundary_cell(rect: Rect, x: int, y: int) -> bool {
    ||| (y == rect.mins.y - 1 && rect.mins.x <= x < rect.maxs.x)
    ||| (y == rect.maxs.y && rect.mins.x <= x < rect.maxs.x)
    ||| (x == rect.mins.x - 1 && rect.mins.y <= y < rect.maxs.y)
    ||| (x == rect.maxs.x && rect.mins.y <= y < rect.maxs.y)
}

/// Some in-bounds cell of the rectangle's boundary strips is covered by `j`.
pub open spec fn boundary_has_covered(grid: Grid, rect: Rect, j: NodeID) -> bool {
    exists|x: int, y: int|
        0 <= x < grid.spec_width() && 0 <= y < grid.spec_height() && rect_boundary_cell(rect, x, y)
            && #[trigger] grid.at(x, y) == GridSquare::Covered(j)
}

/// The seed `e` guards the boundary cell (x, y): it sits on the boundary
/// further along the same strip, with only clear cells between them.
pub open spec fn boundary_seed_guard(grid: Grid, rect: Rect, x: int, y: int, e: V2) -> bool {
    &&& rect_boundary_cell(rect, e.x as int, e.y as int)
    &&& (clear_to(grid, V2 { x: 1i32, y: 0i32 }, x, y, e.x as int, e.y as int) || clear_to(
        grid,
        V2 { x: 0i32, y: 1i32 },
        x,
        y,
        e.x as int,
        e.y as int,
    ))
}

/// Scans the four one-cell-wide strips just outside the rectangle claimed by
/// `id`, recording edges to already covered neighbors and enqueueing seeds
/// for still clear ones.
fn scan_rect_boundary(
    grid: &Grid,
    queue: &mut VecDeque<V2>,
    edges: &mut Vec<Edge>,
    id: NodeID,
    rect: Rect,
)
    requires
        grid.wf(),
        rect.wf(),
        rect.mins.x < rect.maxs.x,
        rect.mins.y < rect.maxs.y,
        0 <= rect.mins.x,
        rect.maxs.x <= grid.spec_width(),
        0 <= rect.mins.y,
        rect.maxs.y <= grid.spec_height(),
        1 <= id,
        forall|x: int, y: int|
            0 <= x < grid.spec_width() && 0 <= y < grid.spec_height() ==> (#[trigger] grid.at(x, y)
                matches GridSquare::Covered(j) ==> 1 <= j <= id),
        forall|x: int, y: int|
            0 <= x < grid.spec_width() && 0 <= y < grid.spec_height() && #[trigger] grid.at(x, y)
                == GridSquare::Covered(id) ==> rect.contains_cell(x, y),
        forall|j: int| 0 <= j < old(queue)@.len() ==> grid.spec_in_bounds(#[trigger] old(queue)@[j]),
        edges_unique(old(edges)@),
        edges_bounded(old(edges)@, id),
    ensures
        forall|j: int|
            0 <= j < final(queue)@.len() ==> grid.spec_in_bounds(#[trigger] final(queue)@[j]),
        forall|p: V2| old(queue)@.contains(p) ==> final(queue)@.contains(p),
        edges_unique(final(edges)@),
        edges_bounded(final(edges)@, id),
        forall|e: Edge| old(edges)@.contains(e) ==> final(edges)@.contains(e),
        forall|x: int, y: int, j: NodeID|
            0 <= x < grid.spec_width() && 0 <= y < grid.spec_height() && rect_boundary_cell(
                rect,
                x,
                y,
            ) && #[trigger] grid.at(x, y) == GridSquare::Covered(j) ==> final(edges)@.contains(
                #[trigger] edge_of(id, j),
            ),
        // only edges to nodes covering some boundary cell are inserted
        forall|n: int| 0 <= n < old(edges)@.len() ==> #[trigger] final(edges)@[n] == old(edges)@[n],
        final(edges)@.len() >= old(edges)@.len(),
        forall|n: int|
            old(edges)@.len() <= n < final(edges)@.len() ==> (#[trigger] final(edges)@[n]).max
                == id && boundary_has_covered(*grid, rect, final(edges)@[n].min),
        // every clear boundary cell is joined along its strip to an enqueued
        // seed, and every new seed is a clear boundary cell
        forall|x: int, y: int|
            0 <= x < grid.spec_width() && 0 <= y < grid.spec_height() && rect_boundary_cell(
                rect,
                x,
                y,
            ) && #[trigger] grid.at(x, y) == GridSquare::Clear ==> exists|e: V2|
                #[trigger] final(queue)@.contains(e) && boundary_seed_guard(*grid, rect, x, y, e),
        forall|n: int| 0 <= n < old(queue)@.len() ==> #[trigger] final(queue)@[n] == old(queue)@[n],
        final(queue)@.len() >= old(queue)@.len(),
        forall|n: int|
            old(queue)@.len() <= n < final(queue)@.len() ==> grid.spec_in_bounds(
                #[trigger] final(queue)@[n],
            ) && rect_boundary_cell(rect, final(queue)@[n].x as int, final(queue)@[n].y as int)
                && grid.at(final(queue)@[n].x as int, final(queue)@[n].y as int)
                == GridSquare::Clear,
{
    let w = rect.width();
    let h = rect.height();
    let ghost q0 = queue@;
    let ghost e0 = edges@;
    scan_edge(
        grid,
        queue,
        edges,
        id,
        V2::new(rect.mins.x, rect.mins.y - 1),
        V2::new(1, 0),
        w,
    );
    let ghost q1 = queue@;
    let ghost e1 = edges@;
    scan_edge(grid, queue, edges, id, V2::new(rect.mins.x, rect.maxs.y), V2::new(1, 0), w);
    let ghost q2 = queue@;
    let ghost e2 = edges@;
    scan_edge(
        grid,
        queue,
        edges,
        id,
        V2::new(rect.mins.x - 1, rect.mins.y),
        V2::new(0, 1),
        h,
    );
    let ghost q3 = queue@;
    let ghost e3 = edges@;
    scan_edge(grid, queue, edges, id, V2::new(rect.maxs.x, rect.mins.y), V2::new(0, 1), h);
    proof {
        let top = V2 { x: rect.mins.x, y: (rect.mins.y - 1) as i32 };
        let bottom = V2 { x: rect.mins.x, y: rect.maxs.y };
        let left = V2 { x: (rect.mins.x - 1) as i32, y: rect.mins.y };
        let right = V2 { x: rect.maxs.x, y: rect.mins.y };
        let rstep = V2 { x: 1i32, y: 0i32 };
        let dstep = V2 { x: 0i32, y: 1i32 };
        assert forall|x: int, y: int, j: NodeID|
            0 <= x < grid.spec_width() && 0 <= y < grid.spec_height() && rect_boundary_cell(
                rect,
                x,
                y,
            ) && #[trigger] grid.at(x, y) == GridSquare::Covered(j) implies edges@.contains(
            #[trigger] edge_of(id, j),
        ) by {
            if y == rect.mins.y - 1 && rect.mins.x <= x < rect.maxs.x {
                assert(on_strip(top, rstep, w as int, x, y));
            } else if y == rect.maxs.y && rect.mins.x <= x < rect.maxs.x {
                assert(on_strip(bottom, rstep, w as int, x, y));
            } else if x == rect.mins.x - 1 && rect.mins.y <= y < rect.maxs.y {
                assert(on_strip(left, dstep, h as int, x, y));
            } else {
                assert(on_strip(right, dstep, h as int, x, y));
            }
        }
        // strip cells are boundary cells
        assert forall|x: int, y: int|
            on_strip(top, rstep, w as int, x, y) || on_strip(bottom, rstep, w as int, x, y)
                || on_strip(left, dstep, h as int, x, y) || on_strip(
                right,
                dstep,
                h as int,
                x,
                y,
            ) implies rect_boundary_cell(rect, x, y) by {}
        // new edges name nodes seen on some boundary cell
        assert forall|n: int|
            e0.len() <= n < edges@.len() implies (#[trigger] edges@[n]).max == id
                && boundary_has_covered(*grid, rect, edges@[n].min) by {
            if n < e1.len() {
                assert(edges@[n] == e1[n]);
                let (x, y) = choose|x: int, y: int|
                    0 <= x < grid.spec_width() && 0 <= y < grid.spec_height() && on_strip(
                        top,
                        rstep,
                        w as int,
                        x,
                        y,
                    ) && #[trigger] grid.at(x, y) == GridSquare::Covered(e1[n].min);
                assert(rect_boundary_cell(rect, x, y));
            } else if n < e2.len() {
                assert(edges@[n] == e2[n]);
                let (x, y) = choose|x: int, y: int|
                    0 <= x < grid.spec_width() && 0 <= y < grid.spec_height() && on_strip(
                        bottom,
                        rstep,
                        w as int,
                        x,
                        y,
                    ) && #[trigger] grid.at(x, y) == GridSquare::Covered(e2[n].min);
                assert(rect_boundary_cell(rect, x, y));
            } else if n < e3.len() {
                assert(edges@[n] == e3[n]);
                let (x, y) = choose|x: int, y: int|
                    0 <= x < grid.spec_width() && 0 <= y < grid.spec_height() && on_strip(
                        left,
                        dstep,
                        h as int,
                        x,
                        y,
                    ) && #[trigger] grid.at(x, y) == GridSquare::Covered(e3[n].min);
                assert(rect_boundary_cell(rect, x, y));
            } else {
                let (x, y) = choose|x: int, y: int|
                    0 <= x < grid.spec_width() && 0 <= y < grid.spec_height() && on_strip(
                        right,
                        dstep,
                        h as int,
                        x,
                        y,
                    ) && #[trigger] grid.at(x, y) == GridSquare::Covered(edges@[n].min);
                assert(rect_boundary_cell(rect, x, y));
            }
        }
        // every clear boundary cell keeps a queued guard on its strip
        assert forall|x: int, y: int|
            0 <= x < grid.spec_width() && 0 <= y < grid.spec_height() && rect_boundary_cell(
                rect,
                x,
                y,
            ) && #[trigger] grid.at(x, y) == GridSquare::Clear implies exists|e: V2|
            #[trigger] queue@.contains(e) && boundary_seed_guard(*grid, rect, x, y, e) by {
            if y == rect.mins.y - 1 && rect.mins.x <= x < rect.maxs.x {
                assert(on_strip(top, rstep, w as int, x, y));
                let e = choose|e: V2|
                    #[trigger] q1.contains(e) && strip_seed_guard(
                        *grid,
                        top,
                        rstep,
                        w as int,
                        x,
                        y,
                        e,
                    );
                assert(queue@.contains(e));
                assert(on_strip(top, rstep, w as int, e.x as int, e.y as int));
                assert(boundary_seed_guard(*grid, rect, x, y, e));
            } else if y == rect.maxs.y && rect.mins.x <= x < rect.maxs.x {
                assert(on_strip(bottom, rstep, w as int, x, y));
                let e = choose|e: V2|
                    #[trigger] q2.contains(e) && strip_seed_guard(
                        *grid,
                        bottom,
                        rstep,
                        w as int,
                        x,
                        y,
                        e,
                    );
                assert(queue@.contains(e));
                assert(on_strip(bottom, rstep, w as int, e.x as int, e.y as int));
                assert(boundary_seed_guard(*grid, rect, x, y, e));
            } else if x == rect.mins.x - 1 && rect.mins.y <= y < rect.maxs.y {
                assert(on_strip(left, dstep, h as int, x, y));
                let e = choose|e: V2|
                    #[trigger] q3.contains(e) && strip_seed_guard(
                        *grid,
                        left,
                        dstep,
                        h as int,
                        x,
                        y,
                        e,
                    );
                assert(queue@.contains(e));
                assert(on_strip(left, dstep, h as int, e.x as int, e.y as int));
                assert(boundary_seed_guard(*grid, rect, x, y, e));
            } else {
                assert(on_strip(right, dstep, h as int, x, y));
                let e = choose|e: V2|
                    #[trigger] queue@.contains(e) && strip_seed_guard(
                        *grid,
                        right,
                        dstep,
                        h as int,
                        x,
                        y,
                        e,
                    );
                assert(on_strip(right, dstep, h as int, e.x as int, e.y as int));
                assert(boundary_seed_guard(*grid, rect, x, y, e));
            }
        }
        // every new seed is a clear boundary cell
        assert forall|n: int|
            q0.len() <= n < queue@.len() implies grid.spec_in_bounds(#[trigger] queue@[n])
                && rect_boundary_cell(rect, queue@[n].x as int, queue@[n].y as int) && grid.at(
                queue@[n].x as int,
                queue@[n].y as int,
            ) == GridSquare::Clear by {
            if n < q1.len() {
                assert(queue@[n] == q1[n]);
                assert(run_end_seed(*grid, top, rstep, w as int, q1[n]));
            } else if n < q2.len() {
                assert(queue@[n] == q2[n]);
                assert(run_end_seed(*grid, bottom, rstep, w as int, q2[n]));
            } else if n < q3.len() {
                assert(queue@[n] == q3[n]);
                assert(run_end_seed(*grid, left, dstep, h as int, q3[n]));
            } else {
                assert(run_end_seed(*grid, right, dstep, h as int, queue@[n]));
            }
        }
    }
}

/// Every side of the rectangle is blocked: it meets the grid border, or a
/// non-clear cell sits just outside it.
pub open spec fn rect_blocked(grid: Grid, rect: Rect) -> bool {
    &&& (rect.mins.x == 0 || exists|y: int|
        rect.mins.y <= y < rect.maxs.y && #[trigger] grid.at(rect.mins.x - 1, y)
            != GridSquare::Clear)
    &&& (rect.maxs.x == grid.spec_width() || exists|y: int|
        rect.mins.y <= y < rect.maxs.y && #[trigger] grid.at(rect.maxs.x as int, y)
            != GridSquare::Clear)
    &&& (rect.mins.y == 0 || exists|x: int|
        rect.mins.x <= x < rect.maxs.x && #[trigger] grid.at(x, rect.mins.y - 1)
            != GridSquare::Clear)
    &&& (rect.maxs.y == grid.spec_height() || exists|x: int|
        rect.mins.x <= x < rect.maxs.x && #[trigger] grid.at(x, rect.maxs.y as int)
            != GridSquare::Clear)
}

/// Two rectangles touch: a cell of `a` is 4-adjacent to a cell of `b`.
pub open spec fn rects_adjacent(a: Rect, b: Rect) -> bool {
    exists|x: int, y: int|
        #[trigger] a.contains_cell(x, y) && (b.contains_cell(x + 1, y) || b.contains_cell(
            x - 1,
            y,
        ) || b.contains_cell(x, y + 1) || b.contains_cell(x, y - 1))
}

/// Decomposes the clear space reachable from `start` into disjoint maximal
/// rectangles, one node each, linked by adjacency edges, by a breadth-first
/// rectangle flood seeded at `start`. Node identifiers are assigned in
/// discovery order from 1. Returns None when the start or the goal cell was
/// never covered (the goal lies in a clear component the flood never
/// reached).
pub fn extract_graph(grid: Grid, start: V2, goal: V2) -> (r: Option<EdgeSetGraph>)
    requires
        grid.wf(),
        grid.spec_in_bounds(start),
        grid.spec_in_bounds(goal),
        grid.at(start.x as int, start.y as int) == GridSquare::Clear,
        grid.at(goal.x as int, goal.y as int) == GridSquare::Clear,
        forall|x: int, y: int|
            0 <= x < grid.spec_width() && 0 <= y < grid.spec_height() ==> !(#[trigger] grid.at(
                x,
                y,
            ) matches GridSquare::Covered(j)),
    ensures
        r matches Some(g) ==> g.wf(),
        r matches Some(g) ==> (forall|i: int|
            0 <= i < g.nodes@.len() ==> (#[trigger] g.nodes@[i]).0 as int == i + 1),
        r matches Some(g) ==> (forall|i: int, j: int|
            0 <= i < j < g.nodes@.len() ==> (#[trigger] g.nodes@[i]).1.disjoint(
                (#[trigger] g.nodes@[j]).1,
            )),
        r matches Some(g) ==> (forall|i: int|
            0 <= i < g.nodes@.len() ==> (#[trigger] g.nodes@[i]).1.wf() && 0
                <= g.nodes@[i].1.mins.x && g.nodes@[i].1.maxs.x <= grid.spec_width() && 0
                <= g.nodes@[i].1.mins.y && g.nodes@[i].1.maxs.y <= grid.spec_height()
                && g.nodes@[i].1.mins.x < g.nodes@[i].1.maxs.x && g.nodes@[i].1.mins.y
                < g.nodes@[i].1.maxs.y),
        r matches Some(g) ==> (forall|i: int, x: int, y: int|
            0 <= i < g.nodes@.len() && (#[trigger] g.nodes@[i]).1.contains_cell(x, y)
                ==> #[trigger] grid.at(x, y) == GridSquare::Clear),
        r matches Some(g) ==> value_of(g.nodes@, g.start).spec_contains(start),
        r matches Some(g) ==> value_of(g.nodes@, g.goal).spec_contains(goal),
        start == goal ==> r is Some,
        // touching rectangles are joined by an edge, and every edge joins
        // touching rectangles
        r matches Some(g) ==> (forall|i: int, j: int|
            0 <= i < j < g.nodes@.len() && rects_adjacent(
                (#[trigger] g.nodes@[i]).1,
                (#[trigger] g.nodes@[j]).1,
            ) ==> g.edges@.contains(edge_of(g.nodes@[i].0, g.nodes@[j].0))),
        r matches Some(g) ==> (forall|n: int|
            0 <= n < g.edges@.len() ==> rects_adjacent(
                g.nodes@[(#[trigger] g.edges@[n]).min - 1].1,
                g.nodes@[g.edges@[n].max - 1].1,
            )),
        // the first rectangle is maximal in the input grid
        r matches Some(g) ==> rect_blocked(grid, g.nodes@[0].1),
{
    let ghost grid0 = grid;
    let mut cur = grid;
    let ghost count0 = cur.spec_clear_count();
    proof {
        lemma_count_le_len(cur.squares@);
        lemma_grid_area(grid0.spec_width(), grid0.spec_height());
    }
    let mut nodes: Vec<(NodeID, Rect)> = Vec::new();
    let mut edges: Vec<Edge> = Vec::new();
    let mut queue: VecDeque<V2> = VecDeque::new();
    queue.push_back(start);
    let mut start_id: Option<NodeID> = None;
    let mut goal_id: Option<NodeID> = None;
    while queue.len() != 0
        invariant
            cur.wf(),
            cur.spec_width() == grid0.spec_width(),
            cur.spec_height() == grid0.spec_height(),
            grid0.wf(),
            grid0.spec_in_bounds(start),
            grid0.spec_in_bounds(goal),
            grid0.at(start.x as int, start.y as int) == GridSquare::Clear,
            grid0.at(goal.x as int, goal.y as int) == GridSquare::Clear,
            forall|x: int, y: int|
                0 <= x < grid0.spec_width() && 0 <= y < grid0.spec_height() ==> !(
                #[trigger] grid0.at(x, y) matches GridSquare::Covered(j)),
            // cells only go from clear to covered
            forall|x: int, y: int|
                0 <= x < grid0.spec_width() && 0 <= y < grid0.spec_height() ==> (#[trigger] cur.at(
                    x,
                    y,
                ) == grid0.at(x, y) || (grid0.at(x, y) == GridSquare::Clear && cur.at(x, y)
                    matches GridSquare::Covered(j))),
            // a covered cell belongs to the rectangle of its node
            forall|x: int, y: int|
                0 <= x < grid0.spec_width() && 0 <= y < grid0.spec_height() ==> (#[trigger] cur.at(
                    x,
                    y,
                ) matches GridSquare::Covered(j) ==> 1 <= j <= nodes@.len() && nodes@[j
                    - 1].1.contains_cell(x, y)),
            // nodes carry identifiers 1.. in discovery order, and rectangles
            // sit inside the grid
            forall|i: int|
                0 <= i < nodes@.len() ==> (#[trigger] nodes@[i]).0 as int == i + 1
                    && nodes@[i].1.wf() && 0 <= nodes@[i].1.mins.x && nodes@[i].1.maxs.x
                    <= grid0.spec_width() && 0 <= nodes@[i].1.mins.y && nodes@[i].1.maxs.y
                    <= grid0.spec_height() && nodes@[i].1.mins.x < nodes@[i].1.maxs.x
                    && nodes@[i].1.mins.y < nodes@[i].1.maxs.y,
            nodes@.len() == 0 ==> (forall|x: int, y: int|
                0 <= x < grid0.spec_width() && 0 <= y < grid0.spec_height() ==> #[trigger] cur.at(
                    x,
                    y,
                ) == grid0.at(x, y)),
            nodes@.len() > 0 ==> rect_blocked(grid0, nodes@[0].1),
            forall|n: int|
                0 <= n < edges@.len() ==> rects_adjacent(
                    nodes@[(#[trigger] edges@[n]).min - 1].1,
                    nodes@[edges@[n].max - 1].1,
                ),
            // every cell of a node's rectangle is covered by that node
            forall|i: int, x: int, y: int|
                0 <= i < nodes@.len() && (#[trigger] nodes@[i]).1.contains_cell(x, y)
                    ==> #[trigger] cur.at(x, y) == GridSquare::Covered(nodes@[i].0),
            edges_unique(edges@),
            edges_bounded(edges@, nodes@.len() as u32),
            forall|i: int, j: int|
                0 <= i < j < nodes@.len() && rects_adjacent(
                    (#[trigger] nodes@[i]).1,
                    (#[trigger] nodes@[j]).1,
                ) ==> edges@.contains(edge_of(nodes@[i].0, nodes@[j].0)),
            nodes@.len() + cur.spec_clear_count() <= count0,
            count0 <= 0x3fff0001,
            forall|j: int| 0 <= j < queue@.len() ==> grid0.spec_in_bounds(#[trigger] queue@[j]),
            (start_id matches Some(s) ==> cur.at(start.x as int, start.y as int)
                == GridSquare::Covered(s)),
            (cur.at(start.x as int, start.y as int) matches GridSquare::Covered(j) ==> start_id
                == Some(j)),
            (goal_id matches Some(s) ==> cur.at(goal.x as int, goal.y as int)
                == GridSquare::Covered(s)),
            (cur.at(goal.x as int, goal.y as int) matches GridSquare::Covered(j) ==> goal_id
                == Some(j)),
            start_id is Some || queue@.contains(start),
        decreases cur.spec_clear_count(), queue@.len(),
    {
        let ghost pre = queue@;
        let popped = queue.pop_front();
        match popped {
            None => {
                // the loop condition guarantees a seed
                proof {
                    assert(false);
                }
            },
            Some(seed) => {
                proof {
                    // if the start is still unclaimed, it stays queued or is
                    // the seed just taken
                    if !(start_id is Some) && seed != start {
                        let j = choose|j: int| 0 <= j < pre.len() && pre[j] == start;
                        assert(queue@[j - 1] == start);
                        assert(queue@.contains(start));
                    }
                }
                if cur.get(seed) == GridSquare::Clear {
                    let rect = grow_rect(&cur, seed);
                    proof {
                        assert(nodes@.len() < 0x3fff0002);
                    }
                    let id: NodeID = nodes.len() as u32 + 1;
                    let ghost before_claim = cur;
                    claim_rect(&mut cur, rect, id);
                    proof {
                        // the fresh identifier covers exactly the new rectangle
                        assert forall|x: int, y: int|
                            0 <= x < grid0.spec_width() && 0 <= y < grid0.spec_height()
                                && #[trigger] cur.at(x, y) == GridSquare::Covered(
                                id,
                            ) implies rect.contains_cell(x, y) by {
                            if !rect.contains_cell(x, y) {
                                assert(cur.at(x, y) == before_claim.at(x, y));
                            }
                        }
                        assert forall|x: int, y: int|
                            0 <= x < grid0.spec_width() && 0 <= y < grid0.spec_height() implies (
                        #[trigger] cur.at(x, y) matches GridSquare::Covered(j) ==> 1 <= j
                            <= id) by {
                            if !rect.contains_cell(x, y) {
                                assert(cur.at(x, y) == before_claim.at(x, y));
                            }
                        }
                    }
                    let ghost len0 = nodes@.len();
                    let ghost edges_pre = edges@;
                    scan_rect_boundary(&cur, &mut queue, &mut edges, id, rect);
                    proof {
                        // every earlier rectangle that touches the new one has a
                        // covered cell on the new rectangle's boundary strip, so
                        // the scan recorded the joining edge
                        assert forall|i: int|
                            0 <= i < nodes@.len() && rects_adjacent(
                                (#[trigger] nodes@[i]).1,
                                rect,
                            ) implies edges@.contains(edge_of(nodes@[i].0, id)) by {
                            let ri = nodes@[i].1;
                            let (cx, cy): (int, int) = choose|x: int, y: int|
                                #[trigger] ri.contains_cell(x, y) && (rect.contains_cell(x + 1, y)
                                    || rect.contains_cell(x - 1, y) || rect.contains_cell(x, y + 1)
                                    || rect.contains_cell(x, y - 1));
                            assert(cur.at(cx, cy) == GridSquare::Covered(nodes@[i].0));
                            assert(!rect.contains_cell(cx, cy)) by {
                                if rect.contains_cell(cx, cy) {
                                    assert(before_claim.at(cx, cy) == GridSquare::Clear);
                                    assert(cur.at(cx, cy) == GridSquare::Covered(id));
                                }
                            }
                            assert(rect_boundary_cell(rect, cx, cy));
                            assert(edges@.contains(edge_of(id, nodes@[i].0)));
                            assert(edge_of(id, nodes@[i].0) == edge_of(nodes@[i].0, id));
                        }
                    }
                    nodes.push((id, rect));
                    proof {
                        // boundary cells lie outside the rectangle
                        assert forall|x: int, y: int|
                            rect_boundary_cell(rect, x, y) implies !rect.contains_cell(x, y) by {}
                        // every recorded edge joins two touching rectangles
                        assert forall|n: int| 0 <= n < edges@.len() implies rects_adjacent(
                            nodes@[(#[trigger] edges@[n]).min - 1].1,
                            nodes@[edges@[n].max - 1].1,
                        ) by {
                            if n >= edges_pre.len() {
                                let e = edges@[n];
                                assert(e.max == id);
                                let (x, y) = choose|x: int, y: int|
                                    0 <= x < cur.spec_width() && 0 <= y < cur.spec_height()
                                        && rect_boundary_cell(rect, x, y) && #[trigger] cur.at(
                                        x,
                                        y,
                                    ) == GridSquare::Covered(e.min);
                                assert(e.min != id);
                                assert(1 <= e.min <= len0);
                                assert(nodes@[e.min - 1].1.contains_cell(x, y));
                                let a = nodes@[e.min - 1].1;
                                assert(rects_adjacent(a, rect)) by {
                                    if y == rect.mins.y - 1 && rect.mins.x <= x < rect.maxs.x {
                                        assert(rect.contains_cell(x, y + 1));
                                    } else if y == rect.maxs.y && rect.mins.x <= x
                                        < rect.maxs.x {
                                        assert(rect.contains_cell(x, y - 1));
                                    } else if x == rect.mins.x - 1 && rect.mins.y <= y
                                        < rect.maxs.y {
                                        assert(rect.contains_cell(x + 1, y));
                                    } else {
                                        assert(rect.contains_cell(x - 1, y));
                                    }
                                    assert(a.contains_cell(x, y));
                                }
                                assert(nodes@[e.max - 1].1 == rect);
                            }
                        }
                        // the first claimed rectangle is maximal in the input
                        if len0 == 0 {
                            assert(rect_blocked(grid0, rect)) by {
                                if rect.mins.x != 0 {
                                    assert(grid0.at(rect.mins.x - 1, seed.y as int)
                                        != GridSquare::Clear);
                                }
                                if rect.maxs.x != grid0.spec_width() {
                                    assert(grid0.at(rect.maxs.x as int, seed.y as int)
                                        != GridSquare::Clear);
                                }
                                if rect.mins.y != 0 {
                                    let x = choose|x: int|
                                        rect.mins.x <= x < rect.maxs.x && #[trigger] before_claim.at(
                                            x,
                                            rect.mins.y - 1,
                                        ) != GridSquare::Clear;
                                    assert(grid0.at(x, rect.mins.y - 1) != GridSquare::Clear);
                                }
                                if rect.maxs.y != grid0.spec_height() {
                                    let x = choose|x: int|
                                        rect.mins.x <= x < rect.maxs.x && #[trigger] before_claim.at(
                                            x,
                                            rect.maxs.y as int,
                                        ) != GridSquare::Clear;
                                    assert(grid0.at(x, rect.maxs.y as int) != GridSquare::Clear);
                                }
                            }
                        }
                    }
                    if rect.contains(start) {
                        start_id = Some(id);
                    }
                    if rect.contains(goal) {
                        goal_id = Some(id);
                    }
                    proof {
                        assert(cur.at(start.x as int, start.y as int) matches GridSquare::Covered(
                            j,
                        ) ==> (if rect.contains_cell(start.x as int, start.y as int) {
                            j == id
                        } else {
                            before_claim.at(start.x as int, start.y as int)
                                == GridSquare::Covered(j)
                        }));
                    }
                } else {
                }
            },
        }
    }
    if let Some(s) = start_id {
        if let Some(g) = goal_id {
            proof {
                // both terminals name existing nodes
                assert(1 <= s <= nodes@.len() && nodes@[s - 1].0 == s && nodes@[s
                    - 1].1.contains_cell(start.x as int, start.y as int));
                assert(1 <= g <= nodes@.len() && nodes@[g - 1].0 == g && nodes@[g
                    - 1].1.contains_cell(goal.x as int, goal.y as int));
                assert(has_key(nodes@, s));
                assert(has_key(nodes@, g));
                assert(exists|i: int|
                    0 <= i < nodes@.len() && (#[trigger] nodes@[i]).0 == s
                        && nodes@[i].1.spec_contains(start)) by {
                    assert(0 <= s - 1 < nodes@.len() && (nodes@[s - 1]).0 == s && nodes@[s
                        - 1].1.spec_contains(start));
                }
                assert(exists|i: int|
                    0 <= i < nodes@.len() && (#[trigger] nodes@[i]).0 == g
                        && nodes@[i].1.spec_contains(goal)) by {
                    assert(0 <= g - 1 < nodes@.len() && (nodes@[g - 1]).0 == g && nodes@[g
                        - 1].1.spec_contains(goal));
                }
                assert(crate::graph::unique_keys(nodes@));
                assert forall|j: int| 0 <= j < edges@.len() implies (#[trigger] edges@[j]).wf()
                    && has_key(nodes@, edges@[j].min) && has_key(nodes@, edges@[j].max) by {
                    assert(1 <= edges@[j].min < edges@[j].max <= nodes@.len());
                    assert(nodes@[edges@[j].min - 1].0 == edges@[j].min);
                    assert(nodes@[edges@[j].max - 1].0 == edges@[j].max);
                }
                // the rectangles cover disjoint cells
                assert forall|i: int, j: int|
                    0 <= i < j < nodes@.len() implies (#[trigger] nodes@[i]).1.disjoint(
                    (#[trigger] nodes@[j]).1,
                ) by {
                    assert forall|p: V2|
                        !(nodes@[i].1.spec_contains(p) && nodes@[j].1.spec_contains(p)) by {
                        if nodes@[i].1.spec_contains(p) && nodes@[j].1.spec_contains(p) {
                            assert(cur.at(p.x as int, p.y as int) == GridSquare::Covered(
                                nodes@[i].0,
                            ));
                            assert(cur.at(p.x as int, p.y as int) == GridSquare::Covered(
                                nodes@[j].0,
                            ));
                        }
                    }
                }
                // every covered cell was clear in the input grid
                assert forall|i: int, x: int, y: int|
                    0 <= i < nodes@.len() && (#[trigger] nodes@[i]).1.contains_cell(
                        x,
                        y,
                    ) implies #[trigger] grid0.at(x, y) == GridSquare::Clear by {
                    assert(cur.at(x, y) == GridSquare::Covered(nodes@[i].0));
                }
            }
            let ghost final_nodes = nodes@;
            let ghost final_edges = edges@;
            let out = EdgeSetGraph::new(nodes, s, g, edges);
            proof {
                assert(has_key(out.nodes@, s)) by {
                    assert(out.nodes@[s - 1].0 == s);
                }
                let ks = key_index(out.nodes@, s);
                assert(0 <= ks < out.nodes@.len() && out.nodes@[ks].0 == s);
                assert(ks == s - 1);
                assert(value_of(out.nodes@, out.start).spec_contains(start));
                assert(has_key(out.nodes@, g)) by {
                    assert(out.nodes@[g - 1].0 == g);
                }
                let kg = key_index(out.nodes@, g);
                assert(0 <= kg < out.nodes@.len() && out.nodes@[kg].0 == g);
                assert(kg == g - 1);
                assert(value_of(out.nodes@, out.goal).spec_contains(goal));
                assert(out.nodes@ == final_nodes && out.edges@ == final_edges);
                assert forall|i: int, j: int|
                    0 <= i < j < out.nodes@.len() && rects_adjacent(
                        (#[trigger] out.nodes@[i]).1,
                        (#[trigger] out.nodes@[j]).1,
                    ) implies out.edges@.contains(edge_of(out.nodes@[i].0, out.nodes@[j].0)) by {
                    assert(rects_adjacent(final_nodes[i].1, final_nodes[j].1));
                    assert(final_edges.contains(edge_of(final_nodes[i].0, final_nodes[j].0)));
                }
            }
            return Some(out);
        }
    }
    proof {
        // the queue drained, so the start cell was claimed; when start and
        // goal coincide both terminals were found and a graph was returned
        assert(start_id is Some);
        if start == goal {
            assert(false);
        }
    }
    None
}

} // verus!
