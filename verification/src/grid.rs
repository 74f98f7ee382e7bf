//! Pixel cells, walks between neighbouring cells, and rectangles of cells.
use vstd::arithmetic::div_mod::lemma_fundamental_div_mod_converse;
use vstd::prelude::*;
use vstd::set_lib::*;

verus! {

/// A pixel position: row first, then column.
pub type Cell = (int, int);

/// The cells with a column in `x0..x1` and a row in `y0..y1`.
pub open spec fn rect(x0: int, y0: int, x1: int, y1: int) -> Set<Cell> {
    Set::new(|c: Cell| y0 <= c.0 < y1 && x0 <= c.1 < x1)
}

/// The cells of a frame of `width` columns and `height` rows.
pub open spec fn frame_cells(width: int, height: int) -> Set<Cell> {
    rect(0, 0, width, height)
}

/// Position of a cell when the rows of a frame are laid end to end.
pub open spec fn raster(c: Cell, width: int) -> int {
    c.0 * width + c.1
}

/// The two cells share an edge.
pub open spec fn adjacent(p: Cell, q: Cell) -> bool {
    ||| p.0 == q.0 && (p.1 == q.1 + 1 || q.1 == p.1 + 1)
    ||| p.1 == q.1 && (p.0 == q.0 + 1 || q.0 == p.0 + 1)
}

/// The `i`-th step of `walk` goes to a neighbour that lies in `open_cells`.
pub open spec fn step_ok(open_cells: Set<Cell>, walk: Seq<Cell>, i: int) -> bool {
    open_cells.contains(walk[i]) && adjacent(walk[i - 1], walk[i])
}

/// `walk` leads from `from` to `to`; every cell after the first lies in `open_cells`.
pub open spec fn leads(open_cells: Set<Cell>, walk: Seq<Cell>, from: Cell, to: Cell) -> bool {
    &&& walk.len() > 0
    &&& walk[0] == from
    &&& walk.last() == to
    &&& forall|i: int| 1 <= i < walk.len() ==> #[trigger] step_ok(open_cells, walk, i)
}

/// Everything that can be walked to from `start` through `open_cells`, with `start` itself.
pub open spec fn reach(open_cells: Set<Cell>, start: Cell) -> Set<Cell> {
    Set::new(|c: Cell| exists|walk: Seq<Cell>| leads(open_cells, walk, start, c))
}

/// `cells` holds every open neighbour of each of its cells.
pub open spec fn closed_under_steps(open_cells: Set<Cell>, cells: Set<Cell>) -> bool {
    forall|p: Cell, q: Cell|
        #![trigger cells.contains(p), open_cells.contains(q)]
        cells.contains(p) && open_cells.contains(q) && adjacent(p, q) ==> cells.contains(q)
}

pub proof fn lemma_reach_start(open_cells: Set<Cell>, start: Cell)
    ensures
        reach(open_cells, start).contains(start),
{
    assert(leads(open_cells, seq![start], start, start));
}

pub proof fn lemma_reach_step(open_cells: Set<Cell>, start: Cell, p: Cell, q: Cell)
    requires
        reach(open_cells, start).contains(p),
        open_cells.contains(q),
        adjacent(p, q),
    ensures
        reach(open_cells, start).contains(q),
{
    let walk = choose|walk: Seq<Cell>| leads(open_cells, walk, start, p);
    let longer = walk.push(q);
    assert forall|i: int| 1 <= i < longer.len() implies #[trigger] step_ok(
        open_cells,
        longer,
        i,
    ) by {
        if i < walk.len() {
            assert(step_ok(open_cells, walk, i));
        }
    }
    assert(leads(open_cells, longer, start, q));
}

pub proof fn lemma_reach_closed(open_cells: Set<Cell>, start: Cell)
    ensures
        closed_under_steps(open_cells, reach(open_cells, start)),
{
    let all = reach(open_cells, start);
    assert forall|p: Cell, q: Cell|
        #![trigger all.contains(p), open_cells.contains(q)]
        all.contains(p) && open_cells.contains(q) && adjacent(p, q) implies all.contains(q) by {
        lemma_reach_step(open_cells, start, p, q);
    }
}

proof fn lemma_walk_stays(open_cells: Set<Cell>, walk: Seq<Cell>, cells: Set<Cell>, k: int)
    requires
        0 <= k < walk.len(),
        cells.contains(walk[0]),
        closed_under_steps(open_cells, cells),
        forall|i: int| 1 <= i < walk.len() ==> #[trigger] step_ok(open_cells, walk, i),
    ensures
        cells.contains(walk[k]),
    decreases k,
{
    if k > 0 {
        lemma_walk_stays(open_cells, walk, cells, k - 1);
        assert(step_ok(open_cells, walk, k));
    }
}

/// A set that holds the start and is closed under steps holds everything reachable.
pub proof fn lemma_reach_least(open_cells: Set<Cell>, start: Cell, cells: Set<Cell>)
    requires
        cells.contains(start),
        closed_under_steps(open_cells, cells),
    ensures
        reach(open_cells, start).subset_of(cells),
{
    assert forall|c: Cell| reach(open_cells, start).contains(c) implies cells.contains(c) by {
        let walk = choose|walk: Seq<Cell>| leads(open_cells, walk, start, c);
        lemma_walk_stays(open_cells, walk, cells, walk.len() - 1);
    }
}

/// Only the start can lie outside the open cells.
pub proof fn lemma_reach_within(open_cells: Set<Cell>, start: Cell)
    ensures
        reach(open_cells, start).subset_of(open_cells.insert(start)),
{
    lemma_reach_least(open_cells, start, open_cells.insert(start));
}

pub proof fn lemma_reach_transitive(open_cells: Set<Cell>, p: Cell, q: Cell)
    requires
        reach(open_cells, p).contains(q),
    ensures
        reach(open_cells, q).subset_of(reach(open_cells, p)),
{
    lemma_reach_closed(open_cells, p);
    lemma_reach_least(open_cells, q, reach(open_cells, p));
}

/// Between open cells reachability goes both ways.
pub proof fn lemma_reach_symmetric(open_cells: Set<Cell>, p: Cell, q: Cell)
    requires
        open_cells.contains(p),
        reach(open_cells, p).contains(q),
    ensures
        open_cells.contains(q),
        reach(open_cells, q).contains(p),
{
    let back = Set::new(|c: Cell| open_cells.contains(c) && reach(open_cells, c).contains(p));
    lemma_reach_start(open_cells, p);
    assert forall|c: Cell, d: Cell|
        #![trigger back.contains(c), open_cells.contains(d)]
        back.contains(c) && open_cells.contains(d) && adjacent(c, d) implies back.contains(d) by {
        lemma_reach_start(open_cells, d);
        lemma_reach_step(open_cells, d, d, c);
        lemma_reach_transitive(open_cells, d, c);
    }
    lemma_reach_least(open_cells, p, back);
}

/// Cells that reach each other reach the same cells.
pub proof fn lemma_reach_same(open_cells: Set<Cell>, p: Cell, q: Cell)
    requires
        open_cells.contains(p),
        reach(open_cells, p).contains(q),
    ensures
        reach(open_cells, p) == reach(open_cells, q),
{
    lemma_reach_symmetric(open_cells, p, q);
    lemma_reach_transitive(open_cells, p, q);
    lemma_reach_transitive(open_cells, q, p);
    assert(reach(open_cells, p) =~= reach(open_cells, q));
}

proof fn lemma_row_len(x0: int, x1: int, y: int)
    requires
        x0 <= x1,
    ensures
        rect(x0, y, x1, y + 1).finite(),
        rect(x0, y, x1, y + 1).len() == x1 - x0,
    decreases x1 - x0,
{
    if x0 == x1 {
        assert(rect(x0, y, x1, y + 1) =~= Set::<Cell>::empty());
    } else {
        lemma_row_len(x0, x1 - 1, y);
        assert(rect(x0, y, x1, y + 1) =~= rect(x0, y, x1 - 1, y + 1).insert((y, x1 - 1)));
    }
}

/// A rectangle has as many cells as its width times its height.
pub proof fn lemma_rect_len(x0: int, y0: int, x1: int, y1: int)
    requires
        x0 <= x1,
        y0 <= y1,
    ensures
        rect(x0, y0, x1, y1).finite(),
        rect(x0, y0, x1, y1).len() == (x1 - x0) * (y1 - y0),
    decreases y1 - y0,
{
    if y0 == y1 {
        assert(rect(x0, y0, x1, y1) =~= Set::<Cell>::empty());
        assert((x1 - x0) * (y1 - y0) == 0) by (nonlinear_arith)
            requires
                y0 == y1,
        ;
    } else {
        lemma_rect_len(x0, y0, x1, y1 - 1);
        lemma_row_len(x0, x1, y1 - 1);
        let above = rect(x0, y0, x1, y1 - 1);
        let row = rect(x0, y1 - 1, x1, y1);
        assert(rect(x0, y0, x1, y1) =~= above.union(row));
        assert(above.disjoint(row));
        lemma_set_disjoint_lens(above, row);
        assert((x1 - x0) * (y1 - y0) == (x1 - x0) * (y1 - 1 - y0) + (x1 - x0))
            by (nonlinear_arith);
    }
}

/// Distinct cells of a frame have distinct raster positions, all below the frame's size.
pub proof fn lemma_raster_injective(p: Cell, q: Cell, width: int, height: int)
    requires
        frame_cells(width, height).contains(p),
        frame_cells(width, height).contains(q),
    ensures
        raster(p, width) == raster(q, width) <==> p == q,
        raster(p, width) < raster(q, width) <==> (p.0 < q.0 || p.0 == q.0 && p.1 < q.1),
{
    if p.0 < q.0 {
        assert(p.0 * width + width <= q.0 * width) by (nonlinear_arith)
            requires
                p.0 < q.0,
                width > 0,
        ;
    }
    if q.0 < p.0 {
        assert(q.0 * width + width <= p.0 * width) by (nonlinear_arith)
            requires
                q.0 < p.0,
                width > 0,
        ;
    }
}

pub proof fn lemma_raster_bounds(p: Cell, width: int, height: int)
    requires
        frame_cells(width, height).contains(p),
    ensures
        0 <= raster(p, width) < width * height,
{
    assert(0 <= p.0 * width && p.0 * width + width <= width * height) by (nonlinear_arith)
        requires
            0 <= p.0 < height,
            width > 0,
    ;
}

/// Row and column come back from the position when rows are laid end to end.
pub proof fn lemma_position(width: int, height: int, y: int, x: int)
    requires
        0 <= y < height,
        0 <= x < width,
    ensures
        (y * width + x) / width == y,
        (y * width + x) % width == x,
        0 <= y * width,
        y * width + x < width * height,
        y * width + width == (y + 1) * width,
        (y + 1) * width <= width * height,
{
    lemma_fundamental_div_mod_converse(y * width + x, width, y, x);
    assert(0 <= y * width && y * width + width == (y + 1) * width && (y + 1) * width <= width
        * height) by (nonlinear_arith)
        requires
            0 <= y < height,
            0 < width,
    ;
}

/// A position in a frame belongs to one row and column.
pub proof fn lemma_cell_of_position(width: int, height: int, n: int)
    requires
        0 < width,
        0 <= n < width * height,
    ensures
        0 <= n / width < height,
        0 <= n % width < width,
        (n / width) * width + n % width == n,
{
    assert(n == (n / width) * width + n % width && 0 <= n % width < width && 0 <= n / width
        < height) by (nonlinear_arith)
        requires
            0 <= n < width * height,
            width > 0,
    ;
}

} // verus!
