//! Connected groups of foreground pixels, found by flood filling.
use crate::bitset::{bit_at, clear_bits, get_bit, lemma_packed, packed, set_bit};
use crate::grid::{
    adjacent, closed_under_steps, frame_cells, lemma_raster_bounds, lemma_raster_injective,
    lemma_reach_closed, lemma_reach_least, lemma_reach_same, lemma_reach_start,
    lemma_reach_step, lemma_reach_symmetric, lemma_reach_within, lemma_rect_len, raster, reach,
    Cell,
};
use vstd::prelude::*;
use vstd::set_lib::*;

verus! {

/// The value of a foreground pixel.
pub const FOREGROUND: u8 = 255;

/// Once more blobs than this are found the search stops.
pub const MAX_RAW_BLOBS: usize = 1000;

/// A bounding box with the number of foreground pixels it was drawn around.
/// The upper bounds are exclusive.
#[derive(Clone, Copy, PartialEq, Eq, Structural, Debug)]
pub struct Blob {
    pub min_x: u32,
    pub min_y: u32,
    pub max_x: u32,
    pub max_y: u32,
    pub area: u32,
}

/// A blob over unbounded integers.
pub struct BlobView {
    pub min_x: int,
    pub min_y: int,
    pub max_x: int,
    pub max_y: int,
    pub area: int,
}

impl View for Blob {
    type V = BlobView;

    open spec fn view(&self) -> BlobView {
        BlobView {
            min_x: self.min_x as int,
            min_y: self.min_y as int,
            max_x: self.max_x as int,
            max_y: self.max_y as int,
            area: self.area as int,
        }
    }
}

/// The views of a sequence of blobs.
pub open spec fn blob_views(blobs: Seq<Blob>) -> Seq<BlobView> {
    blobs.map_values(|b: Blob| b@)
}

/// `data` holds `height` rows of `width` pixels, `stride` apart.
pub open spec fn holds_rows(len: int, width: int, height: int, stride: int) -> bool {
    width == 0 || height == 0 || (height - 1) * stride + width <= len
}

/// The foreground cells of a frame whose rows start `stride` apart.
pub open spec fn lit_cells(data: Seq<u8>, width: int, height: int, stride: int) -> Set<Cell> {
    Set::new(
        |c: Cell|
            frame_cells(width, height).contains(c) && data[raster(c, stride)] == FOREGROUND,
    )
}

/// The cells of a frame whose bit is set.
pub open spec fn marked_cells(visited: Seq<u64>, width: int, height: int) -> Set<Cell> {
    Set::new(
        |c: Cell| frame_cells(width, height).contains(c) && bit_at(visited, raster(c, width)),
    )
}

/// The smallest box around `cells` has these columns and rows, all inclusive.
pub open spec fn spans(cells: Set<Cell>, min_x: int, min_y: int, max_x: int, max_y: int) -> bool {
    &&& forall|c: Cell| #[trigger]
        cells.contains(c) ==> min_y <= c.0 <= max_y && min_x <= c.1 <= max_x
    &&& exists|c: Cell| #[trigger] cells.contains(c) && c.1 == min_x
    &&& exists|c: Cell| #[trigger] cells.contains(c) && c.0 == min_y
    &&& exists|c: Cell| #[trigger] cells.contains(c) && c.1 == max_x
    &&& exists|c: Cell| #[trigger] cells.contains(c) && c.0 == max_y
}

/// `blob` is the bounding box of `cells` and counts them.
pub open spec fn describes(blob: BlobView, cells: Set<Cell>) -> bool {
    &&& cells.finite()
    &&& spans(cells, blob.min_x, blob.min_y, blob.max_x - 1, blob.max_y - 1)
    &&& blob.area == cells.len()
}

/// The blob that describes `cells`.
pub open spec fn extent(cells: Set<Cell>) -> BlobView {
    choose|blob: BlobView| describes(blob, cells)
}

/// No two blobs describe the same cells.
pub proof fn lemma_extent_unique(blob: BlobView, cells: Set<Cell>)
    requires
        describes(blob, cells),
    ensures
        extent(cells) == blob,
{
    assert(describes(extent(cells), cells));
}

spec fn cell_of(at: (usize, usize)) -> Cell {
    (at.0 as int, at.1 as int)
}

/// Flood fill bookkeeping: `seen` are the cells marked so far, `done` those already counted,
/// and `pending` the rest of the marked cells, each once.
spec fn filling(
    free: Set<Cell>,
    start: Cell,
    seen: Set<Cell>,
    done: Set<Cell>,
    pending: Seq<(usize, usize)>,
) -> bool {
    &&& seen.contains(start)
    &&& seen.subset_of(reach(free, start))
    &&& done.subset_of(seen)
    &&& forall|i: int|
        0 <= i < pending.len() ==> seen.contains(#[trigger] cell_of(pending[i])) && !done.contains(
            cell_of(pending[i]),
        )
    &&& forall|i: int, j: int|
        0 <= i < j < pending.len() ==> #[trigger] cell_of(pending[i]) != #[trigger] cell_of(
            pending[j],
        )
    &&& forall|c: Cell| #[trigger]
        seen.contains(c) && !done.contains(c) ==> exists|i: int|
            0 <= i < pending.len() && #[trigger] cell_of(pending[i]) == c
}

/// Every free neighbour of a cell in `done` has been seen.
spec fn explored(free: Set<Cell>, seen: Set<Cell>, done: Set<Cell>) -> bool {
    forall|d: Cell, q: Cell|
        #![trigger done.contains(d), free.contains(q)]
        done.contains(d) && free.contains(q) && adjacent(d, q) ==> seen.contains(q)
}

/// The marks are the old marks and the cells seen since; bits beyond the frame are untouched.
spec fn marks(
    before: Seq<u64>,
    now: Seq<u64>,
    width: int,
    height: int,
    seen: Set<Cell>,
) -> bool {
    &&& now.len() == before.len()
    &&& forall|c: Cell| #[trigger]
        frame_cells(width, height).contains(c) ==> bit_at(now, raster(c, width)) == (bit_at(
            before,
            raster(c, width),
        ) || seen.contains(c))
    &&& forall|n: int|
        width * height <= n < 64 * before.len() ==> #[trigger] bit_at(now, n) == bit_at(before, n)
}

/// Marks the cell and puts it on the stack if it is foreground and not yet marked.
fn visit(
    data: &[u8],
    width: usize,
    height: usize,
    stride: usize,
    y: usize,
    x: usize,
    stack: &mut Vec<(usize, usize)>,
    visited: &mut [u64],
    Ghost(before): Ghost<Seq<u64>>,
    Ghost(start): Ghost<Cell>,
    Ghost(from): Ghost<Cell>,
    Ghost(seen): Ghost<Set<Cell>>,
    Ghost(done): Ghost<Set<Cell>>,
) -> (now_seen: Ghost<Set<Cell>>)
    requires
        y < height,
        x < width,
        width * height <= usize::MAX,
        width * height <= 64 * old(visited)@.len(),
        holds_rows(data@.len() as int, width as int, height as int, stride as int),
        marks(before, old(visited)@, width as int, height as int, seen),
        ({
            let free = lit_cells(data@, width as int, height as int, stride as int).difference(
                marked_cells(before, width as int, height as int),
            );
            &&& filling(free, start, seen, done, old(stack)@)
        }),
        done.contains(from),
        adjacent(from, (y as int, x as int)),
    ensures
        marks(before, final(visited)@, width as int, height as int, now_seen@),
        ({
            let free = lit_cells(data@, width as int, height as int, stride as int).difference(
                marked_cells(before, width as int, height as int),
            );
            let here = (y as int, x as int);
            &&& filling(free, start, now_seen@, done, final(stack)@)
            &&& now_seen@ == (if free.contains(here) {
                seen.insert(here)
            } else {
                seen
            })
        }),
{
    let ghost here = (y as int, x as int);
    let ghost w = width as int;
    let ghost h = height as int;
    let ghost free = lit_cells(data@, w, h, stride as int).difference(marked_cells(before, w, h));
    proof {
        assert(frame_cells(w, h).contains(here));
        lemma_raster_bounds(here, w, h);
        assert(0 <= y * width) by (nonlinear_arith);
        assert(data.len() == data@.len());
        assert(0 <= y * stride <= (height - 1) * stride) by (nonlinear_arith)
            requires
                y < height,
        ;
    }
    let n: usize = y * width + x;
    let at: usize = y * stride + x;
    if !get_bit(visited, n) && data[at] == FOREGROUND {
        let ghost queue = stack@;
        set_bit(visited, n);
        stack.push((y, x));
        let ghost grown = seen.insert(here);
        proof {
            assert(free.contains(here));
            assert(!seen.contains(here));
            assert(marks(before, visited@, w, h, grown)) by {
                assert forall|c: Cell| #[trigger] frame_cells(w, h).contains(c) implies bit_at(
                    visited@,
                    raster(c, w),
                ) == (bit_at(before, raster(c, w)) || grown.contains(c)) by {
                    lemma_raster_injective(c, here, w, h);
                    lemma_raster_bounds(c, w, h);
                }
            }
            lemma_reach_step(free, start, from, here);
            assert(filling(free, start, grown, done, stack@)) by {
                assert forall|c: Cell| #[trigger]
                    grown.contains(c) && !done.contains(c) implies exists|i: int|
                    0 <= i < stack@.len() && #[trigger] cell_of(stack@[i]) == c by {
                    if c == here {
                        assert(cell_of(stack@[queue.len() as int]) == c);
                    } else {
                        let i = choose|i: int|
                            0 <= i < queue.len() && #[trigger] cell_of(queue[i]) == c;
                        assert(cell_of(stack@[i]) == c);
                    }
                }
                assert forall|i: int, j: int| 0 <= i < j < stack@.len() implies #[trigger] cell_of(
                    stack@[i],
                ) != #[trigger] cell_of(stack@[j]) by {
                    assert(cell_of(queue[i]) == cell_of(stack@[i]));
                    if j < queue.len() {
                        assert(cell_of(queue[j]) == cell_of(stack@[j]));
                    }
                }
                assert forall|i: int| 0 <= i < stack@.len() implies grown.contains(
                    #[trigger] cell_of(stack@[i]),
                ) && !done.contains(cell_of(stack@[i])) by {
                    if i < queue.len() {
                        assert(cell_of(queue[i]) == cell_of(stack@[i]));
                    }
                }
            }
        }
        Ghost(grown)
    } else {
        proof {
            if free.contains(here) {
                assert(seen.contains(here));
                assert(seen.insert(here) =~= seen);
            }
        }
        Ghost(seen)
    }
}

/// Popping the last pending cell and counting it.
proof fn lemma_take_pending(
    free: Set<Cell>,
    start: Cell,
    seen: Set<Cell>,
    done: Set<Cell>,
    pending: Seq<(usize, usize)>,
)
    requires
        filling(free, start, seen, done, pending),
        pending.len() > 0,
    ensures
        seen.contains(cell_of(pending.last())),
        !done.contains(cell_of(pending.last())),
        filling(free, start, seen, done.insert(cell_of(pending.last())), pending.drop_last()),
{
    let c = cell_of(pending.last());
    let rest = pending.drop_last();
    let counted = done.insert(c);
    assert(cell_of(pending[pending.len() - 1]) == c);
    assert forall|i: int| 0 <= i < rest.len() implies seen.contains(#[trigger] cell_of(rest[i]))
        && !counted.contains(cell_of(rest[i])) by {
        assert(cell_of(pending[i]) != cell_of(pending[pending.len() - 1]));
    }
    assert forall|i: int, j: int| 0 <= i < j < rest.len() implies #[trigger] cell_of(rest[i])
        != #[trigger] cell_of(rest[j]) by {
        assert(cell_of(pending[i]) != cell_of(pending[j]));
    }
    assert forall|d: Cell| #[trigger] seen.contains(d) && !counted.contains(d) implies exists|
        i: int,
    |
        0 <= i < rest.len() && #[trigger] cell_of(rest[i]) == d by {
        let i = choose|i: int| 0 <= i < pending.len() && #[trigger] cell_of(pending[i]) == d;
        assert(cell_of(rest[i]) == d);
    }
}

pub proof fn lemma_spans_grow(
    cells: Set<Cell>,
    here: Cell,
    min_x: int,
    min_y: int,
    max_x: int,
    max_y: int,
)
    requires
        spans(cells, min_x, min_y, max_x, max_y),
    ensures
        spans(
            cells.insert(here),
            if here.1 < min_x { here.1 } else { min_x },
            if here.0 < min_y { here.0 } else { min_y },
            if here.1 > max_x { here.1 } else { max_x },
            if here.0 > max_y { here.0 } else { max_y },
        ),
{
    let grown = cells.insert(here);
    let left = choose|c: Cell| #[trigger] cells.contains(c) && c.1 == min_x;
    let top = choose|c: Cell| #[trigger] cells.contains(c) && c.0 == min_y;
    let right = choose|c: Cell| #[trigger] cells.contains(c) && c.1 == max_x;
    let bottom = choose|c: Cell| #[trigger] cells.contains(c) && c.0 == max_y;
    assert(grown.contains(left) && grown.contains(top) && grown.contains(right)
        && grown.contains(bottom) && grown.contains(here));
}

/// Everything reachable stays in the frame.
pub proof fn lemma_reach_in_frame(free: Set<Cell>, start: Cell, width: int, height: int)
    requires
        free.subset_of(frame_cells(width, height)),
        frame_cells(width, height).contains(start),
    ensures
        reach(free, start).subset_of(frame_cells(width, height)),
        reach(free, start).finite(),
        reach(free, start).len() <= width * height,
{
    lemma_reach_within(free, start);
    lemma_rect_len(0, 0, width, height);
    assert(reach(free, start).subset_of(frame_cells(width, height)));
    lemma_set_subset_finite(frame_cells(width, height), reach(free, start));
    lemma_len_subset(reach(free, start), frame_cells(width, height));
}

/// What a flood fill finds and leaves marked: from `start` through the foreground cells that are
/// not marked in `before`, the bounds and the number of the cells filled; these are marked in
/// `after`, and nothing else changes.
pub open spec fn fill_outcome(
    data: Seq<u8>,
    width: int,
    height: int,
    stride: int,
    start: Cell,
    before: Seq<u64>,
    found: (usize, usize, usize, usize, u32),
    after: Seq<u64>,
) -> bool {
    let marked = marked_cells(before, width, height);
    let filled = reach(lit_cells(data, width, height, stride).difference(marked), start);
    &&& filled.finite()
    &&& spans(filled, found.0 as int, found.1 as int, found.2 as int, found.3 as int)
    &&& found.4 == filled.len()
    &&& after.len() == before.len()
    &&& marked_cells(after, width, height) == marked.union(filled)
    &&& forall|n: int|
        width * height <= n < 64 * before.len() ==> #[trigger] bit_at(after, n) == bit_at(before, n)
}

/// Fills from the cell in row `sy` and column `sx` through foreground cells that are not marked
/// yet, stepping between cells that share an edge. Marks the start and every cell filled, and
/// returns the inclusive bounds (left, top, right, bottom) of these cells and how many they are.
pub fn flood_fill(
    data: &[u8],
    width: usize,
    height: usize,
    stride: usize,
    sy: usize,
    sx: usize,
    stack: &mut Vec<(usize, usize)>,
    visited: &mut [u64],
) -> (found: (usize, usize, usize, usize, u32))
    requires
        sy < height,
        sx < width,
        width * height <= usize::MAX,
        width * height <= 64 * old(visited)@.len(),
        holds_rows(data@.len() as int, width as int, height as int, stride as int),
        reach(
            lit_cells(data@, width as int, height as int, stride as int).difference(
                marked_cells(old(visited)@, width as int, height as int),
            ),
            (sy as int, sx as int),
        ).len() <= u32::MAX,
    ensures
        final(stack)@.len() == 0,
        fill_outcome(
            data@,
            width as int,
            height as int,
            stride as int,
            (sy as int, sx as int),
            old(visited)@,
            found,
            final(visited)@,
        ),
{
    let ghost w = width as int;
    let ghost h = height as int;
    let ghost start = (sy as int, sx as int);
    let ghost before = visited@;
    let ghost lit = lit_cells(data@, w, h, stride as int);
    let ghost free = lit.difference(marked_cells(before, w, h));
    let ghost filled = reach(free, start);
    let ghost mut seen: Set<Cell> = set![start];
    let ghost mut done: Set<Cell> = Set::empty();
    proof {
        assert(frame_cells(w, h).contains(start));
        lemma_raster_bounds(start, w, h);
        assert(0 <= sy * width) by (nonlinear_arith);
        lemma_reach_in_frame(free, start, w, h);
        lemma_reach_start(free, start);
    }
    stack.clear();
    set_bit(visited, sy * width + sx);
    stack.push((sy, sx));
    proof {
        assert(marks(before, visited@, w, h, seen)) by {
            assert forall|c: Cell| #[trigger] frame_cells(w, h).contains(c) implies bit_at(
                visited@,
                raster(c, w),
            ) == (bit_at(before, raster(c, w)) || seen.contains(c)) by {
                lemma_raster_injective(c, start, w, h);
                lemma_raster_bounds(c, w, h);
            }
        }
        assert(cell_of(stack@[0]) == start);
        assert(filling(free, start, seen, done, stack@));
        assert(done.insert(start).contains(start));
    }
    let mut min_x: usize = sx;
    let mut min_y: usize = sy;
    let mut max_x: usize = sx;
    let mut max_y: usize = sy;
    let mut area: u32 = 0;

    while stack.len() > 0
        invariant
            w == width,
            h == height,
            sy < height,
            sx < width,
            start == (sy as int, sx as int),
            width * height <= usize::MAX,
            width * height <= 64 * visited@.len(),
            holds_rows(data@.len() as int, w, h, stride as int),
            lit == lit_cells(data@, w, h, stride as int),
            free == lit.difference(marked_cells(before, w, h)),
            filled == reach(free, start),
            filled.subset_of(frame_cells(w, h)),
            filled.finite(),
            filled.len() <= u32::MAX,
            marks(before, visited@, w, h, seen),
            filling(free, start, seen, done, stack@),
            explored(free, seen, done),
            done.finite(),
            area == done.len(),
            spans(done.insert(start), min_x as int, min_y as int, max_x as int, max_y as int),
        decreases filled.len() - done.len(),
    {
        let ghost pending = stack@;
        let ghost counted = done;
        let (cy, cx) = stack.pop().unwrap();
        let ghost here = (cy as int, cx as int);
        proof {
            lemma_take_pending(free, start, seen, done, pending);
            assert(pending.drop_last() =~= stack@);
            assert(here == cell_of(pending.last()));
            done = done.insert(here);
            assert(done.subset_of(filled));
            lemma_len_subset(done, filled);
            assert(frame_cells(w, h).contains(here));
        }
        proof {
            lemma_spans_grow(
                counted.insert(start),
                here,
                min_x as int,
                min_y as int,
                max_x as int,
                max_y as int,
            );
            assert(counted.insert(start).insert(here) =~= done.insert(start));
        }
        if cx < min_x {
            min_x = cx;
        }
        if cy < min_y {
            min_y = cy;
        }
        if cx > max_x {
            max_x = cx;
        }
        if cy > max_y {
            max_y = cy;
        }
        area += 1;

        let ghost mut around = seen;
        if cx > 0 {
            let Ghost(now) = visit(
                data, width, height, stride, cy, cx - 1, stack, visited,
                Ghost(before), Ghost(start), Ghost(here), Ghost(around), Ghost(done),
            );
            proof {
                around = now;
            }
        }
        if cx + 1 < width {
            let Ghost(now) = visit(
                data, width, height, stride, cy, cx + 1, stack, visited,
                Ghost(before), Ghost(start), Ghost(here), Ghost(around), Ghost(done),
            );
            proof {
                around = now;
            }
        }
        if cy > 0 {
            let Ghost(now) = visit(
                data, width, height, stride, cy - 1, cx, stack, visited,
                Ghost(before), Ghost(start), Ghost(here), Ghost(around), Ghost(done),
            );
            proof {
                around = now;
            }
        }
        if cy + 1 < height {
            let Ghost(now) = visit(
                data, width, height, stride, cy + 1, cx, stack, visited,
                Ghost(before), Ghost(start), Ghost(here), Ghost(around), Ghost(done),
            );
            proof {
                around = now;
            }
        }
        proof {
            assert(seen.subset_of(around));
            assert(explored(free, around, done)) by {
                assert forall|d: Cell, q: Cell|
                    #![trigger done.contains(d), free.contains(q)]
                    done.contains(d) && free.contains(q) && adjacent(d, q) implies around.contains(
                    q,
                ) by {
                    if d == here {
                        assert(frame_cells(w, h).contains(q));
                    } else {
                        assert(counted.contains(d));
                        assert(seen.contains(q));
                    }
                }
            }
            seen = around;
        }
    }
    proof {
        assert(seen =~= done) by {
            assert forall|c: Cell| seen.contains(c) implies done.contains(c) by {}
        }
        lemma_reach_least(free, start, seen);
        assert(filled =~= done);
        assert(done.insert(start) =~= done);
        assert(marked_cells(visited@, w, h) =~= marked_cells(before, w, h).union(filled));
    }
    (min_x, min_y, max_x, max_y, area)
}

/// Distance between the starts of two rows: the stride where one is given, else the width.
pub open spec fn row_step(stride: Option<usize>, width: usize) -> int {
    match stride {
        Some(given) => given as int,
        None => width as int,
    }
}

/// The cell at a raster position.
pub open spec fn cell_at(n: int, width: int) -> Cell {
    (n / width, n % width)
}

/// `c` is the first cell, in raster order, of its connected group of foreground cells.
pub open spec fn is_seed(lit: Set<Cell>, width: int, c: Cell) -> bool {
    &&& lit.contains(c)
    &&& forall|d: Cell| #[trigger]
        reach(lit, c).contains(d) ==> raster(c, width) <= raster(d, width)
}

/// The first cells of all connected groups, as far as they lie before raster position `n`.
pub open spec fn seeds(lit: Set<Cell>, width: int, n: int) -> Seq<Cell>
    decreases n,
{
    if n <= 0 {
        Seq::empty()
    } else if is_seed(lit, width, cell_at(n - 1, width)) {
        seeds(lit, width, n - 1).push(cell_at(n - 1, width))
    } else {
        seeds(lit, width, n - 1)
    }
}

/// The groups that start at `firsts`, described one by one.
pub open spec fn described(lit: Set<Cell>, firsts: Seq<Cell>) -> Seq<BlobView> {
    firsts.map_values(|c: Cell| extent(reach(lit, c)))
}

/// All connected groups of foreground cells, in raster order of their first cells.
pub open spec fn all_blobs(data: Seq<u8>, width: int, height: int, stride: int) -> Seq<BlobView> {
    let lit = lit_cells(data, width, height, stride);
    described(lit, seeds(lit, width, width * height))
}

/// The blobs that a search gives: it stops with the first blob past the limit.
pub open spec fn raw_blobs(data: Seq<u8>, width: int, height: int, stride: int) -> Seq<BlobView> {
    let all = all_blobs(data, width, height, stride);
    if all.len() > MAX_RAW_BLOBS {
        all.take(MAX_RAW_BLOBS + 1)
    } else {
        all
    }
}

/// The cells connected with one of `firsts`.
pub open spec fn groups_of(lit: Set<Cell>, firsts: Seq<Cell>) -> Set<Cell> {
    Set::new(
        |c: Cell| exists|i: int| 0 <= i < firsts.len() && reach(lit, #[trigger] firsts[i]).contains(c),
    )
}

/// The cells of the blobs that a search gives.
pub open spec fn found_cells(data: Seq<u8>, width: int, height: int, stride: int) -> Set<Cell> {
    let lit = lit_cells(data, width, height, stride);
    groups_of(
        lit,
        seeds(lit, width, width * height).take(
            raw_blobs(data, width, height, stride).len() as int,
        ),
    )
}

/// What a search finds and leaves marked: the blobs, and the marks of exactly their cells.
pub open spec fn search_outcome(
    data: Seq<u8>,
    width: int,
    height: int,
    stride: int,
    blobs: Seq<Blob>,
    marks: Seq<u64>,
) -> bool {
    &&& blob_views(blobs) == raw_blobs(data, width, height, stride)
    &&& marked_cells(marks, width, height) == found_cells(data, width, height, stride)
    &&& forall|n: int| width * height <= n < 64 * marks.len() ==> !#[trigger] bit_at(marks, n)
}

/// The raster positions of cells of a frame.
pub open spec fn positions(cells: Set<Cell>, width: int, height: int) -> Set<int> {
    Set::new(|n: int| 0 <= n < width * height && cells.contains(cell_at(n, width)))
}

/// Marks that are clear behind the frame are packed from the positions of the marked cells.
pub proof fn lemma_marks_packed(marks: Seq<u64>, width: int, height: int)
    requires
        0 <= width,
        forall|n: int| width * height <= n < 64 * marks.len() ==> !#[trigger] bit_at(marks, n),
    ensures
        marks == packed(
            positions(marked_cells(marks, width, height), width, height),
            marks.len(),
        ),
{
    let bits = positions(marked_cells(marks, width, height), width, height);
    assert forall|n: int| 0 <= n < 64 * marks.len() implies #[trigger] bit_at(marks, n)
        == bits.contains(n) by {
        if n < width * height {
            assert(0 < width) by (nonlinear_arith)
                requires
                    0 <= n < width * height,
                    0 <= width,
            ;
            lemma_cell_at(n, width, height);
        }
    }
    lemma_packed(marks, bits);
}

pub proof fn lemma_cell_at(n: int, width: int, height: int)
    requires
        0 <= n < width * height,
        width > 0,
    ensures
        frame_cells(width, height).contains(cell_at(n, width)),
        raster(cell_at(n, width), width) == n,
{
    assert(n == width * (n / width) + n % width && 0 <= n % width < width && 0 <= n / width
        < height) by (nonlinear_arith)
        requires
            0 <= n < width * height,
            width > 0,
    ;
    assert((n / width) * width == width * (n / width)) by (nonlinear_arith);
}

proof fn lemma_cell_at_raster(c: Cell, width: int, height: int)
    requires
        frame_cells(width, height).contains(c),
    ensures
        cell_at(raster(c, width), width) == c,
{
    let n = raster(c, width);
    lemma_raster_bounds(c, width, height);
    lemma_cell_at(n, width, height);
    lemma_raster_injective(c, cell_at(n, width), width, height);
}

/// The seeds found early stay the first ones.
proof fn lemma_seeds_prefix(lit: Set<Cell>, width: int, m: int, n: int)
    requires
        0 <= m <= n,
    ensures
        seeds(lit, width, m).len() <= seeds(lit, width, n).len(),
        seeds(lit, width, n).take(seeds(lit, width, m).len() as int) == seeds(lit, width, m),
    decreases n - m,
{
    if m < n {
        lemma_seeds_prefix(lit, width, m, n - 1);
        let early = seeds(lit, width, m);
        assert(seeds(lit, width, n).take(early.len() as int) =~= seeds(lit, width, n - 1).take(
            early.len() as int,
        ));
    } else {
        assert(seeds(lit, width, n).take(seeds(lit, width, m).len() as int) =~= seeds(
            lit,
            width,
            m,
        ));
    }
}

/// `firsts` are seeds before raster position `n`, in raster order.
pub open spec fn ordered_seeds(lit: Set<Cell>, width: int, firsts: Seq<Cell>, n: int) -> bool {
    &&& forall|i: int|
        0 <= i < firsts.len() ==> is_seed(lit, width, #[trigger] firsts[i]) && raster(
            firsts[i],
            width,
        ) < n
    &&& forall|i: int, j: int|
        0 <= i < j < firsts.len() ==> raster(#[trigger] firsts[i], width) < raster(
            #[trigger] firsts[j],
            width,
        )
}

pub proof fn lemma_seeds_sound(lit: Set<Cell>, width: int, height: int, n: int)
    requires
        width > 0,
        0 <= n <= width * height,
    ensures
        ordered_seeds(lit, width, seeds(lit, width, n), n),
    decreases n,
{
    if n > 0 {
        lemma_seeds_sound(lit, width, height, n - 1);
        lemma_cell_at(n - 1, width, height);
    }
}

/// Every seed before position `n` is listed.
pub proof fn lemma_seeds_complete(lit: Set<Cell>, width: int, height: int, n: int, c: Cell)
    requires
        width > 0,
        0 <= n <= width * height,
        frame_cells(width, height).contains(c),
        is_seed(lit, width, c),
        raster(c, width) < n,
    ensures
        seeds(lit, width, n).contains(c),
    decreases n,
{
    lemma_cell_at_raster(c, width, height);
    lemma_raster_bounds(c, width, height);
    if raster(c, width) == n - 1 {
        assert(seeds(lit, width, n).last() == c);
    } else {
        lemma_seeds_complete(lit, width, height, n - 1, c);
        let early = seeds(lit, width, n - 1);
        let i = choose|i: int| 0 <= i < early.len() && early[i] == c;
        assert(seeds(lit, width, n)[i] == c);
    }
}

/// What the search knows before it looks at raster position `n`.
spec fn scanned(
    lit: Set<Cell>,
    width: int,
    height: int,
    n: int,
    blobs: Seq<Blob>,
    visited: Seq<u64>,
) -> bool {
    let firsts = seeds(lit, width, n);
    &&& blob_views(blobs) == described(lit, firsts)
    &&& marked_cells(visited, width, height) == groups_of(lit, firsts)
    &&& forall|c: Cell| #[trigger]
        lit.contains(c) && raster(c, width) < n ==> groups_of(lit, firsts).contains(c)
    &&& forall|k: int| width * height <= k < 64 * visited.len() ==> !#[trigger] bit_at(visited, k)
}

pub proof fn lemma_groups_push(lit: Set<Cell>, firsts: Seq<Cell>, c: Cell)
    ensures
        groups_of(lit, firsts.push(c)) == groups_of(lit, firsts).union(reach(lit, c)),
{
    let more = firsts.push(c);
    assert forall|d: Cell| groups_of(lit, firsts).union(reach(lit, c)).contains(d) implies groups_of(
        lit,
        more,
    ).contains(d) by {
        if reach(lit, c).contains(d) {
            assert(more[firsts.len() as int] == c);
        } else {
            let i = choose|i: int|
                0 <= i < firsts.len() && reach(lit, #[trigger] firsts[i]).contains(d);
            assert(more[i] == firsts[i]);
        }
    }
    assert forall|d: Cell| groups_of(lit, more).contains(d) implies groups_of(lit, firsts).union(
        reach(lit, c),
    ).contains(d) by {
        let i = choose|i: int| 0 <= i < more.len() && reach(lit, #[trigger] more[i]).contains(d);
        if i < firsts.len() {
            assert(more[i] == firsts[i]);
        }
    }
    assert(groups_of(lit, more) =~= groups_of(lit, firsts).union(reach(lit, c)));
}

/// Where no cell of a group is marked, leaving out the marked cells does not change the group.
pub proof fn lemma_free_group(lit: Set<Cell>, marked: Set<Cell>, here: Cell)
    requires
        lit.contains(here),
        reach(lit, here).disjoint(marked),
    ensures
        reach(lit.difference(marked), here) == reach(lit, here),
{
    let free = lit.difference(marked);
    let group = reach(lit, here);
    let inner = reach(free, here);
    lemma_reach_closed(lit, here);
    lemma_reach_closed(free, here);
    lemma_reach_start(lit, here);
    lemma_reach_start(free, here);
    assert(closed_under_steps(free, group));
    lemma_reach_least(free, here, group);
    assert(closed_under_steps(lit, inner)) by {
        assert forall|p: Cell, q: Cell|
            #![trigger inner.contains(p), lit.contains(q)]
            inner.contains(p) && lit.contains(q) && adjacent(p, q) implies inner.contains(q) by {
            assert(group.contains(p));
            lemma_reach_step(lit, here, p, q);
            assert(free.contains(q));
            lemma_reach_step(free, here, p, q);
        }
    }
    lemma_reach_least(lit, here, inner);
    assert(inner =~= group);
}

/// An unmarked foreground cell is a seed, and the cells free to be filled from it are exactly
/// its group; any other cell is no seed.
proof fn lemma_scan_cell(lit: Set<Cell>, width: int, height: int, n: int, marked: Set<Cell>)
    requires
        width > 0,
        0 <= n < width * height,
        lit.subset_of(frame_cells(width, height)),
        marked == groups_of(lit, seeds(lit, width, n)),
        forall|c: Cell| #[trigger]
            lit.contains(c) && raster(c, width) < n ==> marked.contains(c),
    ensures
        is_seed(lit, width, cell_at(n, width)) <==> lit.contains(cell_at(n, width))
            && !marked.contains(cell_at(n, width)),
        is_seed(lit, width, cell_at(n, width)) ==> reach(
            lit.difference(marked),
            cell_at(n, width),
        ) == reach(lit, cell_at(n, width)),
{
    let here = cell_at(n, width);
    let firsts = seeds(lit, width, n);
    lemma_cell_at(n, width, height);
    lemma_seeds_sound(lit, width, height, n);
    if lit.contains(here) && marked.contains(here) {
        let i = choose|i: int| 0 <= i < firsts.len() && reach(lit, #[trigger] firsts[i]).contains(here);
        lemma_reach_symmetric(lit, firsts[i], here);
        assert(reach(lit, here).contains(firsts[i]));
        assert(raster(firsts[i], width) < n);
    }
    if lit.contains(here) && !marked.contains(here) {
        let group = reach(lit, here);
        assert forall|d: Cell| #[trigger] group.contains(d) implies !marked.contains(d) by {
            if marked.contains(d) {
                let i = choose|i: int|
                    0 <= i < firsts.len() && reach(lit, #[trigger] firsts[i]).contains(d);
                lemma_reach_same(lit, here, d);
                lemma_reach_same(lit, firsts[i], d);
                lemma_reach_start(lit, here);
                assert(reach(lit, firsts[i]).contains(here));
            }
        }
        lemma_reach_within(lit, here);
        assert(is_seed(lit, width, here));
        lemma_free_group(lit, marked, here);
    }
}

/// The only foreground cell that can newly lie before position `n + 1` is the one at `n`.
proof fn lemma_scan_on(lit: Set<Cell>, width: int, height: int, n: int)
    requires
        width > 0,
        0 <= n < width * height,
        lit.subset_of(frame_cells(width, height)),
    ensures
        forall|c: Cell| #[trigger]
            lit.contains(c) && raster(c, width) < n + 1 ==> raster(c, width) < n || c == cell_at(
                n,
                width,
            ),
{
    assert forall|c: Cell| #[trigger]
        lit.contains(c) && raster(c, width) < n + 1 implies raster(c, width) < n || c == cell_at(
        n,
        width,
    ) by {
        lemma_cell_at_raster(c, width, height);
    }
}

proof fn lemma_prefix_views(lit: Set<Cell>, firsts: Seq<Cell>, early: Seq<Cell>)
    requires
        early.len() <= firsts.len(),
        firsts.take(early.len() as int) == early,
    ensures
        described(lit, firsts).take(early.len() as int) == described(lit, early),
{
    let all = described(lit, firsts);
    let some = described(lit, early);
    assert forall|i: int| 0 <= i < early.len() implies all.take(early.len() as int)[i]
        == some[i] by {
        assert(early[i] == firsts[i]);
    }
    assert(all.take(early.len() as int) =~= some);
}

/// Finds the connected groups of foreground pixels, row by row, and gives the bounding box and
/// size of each. Stops early once more than `MAX_RAW_BLOBS` are found. `visited` is cleared
/// first; afterwards it marks the pixels of the blobs found.
pub fn find_blobs(
    data: &[u8],
    width: usize,
    height: usize,
    stride: Option<usize>,
    stack: &mut Vec<(usize, usize)>,
    visited: &mut [u64],
) -> (blobs: Vec<Blob>)
    requires
        width <= u32::MAX,
        height <= u32::MAX,
        width * height <= usize::MAX,
        width * height <= 64 * old(visited)@.len(),
        holds_rows(data@.len() as int, width as int, height as int, row_step(stride, width)),
        forall|c: Cell| #[trigger]
            lit_cells(data@, width as int, height as int, row_step(stride, width)).contains(c)
                ==> reach(
                lit_cells(data@, width as int, height as int, row_step(stride, width)),
                c,
            ).len() <= u32::MAX,
    ensures
        search_outcome(
            data@,
            width as int,
            height as int,
            row_step(stride, width),
            blobs@,
            final(visited)@,
        ),
        final(visited)@.len() == old(visited)@.len(),
        final(stack)@ == (if blobs@.len() == 0 {
            old(stack)@
        } else {
            Seq::empty()
        }),
{
    let step: usize = match stride {
        Some(given) => given,
        None => width,
    };
    let mut blobs: Vec<Blob> = Vec::new();
    clear_bits(visited);

    let ghost w = width as int;
    let ghost h = height as int;
    let ghost lit = lit_cells(data@, w, h, step as int);
    let ghost firsts = seeds(lit, w, w * h);
    proof {
        assert(0 <= w * h) by (nonlinear_arith)
            requires
                w >= 0,
                h >= 0,
        ;
        assert forall|c: Cell| frame_cells(w, h).contains(c) implies !bit_at(
            visited@,
            #[trigger] raster(c, w),
        ) by {
            lemma_raster_bounds(c, w, h);
        }
        assert(marked_cells(visited@, w, h) =~= groups_of(lit, seeds(lit, w, 0)));
        assert forall|c: Cell| #[trigger] lit.contains(c) implies raster(c, w) >= 0 by {
            lemma_raster_bounds(c, w, h);
        }
        assert(blob_views(blobs@) =~= described(lit, seeds(lit, w, 0)));
    }

    let mut y: usize = 0;
    while y < height
        invariant
            w == width,
            h == height,
            y <= height,
            width <= u32::MAX,
            height <= u32::MAX,
            width * height <= usize::MAX,
            width * height <= 64 * visited@.len(),
            visited@.len() == old(visited)@.len(),
            step == row_step(stride, width),
            holds_rows(data@.len() as int, w, h, step as int),
            lit == lit_cells(data@, w, h, step as int),
            forall|c: Cell| #[trigger] lit.contains(c) ==> reach(lit, c).len() <= u32::MAX,
            firsts == seeds(lit, w, w * h),
            blobs@.len() <= MAX_RAW_BLOBS,
            scanned(lit, w, h, y * w, blobs@, visited@),
            stack@ == (if blobs@.len() == 0 {
                old(stack)@
            } else {
                Seq::empty()
            }),
        decreases height - y,
    {
        let mut x: usize = 0;
        proof {
            assert(0 <= y * w) by (nonlinear_arith)
                requires
                    w >= 0,
            ;
            assert(y * w + w == (y + 1) * w) by (nonlinear_arith);
        }
        while x < width
            invariant
                w == width,
                h == height,
                y < height,
                x <= width,
                width <= u32::MAX,
                height <= u32::MAX,
                width * height <= usize::MAX,
                width * height <= 64 * visited@.len(),
                visited@.len() == old(visited)@.len(),
                step == row_step(stride, width),
                holds_rows(data@.len() as int, w, h, step as int),
                lit == lit_cells(data@, w, h, step as int),
                forall|c: Cell| #[trigger] lit.contains(c) ==> reach(lit, c).len() <= u32::MAX,
                firsts == seeds(lit, w, w * h),
                blobs@.len() <= MAX_RAW_BLOBS,
                scanned(lit, w, h, y * w + x, blobs@, visited@),
                stack@ == (if blobs@.len() == 0 {
                    old(stack)@
                } else {
                    Seq::empty()
                }),
            decreases width - x,
        {
            let ghost n = y * w + x;
            let ghost here = (y as int, x as int);
            let ghost marked = marked_cells(visited@, w, h);
            proof {
                assert(data.len() == data@.len());
                assert(frame_cells(w, h).contains(here));
                lemma_raster_bounds(here, w, h);
                lemma_cell_at_raster(here, w, h);
                assert(cell_at(n, w) == here);
                assert(0 <= y * width) by (nonlinear_arith);
                assert(0 <= y * step <= (height - 1) * step) by (nonlinear_arith)
                    requires
                        y < height,
                ;
                lemma_scan_cell(lit, w, h, n, marked);
            }
            if !get_bit(visited, y * width + x) && data[y * step + x] == FOREGROUND {
                let ghost held = blobs@;
                proof {
                    assert(is_seed(lit, w, here));
                    assert(lit.contains(here));
                }
                let (min_x, min_y, max_x, max_y, area) = flood_fill(
                    data, width, height, step, y, x, stack, visited,
                );
                let ghost group = reach(lit, here);
                proof {
                    lemma_reach_in_frame(lit, here, w, h);
                }
                blobs.push(
                    Blob {
                        min_x: min_x as u32,
                        min_y: min_y as u32,
                        max_x: (max_x + 1) as u32,
                        max_y: (max_y + 1) as u32,
                        area,
                    },
                );
                proof {
                    assert(describes(blobs@.last()@, group));
                    lemma_extent_unique(blobs@.last()@, group);
                    lemma_groups_push(lit, seeds(lit, w, n), here);
                    lemma_reach_start(lit, here);
                    assert(seeds(lit, w, n + 1) == seeds(lit, w, n).push(here));
                    assert(blob_views(blobs@) =~= blob_views(held).push(blobs@.last()@));
                    assert(described(lit, seeds(lit, w, n).push(here)) =~= described(
                        lit,
                        seeds(lit, w, n),
                    ).push(extent(group)));
                    lemma_scan_on(lit, w, h, n);
                    assert(scanned(lit, w, h, n + 1, blobs@, visited@));
                }
                if blobs.len() > MAX_RAW_BLOBS {
                    proof {
                        lemma_seeds_prefix(lit, w, n + 1, w * h);
                        lemma_prefix_views(lit, firsts, seeds(lit, w, n + 1));
                    }
                    return blobs;
                }
            } else {
                proof {
                    assert(seeds(lit, w, n + 1) == seeds(lit, w, n));
                    lemma_scan_on(lit, w, h, n);
                }
            }
            x += 1;
        }
        y += 1;
    }
    proof {
        assert(h * w == w * h) by (nonlinear_arith);
        assert(blob_views(blobs@).len() == blobs@.len());
        assert(firsts.take(blobs@.len() as int) =~= firsts);
    }
    blobs
}

} // verus!
