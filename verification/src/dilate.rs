//! Growing foreground pixels into square neighbourhoods.
use crate::blobs::{lit_cells, FOREGROUND};
use crate::grid::{frame_cells, lemma_cell_of_position, lemma_position, Cell};
use vstd::prelude::*;

verus! {

/// All the values or-ed together.
pub open spec fn or_all(values: Seq<u8>) -> u8
    decreases values.len(),
{
    if values.len() == 0 {
        0
    } else {
        or_all(values.drop_last()) | values.last()
    }
}

/// Some value is not zero.
pub open spec fn any_set(values: Seq<u8>) -> bool {
    exists|i: int| 0 <= i < values.len() && #[trigger] values[i] != 0
}

/// First position of the window of radius `r` around `at`.
pub open spec fn window_start(at: int, r: int) -> int {
    if at < r {
        0
    } else {
        at - r
    }
}

/// Position past the window of radius `r` around `at`, of `limit` positions in all.
pub open spec fn window_end(at: int, r: int, limit: int) -> int {
    if at + r + 1 < limit {
        at + r + 1
    } else {
        limit
    }
}

/// The pixels of row `y` from column `lo` up to column `hi`.
pub open spec fn row_part(data: Seq<u8>, width: int, y: int, lo: int, hi: int) -> Seq<u8> {
    data.subrange(y * width + lo, y * width + hi)
}

/// The pixels of column `x` from row `lo` up to row `hi`.
pub open spec fn column_part(data: Seq<u8>, width: int, x: int, lo: int, hi: int) -> Seq<u8> {
    Seq::new((hi - lo) as nat, |k: int| data[(lo + k) * width + x])
}

/// Columns are handled in blocks of this many where the whole window fits in the row.
pub const BLOCK: usize = 32;

/// Column past the last block: blocks start at column `r` and run as long as the windows of all
/// their columns fit in the row.
pub open spec fn blocks_end(width: int, r: int) -> int {
    if width - BLOCK - r < r {
        r
    } else {
        r + BLOCK * ((width - BLOCK - 2 * r) / (BLOCK as int) + 1)
    }
}

/// A pixel after the horizontal pass. In a block it is the or of its window; elsewhere it is
/// foreground where the window holds anything but zero, else zero.
pub open spec fn spread_at(data: Seq<u8>, width: int, y: int, x: int, r: int) -> u8 {
    let window = row_part(data, width, y, window_start(x, r), window_end(x, r, width));
    if r <= x < blocks_end(width, r) {
        or_all(window)
    } else if any_set(window) {
        FOREGROUND
    } else {
        0
    }
}

/// The frame after the horizontal pass.
pub open spec fn spread_rows(data: Seq<u8>, width: int, height: int, r: int) -> Seq<u8> {
    Seq::new(
        (width * height) as nat,
        |n: int| spread_at(data, width, n / width, n % width, r),
    )
}

/// The frame after the vertical pass: each pixel is the or of its window.
pub open spec fn spread_columns(data: Seq<u8>, width: int, height: int, r: int) -> Seq<u8> {
    Seq::new(
        (width * height) as nat,
        |n: int|
            or_all(
                column_part(
                    data,
                    width,
                    n % width,
                    window_start(n / width, r),
                    window_end(n / width, r, height),
                ),
            ),
    )
}

/// The frame dilated with radius `r`: left as it is with radius zero, else spread along the rows
/// and then along the columns.
pub open spec fn dilated(data: Seq<u8>, width: int, height: int, r: int) -> Seq<u8> {
    if r == 0 {
        data
    } else {
        spread_columns(spread_rows(data, width, height, r), width, height, r)
    }
}

/// `first` followed by what `rest` holds behind it.
pub open spec fn over(first: Seq<u8>, rest: Seq<u8>) -> Seq<u8> {
    first + rest.skip(first.len() as int)
}

proof fn lemma_blocks_end(width: int, r: int)
    requires
        0 < r,
    ensures
        r <= blocks_end(width, r),
        r < blocks_end(width, r) ==> blocks_end(width, r) <= width - r,
{
}

/// The column past the last block.
fn find_blocks_end(width: usize, r: usize) -> (end: usize)
    requires
        0 < r,
        r + BLOCK <= usize::MAX,
        width + r <= usize::MAX,
    ensures
        end == blocks_end(width as int, r as int),
{
    let last_start: usize = if width >= BLOCK + r {
        width - BLOCK - r
    } else {
        0
    };
    let mut x: usize = r;
    while x <= last_start
        invariant
            0 < r <= x,
            width + r <= usize::MAX,
            last_start == (if width >= BLOCK + r {
                width - BLOCK - r
            } else {
                0
            }),
            (x - r) % (BLOCK as int) == 0,
            x > r ==> x - BLOCK <= last_start,
        decreases width - x,
    {
        x += BLOCK;
    }
    x
}

/// The or of the values from `lo` up to `hi`.
fn or_between(data: &[u8], lo: usize, hi: usize) -> (all: u8)
    requires
        lo <= hi <= data@.len(),
    ensures
        all == or_all(data@.subrange(lo as int, hi as int)),
{
    let mut all: u8 = 0;
    let mut k: usize = lo;
    while k < hi
        invariant
            lo <= k <= hi <= data@.len(),
            all == or_all(data@.subrange(lo as int, k as int)),
        decreases hi - k,
    {
        proof {
            assert(data@.subrange(lo as int, k + 1).drop_last() =~= data@.subrange(
                lo as int,
                k as int,
            ));
        }
        all = all | data[k];
        k += 1;
    }
    all
}

/// Whether a value from `lo` up to `hi` is not zero.
fn any_between(data: &[u8], lo: usize, hi: usize) -> (any: bool)
    requires
        lo <= hi <= data@.len(),
    ensures
        any == any_set(data@.subrange(lo as int, hi as int)),
{
    let ghost part = data@.subrange(lo as int, hi as int);
    let mut k: usize = lo;
    while k < hi
        invariant
            lo <= k <= hi <= data@.len(),
            part == data@.subrange(lo as int, hi as int),
            forall|i: int| 0 <= i < k - lo ==> #[trigger] part[i] == 0,
        decreases hi - k,
    {
        assert(part[k - lo] == data@[k as int]);
        if data[k] != 0 {
            return true;
        }
        k += 1;
    }
    false
}

/// The or of the values of column `x` from row `lo` up to row `hi`.
fn or_column(data: &[u8], width: usize, x: usize, lo: usize, hi: usize) -> (all: u8)
    requires
        x < width,
        lo <= hi,
        hi * width <= data@.len(),
    ensures
        all == or_all(column_part(data@, width as int, x as int, lo as int, hi as int)),
{
    let mut all: u8 = 0;
    let mut k: usize = lo;
    while k < hi
        invariant
            x < width,
            lo <= k <= hi,
            hi * width <= data@.len(),
            all == or_all(column_part(data@, width as int, x as int, lo as int, k as int)),
        decreases hi - k,
    {
        proof {
            assert(data.len() == data@.len());
            lemma_position(width as int, hi as int, k as int, x as int);
            assert(width * hi == hi * width) by (nonlinear_arith);
            assert(column_part(data@, width as int, x as int, lo as int, k + 1).drop_last()
                =~= column_part(data@, width as int, x as int, lo as int, k as int));
        }
        all = all | data[k * width + x];
        k += 1;
    }
    all
}

/// Dilates with a square window of radius `r`: `output` receives the dilated frame and
/// `scratch` the frame spread along the rows. What lies behind the frame stays.
pub fn dilate_binary_box(
    input: &[u8],
    scratch: &mut [u8],
    output: &mut [u8],
    width: usize,
    height: usize,
    r: usize,
)
    requires
        r == 0 ==> old(output)@.len() == input@.len(),
        r > 0 ==> {
            &&& width * height <= input@.len()
            &&& width * height <= old(scratch)@.len()
            &&& width * height <= old(output)@.len()
            &&& r + BLOCK <= usize::MAX
            &&& r + width <= usize::MAX
            &&& r + height <= usize::MAX
        },
    ensures
        r == 0 ==> final(scratch)@ == old(scratch)@,
        r > 0 ==> final(scratch)@ == over(
            spread_rows(input@, width as int, height as int, r as int),
            old(scratch)@,
        ),
        final(output)@ == over(
            dilated(input@, width as int, height as int, r as int),
            old(output)@,
        ),
{
    let ghost w = width as int;
    let ghost h = height as int;
    proof {
        assert(input.len() == input@.len());
    }
    if r == 0 {
        let mut i: usize = 0;
        while i < input.len()
            invariant
                i <= input@.len(),
                output@.len() == old(output)@.len() == input@.len(),
                forall|k: int| 0 <= k < i ==> output@[k] == input@[k],
            decreases input@.len() - i,
        {
            output[i] = input[i];
            i += 1;
        }
        proof {
            assert(output@ =~= over(input@, old(output)@));
        }
        return;
    }
    let end: usize = find_blocks_end(width, r);
    let ghost rows = spread_rows(input@, w, h, r as int);
    proof {
        lemma_blocks_end(w, r as int);
        assert(0 <= w * h) by (nonlinear_arith)
            requires
                0 <= w,
                0 <= h,
        ;
    }

    let mut y: usize = 0;
    while y < height
        invariant
            w == width,
            h == height,
            y <= height,
            0 < r,
            r + width <= usize::MAX,
            end == blocks_end(w, r as int),
            r < end ==> end + r <= width,
            width * height <= input@.len(),
            width * height <= scratch@.len(),
            scratch@.len() == old(scratch)@.len(),
            rows == spread_rows(input@, w, h, r as int),
            forall|n: int| 0 <= n < y * width ==> #[trigger] scratch@[n] == rows[n],
            forall|n: int|
                width * height <= n < scratch@.len() ==> #[trigger] scratch@[n] == old(scratch)@[n],
        decreases height - y,
    {
        let mut x: usize = 0;
        while x < width
            invariant
                w == width,
                h == height,
                y < height,
                x <= width,
                0 < r,
                r + width <= usize::MAX,
                end == blocks_end(w, r as int),
                r < end ==> end + r <= width,
                width * height <= input@.len(),
                width * height <= scratch@.len(),
                scratch@.len() == old(scratch)@.len(),
                rows == spread_rows(input@, w, h, r as int),
                forall|n: int| 0 <= n < y * width + x ==> #[trigger] scratch@[n] == rows[n],
                forall|n: int|
                    width * height <= n < scratch@.len() ==> #[trigger] scratch@[n] == old(
                        scratch,
                    )@[n],
            decreases width - x,
        {
            proof {
                assert(input.len() == input@.len());
                lemma_position(w, h, y as int, x as int);
            }
            let row: usize = y * width;
            let lo: usize = if x < r {
                0
            } else {
                x - r
            };
            let hi: usize = if x + r + 1 < width {
                x + r + 1
            } else {
                width
            };
            scratch[row + x] = if r <= x && x < end {
                or_between(input, row + lo, row + hi)
            } else if any_between(input, row + lo, row + hi) {
                FOREGROUND
            } else {
                0
            };
            x += 1;
        }
        proof {
            assert(y * width + width == (y + 1) * width) by (nonlinear_arith);
        }
        y += 1;
    }
    proof {
        assert(height * width == width * height) by (nonlinear_arith);
        assert(scratch@ =~= over(rows, old(scratch)@));
    }

    let ghost columns = dilated(input@, w, h, r as int);
    let mut y: usize = 0;
    while y < height
        invariant
            w == width,
            h == height,
            y <= height,
            0 < r,
            r + height <= usize::MAX,
            width * height <= scratch@.len(),
            width * height <= output@.len(),
            output@.len() == old(output)@.len(),
            0 <= w * h,
            rows.len() == w * h,
            scratch@ == over(rows, old(scratch)@),
            columns == spread_columns(rows, w, h, r as int),
            forall|n: int| 0 <= n < y * width ==> #[trigger] output@[n] == columns[n],
            forall|n: int|
                width * height <= n < output@.len() ==> #[trigger] output@[n] == old(output)@[n],
        decreases height - y,
    {
        let mut x: usize = 0;
        while x < width
            invariant
                w == width,
                h == height,
                y < height,
                x <= width,
                0 < r,
                r + height <= usize::MAX,
                width * height <= scratch@.len(),
                width * height <= output@.len(),
                output@.len() == old(output)@.len(),
                0 <= w * h,
                rows.len() == w * h,
                scratch@ == over(rows, old(scratch)@),
                columns == spread_columns(rows, w, h, r as int),
                forall|n: int| 0 <= n < y * width + x ==> #[trigger] output@[n] == columns[n],
                forall|n: int|
                    width * height <= n < output@.len() ==> #[trigger] output@[n] == old(
                        output,
                    )@[n],
            decreases width - x,
        {
            let lo: usize = if y < r {
                0
            } else {
                y - r
            };
            let hi: usize = if y + r + 1 < height {
                y + r + 1
            } else {
                height
            };
            proof {
                assert(output.len() == output@.len());
                lemma_position(w, h, y as int, x as int);
                assert(hi * width <= width * height) by (nonlinear_arith)
                    requires
                        hi <= height,
                ;
                let part = column_part(rows, w, x as int, lo as int, hi as int);
                let direct = column_part(scratch@, w, x as int, lo as int, hi as int);
                assert(direct =~= part) by {
                    assert forall|k: int| 0 <= k < hi - lo implies #[trigger] direct[k]
                        == part[k] by {
                        lemma_position(w, h, lo + k, x as int);
                    }
                }
            }
            output[y * width + x] = or_column(scratch, width, x, lo, hi);
            x += 1;
        }
        proof {
            assert(y * width + width == (y + 1) * width) by (nonlinear_arith);
        }
        y += 1;
    }
    proof {
        assert(height * width == width * height) by (nonlinear_arith);
        assert(output@ =~= over(columns, old(output)@));
    }
}

/// Every value is zero or foreground.
pub open spec fn binary(values: Seq<u8>) -> bool {
    forall|i: int| 0 <= i < values.len() ==> #[trigger] values[i] == 0 || values[i] == FOREGROUND
}

/// The cells of a frame that have one of `cells` at most `r` rows and `r` columns away.
pub open spec fn grown(cells: Set<Cell>, width: int, height: int, r: int) -> Set<Cell> {
    Set::new(
        |c: Cell|
            frame_cells(width, height).contains(c) && exists|d: Cell| #[trigger]
                cells.contains(d) && c.0 - r <= d.0 <= c.0 + r && c.1 - r <= d.1 <= c.1 + r,
    )
}

proof fn lemma_or_binary(values: Seq<u8>)
    requires
        binary(values),
    ensures
        or_all(values) == (if any_set(values) {
            FOREGROUND
        } else {
            0
        }),
    decreases values.len(),
{
    if values.len() > 0 {
        let fewer = values.drop_last();
        assert(binary(fewer)) by {
            assert forall|i: int| 0 <= i < fewer.len() implies #[trigger] fewer[i] == 0 || fewer[i]
                == FOREGROUND by {
                assert(fewer[i] == values[i]);
            }
        }
        lemma_or_binary(fewer);
        let rest = or_all(fewer);
        assert(rest | 255u8 == 255u8) by (bit_vector);
        assert(rest | 0u8 == rest) by (bit_vector);
        if any_set(fewer) {
            let i = choose|i: int| 0 <= i < fewer.len() && #[trigger] fewer[i] != 0;
            assert(values[i] != 0);
        }
        if any_set(values) {
            let i = choose|i: int| 0 <= i < values.len() && #[trigger] values[i] != 0;
            if i < fewer.len() {
                assert(fewer[i] != 0);
            }
        }
    }
}

/// After the horizontal pass over binary data, a pixel is foreground where one at most `r`
/// columns away is.
proof fn lemma_spread_row_binary(data: Seq<u8>, width: int, height: int, r: int, y: int, x: int)
    requires
        binary(data),
        0 < r,
        width * height <= data.len(),
        0 <= y < height,
        0 <= x < width,
    ensures
        ({
            let there = exists|k: int|
                window_start(x, r) <= k < window_end(x, r, width) && #[trigger] data[y * width + k]
                    == FOREGROUND;
            spread_rows(data, width, height, r)[y * width + x] == (if there {
                FOREGROUND
            } else {
                0
            })
        }),
{
    lemma_position(width, height, y, x);
    let lo = window_start(x, r);
    let hi = window_end(x, r, width);
    let window = row_part(data, width, y, lo, hi);
    assert(binary(window)) by {
        assert forall|i: int| 0 <= i < window.len() implies #[trigger] window[i] == 0 || window[i]
            == FOREGROUND by {
            assert(window[i] == data[y * width + lo + i]);
        }
    }
    lemma_or_binary(window);
    if any_set(window) {
        let i = choose|i: int| 0 <= i < window.len() && #[trigger] window[i] != 0;
        assert(window[i] == data[y * width + (lo + i)]);
    }
    if exists|k: int| lo <= k < hi && #[trigger] data[y * width + k] == FOREGROUND {
        let k = choose|k: int| lo <= k < hi && #[trigger] data[y * width + k] == FOREGROUND;
        assert(window[k - lo] == data[y * width + k]);
    }
}

proof fn lemma_spread_rows_binary(data: Seq<u8>, width: int, height: int, r: int)
    requires
        binary(data),
        0 < r,
        0 < width,
        0 <= height,
        width * height <= data.len(),
    ensures
        binary(spread_rows(data, width, height, r)),
{
    let rows = spread_rows(data, width, height, r);
    assert forall|n: int| 0 <= n < rows.len() implies #[trigger] rows[n] == 0 || rows[n]
        == FOREGROUND by {
        lemma_cell_of_position(width, height, n);
        lemma_spread_row_binary(data, width, height, r, n / width, n % width);
    }
}

/// Dilating binary data turns exactly the pixels into foreground that have a foreground pixel at
/// most `r` rows and `r` columns away, and every other pixel into zero.
pub proof fn law_dilated_binary(data: Seq<u8>, width: int, height: int, r: int)
    requires
        binary(data),
        0 <= r,
        0 < width,
        0 <= height,
        width * height <= data.len(),
    ensures
        r > 0 ==> dilated(data, width, height, r).len() == width * height,
        binary(dilated(data, width, height, r)),
        lit_cells(dilated(data, width, height, r), width, height, width) == grown(
            lit_cells(data, width, height, width),
            width,
            height,
            r,
        ),
{
    let lit = lit_cells(data, width, height, width);
    let result = dilated(data, width, height, r);
    let after = lit_cells(result, width, height, width);
    let goal = grown(lit, width, height, r);
    if r == 0 {
        assert forall|c: Cell| goal.contains(c) implies lit.contains(c) by {
            let d = choose|d: Cell| #[trigger]
                lit.contains(d) && c.0 - r <= d.0 <= c.0 + r && c.1 - r <= d.1 <= c.1 + r;
            assert(d == c);
        }
        assert(after =~= goal);
    } else {
        assert forall|y: int, x: int| 0 <= y < height && 0 <= x < width implies {
            &&& #[trigger] result[y * width + x] == 0 || result[y * width + x] == FOREGROUND
            &&& result[y * width + x] == FOREGROUND <==> goal.contains((y, x))
        } by {
            lemma_dilated_cell(data, width, height, r, y, x);
        }
        assert forall|n: int| 0 <= n < result.len() implies #[trigger] result[n] == 0 || result[n]
            == FOREGROUND by {
            lemma_cell_of_position(width, height, n);
            assert(result[(n / width) * width + n % width] == result[n]);
        }
        assert forall|c: Cell| after.contains(c) <==> goal.contains(c) by {
            if frame_cells(width, height).contains(c) {
                assert(result[c.0 * width + c.1] == FOREGROUND <==> goal.contains((c.0, c.1)));
            }
        }
        assert(after =~= goal);
    }
}

proof fn lemma_dilated_cell(data: Seq<u8>, width: int, height: int, r: int, y: int, x: int)
    requires
        binary(data),
        0 < r,
        0 <= y < height,
        0 <= x < width,
        width * height <= data.len(),
    ensures
        ({
            let value = dilated(data, width, height, r)[y * width + x];
            &&& value == 0 || value == FOREGROUND
            &&& value == FOREGROUND <==> grown(
                lit_cells(data, width, height, width),
                width,
                height,
                r,
            ).contains((y, x))
        }),
{
    let lit = lit_cells(data, width, height, width);
    let rows = spread_rows(data, width, height, r);
    lemma_spread_rows_binary(data, width, height, r);
    lemma_position(width, height, y, x);
    let lo = window_start(y, r);
    let hi = window_end(y, r, height);
    let part = column_part(rows, width, x, lo, hi);
    assert(binary(part)) by {
        assert forall|i: int| 0 <= i < part.len() implies #[trigger] part[i] == 0 || part[i]
            == FOREGROUND by {
            lemma_position(width, height, lo + i, x);
            assert(part[i] == rows[(lo + i) * width + x]);
        }
    }
    lemma_or_binary(part);
    let here: Cell = (y, x);
    let goal = grown(lit, width, height, r);
    if any_set(part) {
        let i = choose|i: int| 0 <= i < part.len() && #[trigger] part[i] != 0;
        assert(part[i] == rows[(lo + i) * width + x]);
        lemma_position(width, height, lo + i, x);
        lemma_spread_row_binary(data, width, height, r, lo + i, x);
        let k = choose|k: int|
            window_start(x, r) <= k < window_end(x, r, width) && #[trigger] data[(lo + i) * width + k]
                == FOREGROUND;
        let d: Cell = (lo + i, k);
        assert(lit.contains(d));
        assert(goal.contains(here));
    }
    if goal.contains(here) {
        let d = choose|d: Cell| #[trigger]
            lit.contains(d) && here.0 - r <= d.0 <= here.0 + r && here.1 - r <= d.1 <= here.1 + r;
        lemma_spread_row_binary(data, width, height, r, d.0, x);
        assert(data[d.0 * width + d.1] == FOREGROUND);
        assert(rows[d.0 * width + x] == FOREGROUND);
        assert(part[d.0 - lo] == rows[(lo + (d.0 - lo)) * width + x]);
        assert(any_set(part));
    }
}

/// Dilating keeps every foreground cell.
pub proof fn law_grown_keeps(cells: Set<Cell>, width: int, height: int, r: int)
    requires
        0 <= r,
        cells.subset_of(frame_cells(width, height)),
    ensures
        cells.subset_of(grown(cells, width, height, r)),
{
    assert forall|c: Cell| cells.contains(c) implies grown(cells, width, height, r).contains(c) by {
        assert(cells.contains(c) && c.0 - r <= c.0 <= c.0 + r && c.1 - r <= c.1 <= c.1 + r);
    }
}

} // verus!
