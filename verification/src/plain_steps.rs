//! What each step does, said in numbers of rows, columns and pixel values alone.
use crate::bitset::{bit_at, lemma_packed_holds, packed};
use crate::blobs::BlobView;
use crate::blur::blur_refusal;
use crate::cluster::{hull, touching};
use crate::coverage::{coverage, over_limit};
use crate::difference::difference_mask;
use crate::dilate::{
    any_set, blocks_end, column_part, dilated, or_all, over, row_part, spread_at, spread_rows,
    window_end, window_start,
};
use crate::grid::{lemma_position, lemma_rect_len, rect};
use crate::render::{outline, outlines, rendered};
use crate::state::{
    cluster_corners, corner_list, mark_words, no_marks, resized, BoundingBox, Corners,
    ProcessorView,
};
use libblur::BlurError;
use vstd::prelude::*;

verus! {

/// A pixel is marked as changed exactly if one of the two values is at least the other and
/// `threshold` more; otherwise it is zero.
pub proof fn law_difference_values(current: Seq<u8>, previous: Seq<u8>, threshold: u8, i: int)
    requires
        0 <= i < current.len(),
    ensures
        difference_mask(current, previous, threshold).len() == current.len(),
        current[i] >= previous[i] + threshold || previous[i] >= current[i] + threshold
            ==> difference_mask(current, previous, threshold)[i] == 255,
        current[i] < previous[i] + threshold && previous[i] < current[i] + threshold
            ==> difference_mask(current, previous, threshold)[i] == 0,
{
}

/// Comparing the frames of a detector marks the pixels by which they differ, and changes nothing
/// else.
pub proof fn law_compared_values(state: ProcessorView, threshold: u8, i: int)
    requires
        state.frame_a.len() == state.frame_b.len(),
        state.difference.len() == state.frame_a.len(),
        0 <= i < state.frame_a.len(),
    ensures
        ({
            let next = state.compared(threshold);
            let a = state.frame_a[i] as int;
            let b = state.frame_b[i] as int;
            &&& next.difference.len() == state.difference.len()
            &&& a >= b + threshold || b >= a + threshold ==> next.difference[i] == 255
            &&& a < b + threshold && b < a + threshold ==> next.difference[i] == 0
            &&& next == (ProcessorView { difference: next.difference, ..state })
        }),
{
}

/// Values that lie on each other: the first ones are those of `first`, the others stay.
pub proof fn law_over_values(first: Seq<u8>, rest: Seq<u8>, i: int)
    requires
        first.len() <= rest.len(),
        0 <= i < rest.len(),
    ensures
        over(first, rest).len() == rest.len(),
        i < first.len() ==> over(first, rest)[i] == first[i],
        i >= first.len() ==> over(first, rest)[i] == rest[i],
{
}

proof fn lemma_or_bit(values: Seq<u8>, bit: u8)
    requires
        bit < 8,
    ensures
        (or_all(values) >> bit) % 2 == 1 <==> exists|i: int|
            0 <= i < values.len() && (#[trigger] values[i] >> bit) % 2 == 1,
        or_all(values) == 0 <==> forall|i: int| 0 <= i < values.len() ==> #[trigger] values[i] == 0,
    decreases values.len(),
{
    if values.len() == 0 {
        assert((0u8 >> bit) % 2 == 0) by (bit_vector);
    } else {
        let fewer = values.drop_last();
        let last = values[values.len() - 1];
        lemma_or_bit(fewer, bit);
        let x = or_all(fewer);
        assert(((x | last) >> bit) % 2 == 1 <==> (x >> bit) % 2 == 1 || (last >> bit) % 2 == 1)
            by (bit_vector)
            requires
                bit < 8,
        ;
        assert(x | last == 0 <==> x == 0 && last == 0) by (bit_vector);
        if exists|i: int| 0 <= i < fewer.len() && (#[trigger] fewer[i] >> bit) % 2 == 1 {
            let i = choose|i: int| 0 <= i < fewer.len() && (#[trigger] fewer[i] >> bit) % 2 == 1;
            assert((values[i] >> bit) % 2 == 1);
        }
        if exists|i: int| 0 <= i < values.len() && (#[trigger] values[i] >> bit) % 2 == 1 {
            let i = choose|i: int| 0 <= i < values.len() && (#[trigger] values[i] >> bit) % 2 == 1;
            if i < fewer.len() {
                assert((fewer[i] >> bit) % 2 == 1);
            }
        }
        if forall|i: int| 0 <= i < values.len() ==> #[trigger] values[i] == 0 {
            assert forall|i: int| 0 <= i < fewer.len() implies #[trigger] fewer[i] == 0 by {
                assert(values[i] == 0);
            }
        }
        if x == 0 && last == 0 {
            assert forall|i: int| 0 <= i < values.len() implies #[trigger] values[i] == 0 by {
                if i < fewer.len() {
                    assert(fewer[i] == 0);
                }
            }
        }
    }
}

/// How far two numbers are apart.
pub open spec fn gap(a: int, b: int) -> int {
    if a <= b {
        b - a
    } else {
        a - b
    }
}

/// The value of the pixel in row `y` and column `x`.
pub open spec fn pixel(data: Seq<u8>, width: int, y: int, x: int) -> u8 {
    data[y * width + x]
}

/// Within the square of radius `r` around row `y` and column `x`, cut at the frame, some pixel
/// is not zero.
pub open spec fn square_has_any(
    data: Seq<u8>,
    width: int,
    height: int,
    r: int,
    y: int,
    x: int,
) -> bool {
    exists|v: int, u: int|
        0 <= v < height && 0 <= u < width && gap(v, y) <= r && gap(u, x) <= r && #[trigger] pixel(
            data,
            width,
            v,
            u,
        ) != 0
}

/// Within the square some pixel has the bit.
pub open spec fn square_has_bit(
    data: Seq<u8>,
    width: int,
    height: int,
    r: int,
    y: int,
    x: int,
    bit: u8,
) -> bool {
    exists|v: int, u: int|
        0 <= v < height && 0 <= u < width && gap(v, y) <= r && gap(u, x) <= r && (#[trigger] pixel(
            data,
            width,
            v,
            u,
        ) >> bit) % 2 == 1
}

/// What the pass along the rows makes of any bytes. A pixel is zero exactly if all pixels of its
/// row at most `r` columns away are. In the blocks of thirty-two columns from column `r` on that
/// keep `r` columns between them and the right side, it has exactly the bits that these pixels
/// have; elsewhere it is zero or 255.
pub proof fn law_rows_values(
    data: Seq<u8>,
    width: int,
    height: int,
    r: int,
    v: int,
    x: int,
    bit: u8,
)
    requires
        0 < r,
        0 <= v < height,
        0 <= x < width,
        width * height <= data.len(),
        bit < 8,
    ensures
        ({
            let value = pixel(spread_rows(data, width, height, r), width, v, x);
            let any = exists|u: int|
                0 <= u < width && gap(u, x) <= r && #[trigger] pixel(data, width, v, u) != 0;
            let has = exists|u: int|
                0 <= u < width && gap(u, x) <= r && (#[trigger] pixel(data, width, v, u) >> bit) % 2
                    == 1;
            let in_block = r <= x && r + 32 * ((x - r) / 32) + 32 + r <= width;
            &&& spread_rows(data, width, height, r).len() == width * height
            &&& value == 0 <==> !any
            &&& in_block ==> ((value >> bit) % 2 == 1 <==> has)
            &&& !in_block ==> value == 0 || value == 255
        }),
{
    assert((r <= x && r + 32 * ((x - r) / 32) + 32 + r <= width) == (r <= x < blocks_end(width, r)));
    lemma_position(width, height, v, x);
    let lo = window_start(x, r);
    let hi = window_end(x, r, width);
    let window = row_part(data, width, v, lo, hi);
    lemma_or_bit(window, bit);
    assert forall|i: int| 0 <= i < window.len() implies #[trigger] window[i] == pixel(
        data,
        width,
        v,
        lo + i,
    ) by {}
    let any = exists|u: int|
        0 <= u < width && gap(u, x) <= r && #[trigger] pixel(data, width, v, u) != 0;
    let has = exists|u: int|
        0 <= u < width && gap(u, x) <= r && (#[trigger] pixel(data, width, v, u) >> bit) % 2 == 1;
    if any {
        let u = choose|u: int|
            0 <= u < width && gap(u, x) <= r && #[trigger] pixel(data, width, v, u) != 0;
        assert(window[u - lo] != 0);
    }
    if has {
        let u = choose|u: int|
            0 <= u < width && gap(u, x) <= r && (#[trigger] pixel(data, width, v, u) >> bit) % 2
                == 1;
        assert((window[u - lo] >> bit) % 2 == 1);
    }
    if any_set(window) {
        let i = choose|i: int| 0 <= i < window.len() && #[trigger] window[i] != 0;
        assert(pixel(data, width, v, lo + i) != 0);
        assert(any);
    }
    if exists|i: int| 0 <= i < window.len() && (#[trigger] window[i] >> bit) % 2 == 1 {
        let i = choose|i: int| 0 <= i < window.len() && (#[trigger] window[i] >> bit) % 2 == 1;
        assert((pixel(data, width, v, lo + i) >> bit) % 2 == 1);
    }
    assert(spread_rows(data, width, height, r)[v * width + x] == spread_at(data, width, v, x, r));
}

/// What dilation makes of any bytes. With radius zero nothing changes. Otherwise a pixel is zero
/// exactly if all pixels of the square around it are. Columns are taken in blocks of thirty-two
/// from column `r` on, as long as the squares of a whole block lie between the sides of the
/// frame: in these a pixel has exactly the bits that pixels of the square have; elsewhere it is
/// zero or 255.
pub proof fn law_dilated_values(
    data: Seq<u8>,
    width: int,
    height: int,
    r: int,
    y: int,
    x: int,
    bit: u8,
)
    requires
        0 <= r,
        0 <= y < height,
        0 <= x < width,
        width * height <= data.len(),
        bit < 8,
    ensures
        r == 0 ==> dilated(data, width, height, r) == data,
        r > 0 ==> ({
            let result = dilated(data, width, height, r);
            let value = pixel(result, width, y, x);
            let in_block = r <= x && r + 32 * ((x - r) / 32) + 32 + r <= width;
            &&& result.len() == width * height
            &&& value == 0 <==> !square_has_any(data, width, height, r, y, x)
            &&& in_block ==> ((value >> bit) % 2 == 1 <==> square_has_bit(
                data,
                width,
                height,
                r,
                y,
                x,
                bit,
            ))
            &&& !in_block ==> value == 0 || value == 255
        }),
{
    if r > 0 {
        let rows = spread_rows(data, width, height, r);
        let result = dilated(data, width, height, r);
        let in_block = r <= x && r + 32 * ((x - r) / 32) + 32 + r <= width;
        assert(in_block == (r <= x < blocks_end(width, r)));
        lemma_position(width, height, y, x);
        let lo = window_start(y, r);
        let hi = window_end(y, r, height);
        let part = column_part(rows, width, x, lo, hi);
        assert forall|i: int| 0 <= i < part.len() implies #[trigger] part[i] == pixel(
            rows,
            width,
            lo + i,
            x,
        ) by {}
        lemma_or_bit(part, bit);
        let value = result[y * width + x];
        assert(value == or_all(part));
        if square_has_any(data, width, height, r, y, x) {
            let (v, u) = choose|v: int, u: int|
                0 <= v < height && 0 <= u < width && gap(v, y) <= r && gap(u, x) <= r
                    && #[trigger] pixel(data, width, v, u) != 0;
            law_rows_values(data, width, height, r, v, x, bit);
            assert(pixel(rows, width, v, x) != 0);
            assert(part[v - lo] != 0);
        }
        if square_has_bit(data, width, height, r, y, x, bit) && in_block {
            let (v, u) = choose|v: int, u: int|
                0 <= v < height && 0 <= u < width && gap(v, y) <= r && gap(u, x) <= r && (
                #[trigger] pixel(data, width, v, u) >> bit) % 2 == 1;
            law_rows_values(data, width, height, r, v, x, bit);
            assert((part[v - lo] >> bit) % 2 == 1);
        }
        if value != 0 {
            let i = choose|i: int| 0 <= i < part.len() && #[trigger] part[i] != 0;
            law_rows_values(data, width, height, r, lo + i, x, bit);
            let u = choose|u: int|
                0 <= u < width && gap(u, x) <= r && #[trigger] pixel(data, width, lo + i, u) != 0;
            assert(pixel(data, width, lo + i, u) != 0);
        }
        if (value >> bit) % 2 == 1 && in_block {
            let i = choose|i: int| 0 <= i < part.len() && (#[trigger] part[i] >> bit) % 2 == 1;
            law_rows_values(data, width, height, r, lo + i, x, bit);
            let u = choose|u: int|
                0 <= u < width && gap(u, x) <= r && (#[trigger] pixel(data, width, lo + i, u)
                    >> bit) % 2 == 1;
            assert((pixel(data, width, lo + i, u) >> bit) % 2 == 1);
        }
        if !in_block {
            assert forall|i: int| 0 <= i < part.len() implies #[trigger] part[i] == 0 || part[i]
                == 255 by {
                law_rows_values(data, width, height, r, lo + i, x, bit);
            }
            lemma_or_extreme(part);
        }
    }
}

proof fn lemma_or_extreme(values: Seq<u8>)
    requires
        forall|i: int| 0 <= i < values.len() ==> #[trigger] values[i] == 0 || values[i] == 255,
    ensures
        or_all(values) == 0 || or_all(values) == 255,
    decreases values.len(),
{
    if values.len() > 0 {
        let fewer = values.drop_last();
        assert forall|i: int| 0 <= i < fewer.len() implies #[trigger] fewer[i] == 0 || fewer[i]
            == 255 by {
            assert(fewer[i] == values[i]);
        }
        lemma_or_extreme(fewer);
        assert(values[values.len() - 1] == 0 || values[values.len() - 1] == 255);
        assert(0u8 | 0u8 == 0 && 0u8 | 255u8 == 255 && 255u8 | 0u8 == 255 && 255u8 | 255u8 == 255)
            by (bit_vector);
    }
}

/// Dilating the difference of a detector: a pixel of the frame becomes foreground exactly if one
/// is at most `dilate_size` rows and columns away, and zero otherwise. What lies behind the frame
/// stays, and nothing but the working buffer changes besides.
pub proof fn law_spread_values(state: ProcessorView, dilate_size: u8, y: int, x: int)
    requires
        0 <= y < state.height,
        0 <= x < state.width,
        state.width * state.height <= state.difference.len(),
        state.dilated.len() == state.difference.len(),
        forall|i: int|
            0 <= i < state.difference.len() ==> #[trigger] state.difference[i] == 0
                || state.difference[i] == 255,
    ensures
        ({
            let w = state.width as int;
            let h = state.height as int;
            let next = state.spread(dilate_size);
            let near = exists|v: int, u: int|
                0 <= v < h && 0 <= u < w && gap(v, y) <= dilate_size && gap(u, x) <= dilate_size
                    && #[trigger] pixel(state.difference, w, v, u) == 255;
            &&& next.dilated.len() == state.dilated.len()
            &&& near ==> pixel(next.dilated, w, y, x) == 255
            &&& !near ==> pixel(next.dilated, w, y, x) == 0
            &&& dilate_size > 0 ==> forall|i: int|
                w * h <= i < state.dilated.len() ==> #[trigger] next.dilated[i] == state.dilated[i]
            &&& dilate_size == 0 ==> next.dilated == state.difference
            &&& dilate_size == 0 ==> next.scratch == state.scratch
            &&& dilate_size > 0 ==> next.scratch == over(
                spread_rows(state.difference, w, h, dilate_size as int),
                state.scratch,
            )
            &&& next == (ProcessorView { dilated: next.dilated, scratch: next.scratch, ..state })
        }),
{
    let w = state.width as int;
    let h = state.height as int;
    let r = dilate_size as int;
    let data = state.difference;
    lemma_position(w, h, y, x);
    let next = state.spread(dilate_size);
    let near = exists|v: int, u: int|
        0 <= v < h && 0 <= u < w && gap(v, y) <= dilate_size && gap(u, x) <= dilate_size
            && #[trigger] pixel(data, w, v, u) == 255;
    if r == 0 {
        if near {
            let (v, u) = choose|v: int, u: int|
                0 <= v < h && 0 <= u < w && gap(v, y) <= dilate_size && gap(u, x) <= dilate_size
                    && #[trigger] pixel(data, w, v, u) == 255;
            assert(v == y && u == x);
        }
        if pixel(data, w, y, x) == 255 {
            assert(gap(y, y) <= dilate_size && gap(x, x) <= dilate_size);
            assert(near);
        }
        assert(next.dilated =~= data);
        assert(data[y * w + x] == 0 || data[y * w + x] == 255);
    } else {
        law_dilated_values(data, w, h, r, y, x, 0);
        let value = pixel(dilated(data, w, h, r), w, y, x);
        assert(pixel(next.dilated, w, y, x) == value);
        if square_has_any(data, w, h, r, y, x) {
            let (v, u) = choose|v: int, u: int|
                0 <= v < h && 0 <= u < w && gap(v, y) <= r && gap(u, x) <= r && #[trigger] pixel(
                    data,
                    w,
                    v,
                    u,
                ) != 0;
            lemma_position(w, h, v, u);
            assert(data[v * w + u] == 0 || data[v * w + u] == 255);
            assert(near);
        }
        if near {
            assert(square_has_any(data, w, h, r, y, x));
        }
        lemma_extreme_dilated(data, w, h, r, y, x);
    }
}

proof fn lemma_extreme_dilated(data: Seq<u8>, width: int, height: int, r: int, y: int, x: int)
    requires
        0 < r,
        0 <= y < height,
        0 <= x < width,
        width * height <= data.len(),
        forall|i: int| 0 <= i < data.len() ==> #[trigger] data[i] == 0 || data[i] == 255,
    ensures
        ({
            let value = pixel(dilated(data, width, height, r), width, y, x);
            value == 0 || value == 255
        }),
{
    let rows = spread_rows(data, width, height, r);
    lemma_position(width, height, y, x);
    let lo = window_start(y, r);
    let hi = window_end(y, r, height);
    let part = column_part(rows, width, x, lo, hi);
    assert forall|i: int| 0 <= i < part.len() implies #[trigger] part[i] == 0 || part[i] == 255 by {
        let v = lo + i;
        lemma_position(width, height, v, x);
        let window = row_part(data, width, v, window_start(x, r), window_end(x, r, width));
        assert forall|k: int| 0 <= k < window.len() implies #[trigger] window[k] == 0 || window[k]
            == 255 by {
            assert(window[k] == data[v * width + window_start(x, r) + k]);
        }
        lemma_or_extreme(window);
    }
    lemma_or_extreme(part);
    assert(dilated(data, width, height, r)[y * width + x] == or_all(part));
}

/// Blobs are merged up to a sixth of the frame's shorter side.
pub proof fn law_pad(state: ProcessorView)
    ensures
        6 * state.pad() <= state.width,
        6 * state.pad() <= state.height,
        6 * state.pad() + 6 > state.width || 6 * state.pad() + 6 > state.height,
{
}

/// Boxes touch exactly if neither side by side nor one above the other they are more than `pad`
/// pixels apart.
pub proof fn law_touching_gaps(a: BlobView, b: BlobView, pad: int)
    ensures
        touching(a, b, pad) <==> !(b.min_x - a.max_x > pad || a.min_x - b.max_x > pad || b.min_y
            - a.max_y > pad || a.min_y - b.max_y > pad),
{
}

/// Two boxes merged: every bound is the outer one of the two, and the areas are added.
pub proof fn law_hull_bounds(a: BlobView, b: BlobView)
    ensures
        ({
            let h = hull(a, b);
            &&& h.min_x <= a.min_x && h.min_x <= b.min_x && (h.min_x == a.min_x || h.min_x
                == b.min_x)
            &&& h.min_y <= a.min_y && h.min_y <= b.min_y && (h.min_y == a.min_y || h.min_y
                == b.min_y)
            &&& h.max_x >= a.max_x && h.max_x >= b.max_x && (h.max_x == a.max_x || h.max_x
                == b.max_x)
            &&& h.max_y >= a.max_y && h.max_y >= b.max_y && (h.max_y == a.max_y || h.max_y
                == b.max_y)
            &&& h.area - a.area == b.area
        }),
{
}

/// What a box adds to the coverage is the number of its pixels.
pub proof fn law_coverage_pixels(blobs: Seq<BlobView>, b: BlobView)
    requires
        b.min_x <= b.max_x,
        b.min_y <= b.max_y,
    ensures
        coverage(Seq::<BlobView>::empty()) == 0,
        coverage(blobs.push(b)) - coverage(blobs) == Set::new(
            |c: (int, int)| b.min_y <= c.0 && c.0 < b.max_y && b.min_x <= c.1 && c.1 < b.max_x,
        ).len(),
{
    let cells = Set::new(
        |c: (int, int)| b.min_y <= c.0 && c.0 < b.max_y && b.min_x <= c.1 && c.1 < b.max_x,
    );
    lemma_rect_len(b.min_x, b.min_y, b.max_x, b.max_y);
    assert(cells =~= rect(b.min_x, b.min_y, b.max_x, b.max_y));
    assert(blobs.push(b).drop_last() =~= blobs);
}

/// Too much is covered exactly if less than a fifth of the frame's pixels are left.
pub proof fn law_over_limit(covered: int, width: int, height: int)
    requires
        0 <= width,
        0 <= height,
    ensures
        over_limit(covered, width, height) <==> {
            let pixels = Set::new(
                |c: (int, int)| 0 <= c.0 && c.0 < height && 0 <= c.1 && c.1 < width,
            ).len();
            5 * (pixels - covered) < pixels
        },
{
    let cells = Set::new(|c: (int, int)| 0 <= c.0 && c.0 < height && 0 <= c.1 && c.1 < width);
    lemma_rect_len(0, 0, width, height);
    assert(cells =~= rect(0, 0, width, height));
    assert(width * height == (width - 0) * (height - 0)) by (nonlinear_arith);
}

/// A bit of packed words is that digit of the word's binary number.
pub proof fn law_bits(words: Seq<u64>, word: int, digit: u64)
    requires
        0 <= word < words.len(),
        digit < 64,
    ensures
        bit_at(words, 64 * word + digit) <==> (words[word] >> digit) % 2 == 1,
{
    reveal(bit_at);
    let x = words[word];
    assert((64 * word + digit) / 64 == word && (64 * word + digit) % 64 == digit);
    assert((x & (1u64 << digit)) != 0 <==> (x >> digit) % 2 == 1) by (bit_vector)
        requires
            digit < 64,
    ;
}

/// Packed words have exactly the digits asked for.
pub proof fn law_packed(bits: Set<int>, len: nat, word: int, digit: u64)
    requires
        0 <= word < len,
        digit < 64,
    ensures
        packed(bits, len).len() == len,
        (packed(bits, len)[word] >> digit) % 2 == 1 <==> bits.contains(64 * word + digit),
{
    lemma_packed_holds(bits, len);
    law_bits(packed(bits, len), word, digit);
    assert(bit_at(packed(bits, len), 64 * word + digit) == bits.contains(64 * word + digit));
}

/// Cut to a length, bytes stay; filled up, they are zero.
pub proof fn law_resized(bytes: Seq<u8>, len: int, i: int)
    requires
        0 <= i < len,
    ensures
        resized(bytes, len).len() == len,
        i < bytes.len() ==> resized(bytes, len)[i] == bytes[i],
        i >= bytes.len() ==> resized(bytes, len)[i] == 0,
{
}

/// One bit for each pixel, in words of sixty-four, and no word more than is needed.
pub proof fn law_no_marks(count: int, i: int)
    requires
        0 <= count,
    ensures
        64 * no_marks(count).len() >= count,
        64 * no_marks(count).len() < count + 64,
        0 <= i < no_marks(count).len() ==> no_marks(count)[i] == 0,
        mark_words(count) == no_marks(count).len(),
{
}

/// Every byte and word of a new detector is zero, it has seen nothing, and each buffer is as long
/// as a frame.
pub proof fn law_fresh(width: u32, height: u32, i: int)
    ensures
        ({
            let n = width * height;
            let s = ProcessorView::fresh(width, height);
            &&& s.width == width && s.height == height && !s.has_previous && !s.phase
            &&& s.frame_a.len() == n && s.frame_b.len() == n && s.difference.len() == n
            &&& s.dilated.len() == n && s.scratch.len() == n && s.stack.len() == 0
            &&& n <= 64 * s.marks.len() < n + 64
            &&& 0 <= i < n ==> s.frame_a[i] == 0 && s.frame_b[i] == 0 && s.difference[i] == 0
                && s.dilated[i] == 0 && s.scratch[i] == 0
            &&& 0 <= i < s.marks.len() ==> s.marks[i] == 0
        }),
{
    assert(0 <= width * height) by (nonlinear_arith);
}

/// A new size forgets the frames seen and makes every buffer as long as a frame: what is cut is
/// gone, what is added is zero. The same size changes nothing.
pub proof fn law_reconfigured_values(state: ProcessorView, width: u32, height: u32, i: int)
    requires
        0 <= i < width * height,
    ensures
        state.width == width && state.height == height ==> state.reconfigured(width, height)
            == state,
        state.width != width || state.height != height ==> ({
            let n = width * height;
            let s = state.reconfigured(width, height);
            &&& s.width == width && s.height == height && !s.has_previous && !s.phase
            &&& s.frame_a.len() == n && s.frame_b.len() == n && s.difference.len() == n
            &&& s.dilated.len() == n && s.scratch.len() == n && s.stack.len() == 0
            &&& n <= 64 * s.marks.len() < n + 64
            &&& s.frame_a[i] == (if i < state.frame_a.len() { state.frame_a[i] } else { 0 })
            &&& s.frame_b[i] == (if i < state.frame_b.len() { state.frame_b[i] } else { 0 })
            &&& s.difference[i] == (if i < state.difference.len() {
                state.difference[i]
            } else {
                0
            })
            &&& s.dilated[i] == (if i < state.dilated.len() { state.dilated[i] } else { 0 })
            &&& s.scratch[i] == (if i < state.scratch.len() { state.scratch[i] } else { 0 })
        }),
{
}

/// A reset forgets the frames seen and nothing else.
pub proof fn law_reset_values(state: ProcessorView)
    ensures
        state.reset() == (ProcessorView { has_previous: false, phase: false, ..state }),
{
}

/// A bounding box holds left, top, right and bottom, in this order, and so do the corners of
/// clusters.
pub proof fn law_corner_order(boxes: Seq<BoundingBox>, clusters: Seq<BlobView>, i: int)
    ensures
        corner_list(boxes).len() == boxes.len(),
        cluster_corners(clusters).len() == clusters.len(),
        0 <= i < boxes.len() ==> {
            &&& corner_list(boxes)[i].0 == boxes[i]@[0]
            &&& corner_list(boxes)[i].1 == boxes[i]@[1]
            &&& corner_list(boxes)[i].2 == boxes[i]@[2]
            &&& corner_list(boxes)[i].3 == boxes[i]@[3]
        },
        0 <= i < clusters.len() ==> {
            &&& cluster_corners(clusters)[i].0 == clusters[i].min_x
            &&& cluster_corners(clusters)[i].1 == clusters[i].min_y
            &&& cluster_corners(clusters)[i].2 == clusters[i].max_x
            &&& cluster_corners(clusters)[i].3 == clusters[i].max_y
        },
{
}

/// The pixel in row `y` and column `x` of a picture with three bytes per pixel.
pub open spec fn color(picture: Seq<u8>, width: int, y: int, x: int) -> (u8, u8, u8) {
    (
        picture[3 * (y * width + x)],
        picture[3 * (y * width + x) + 1],
        picture[3 * (y * width + x) + 2],
    )
}

proof fn lemma_color(data: Seq<u8>, boxes: Seq<Corners>, width: int, height: int, y: int, x: int)
    requires
        0 <= y < height,
        0 <= x < width,
    ensures
        rendered(data, boxes, width, height).len() == 3 * (width * height),
        color(rendered(data, boxes, width, height), width, y, x) == (if outlines(
            boxes,
            width,
            height,
        ).contains((y, x)) {
            (255u8, 0u8, 0u8)
        } else if y * width + x < data.len() {
            (data[y * width + x], data[y * width + x], data[y * width + x])
        } else {
            (0u8, 0u8, 0u8)
        }),
{
    lemma_position(width, height, y, x);
    let at = y * width + x;
    assert(0 <= 3 * at && 3 * at + 2 < 3 * (width * height));
    assert((3 * at) / 3 == at && (3 * at + 1) / 3 == at && (3 * at + 2) / 3 == at);
    assert((3 * at) % 3 == 0 && (3 * at + 1) % 3 == 1 && (3 * at + 2) % 3 == 2);
}

/// Every box that is drawn has all four sides in red: in each of its rows its first and last
/// column, and in each of its columns its first and last row, as far as they lie in the frame.
pub proof fn law_sides_are_red(
    data: Seq<u8>,
    boxes: Seq<Corners>,
    width: int,
    height: int,
    i: int,
    y: int,
    x: int,
)
    requires
        0 <= i < boxes.len(),
    ensures
        ({
            let picture = rendered(data, boxes, width, height);
            let (left, top, right, bottom) = boxes[i];
            &&& top <= y < bottom && 0 <= y < height ==> {
                &&& 0 <= left < width ==> color(picture, width, y, left) == (255u8, 0u8, 0u8)
                &&& 0 <= right - 1 < width ==> color(picture, width, y, right - 1) == (
                    255u8,
                    0u8,
                    0u8,
                )
            }
            &&& left <= x < right && 0 <= x < width ==> {
                &&& 0 <= top < height ==> color(picture, width, top, x) == (255u8, 0u8, 0u8)
                &&& 0 <= bottom - 1 < height ==> color(picture, width, bottom - 1, x) == (
                    255u8,
                    0u8,
                    0u8,
                )
            }
        }),
{
    let (left, top, right, bottom) = boxes[i];
    if top <= y < bottom && 0 <= y < height {
        if 0 <= left < width {
            lemma_color(data, boxes, width, height, y, left);
            assert(outline(boxes[i], width, height).contains((y, left)));
        }
        if 0 <= right - 1 < width {
            lemma_color(data, boxes, width, height, y, right - 1);
            assert(outline(boxes[i], width, height).contains((y, right - 1)));
        }
    }
    if left <= x < right && 0 <= x < width {
        if 0 <= top < height {
            lemma_color(data, boxes, width, height, top, x);
            assert(outline(boxes[i], width, height).contains((top, x)));
        }
        if 0 <= bottom - 1 < height {
            lemma_color(data, boxes, width, height, bottom - 1, x);
            assert(outline(boxes[i], width, height).contains((bottom - 1, x)));
        }
    }
}

/// A pixel that lies on no side of any box keeps its gray value, and is black where there is
/// none. A picture has three bytes for each pixel of the frame.
pub proof fn law_rest_is_gray(
    data: Seq<u8>,
    boxes: Seq<Corners>,
    width: int,
    height: int,
    y: int,
    x: int,
)
    requires
        0 <= y < height,
        0 <= x < width,
        forall|i: int|
            #![trigger boxes[i]]
            0 <= i < boxes.len() ==> {
                &&& y < boxes[i].1 || y >= boxes[i].3 || (x != boxes[i].0 && x != boxes[i].2 - 1)
                &&& x < boxes[i].0 || x >= boxes[i].2 || (y != boxes[i].1 && y != boxes[i].3 - 1)
            },
    ensures
        rendered(data, boxes, width, height).len() == 3 * (width * height),
        y * width + x < data.len() ==> ({
            let gray = data[y * width + x];
            color(rendered(data, boxes, width, height), width, y, x) == (gray, gray, gray)
        }),
        y * width + x >= data.len() ==> color(rendered(data, boxes, width, height), width, y, x)
            == (0u8, 0u8, 0u8),
{
    lemma_color(data, boxes, width, height, y, x);
    if outlines(boxes, width, height).contains((y, x)) {
        let i = choose|i: int|
            0 <= i < boxes.len() && outline(#[trigger] boxes[i], width, height).contains((y, x));
        assert(boxes[i].0 <= x < boxes[i].2 || boxes[i].1 <= y < boxes[i].3);
    }
}

/// When a blur is refused, and when not.
pub proof fn law_refusals(
    input_len: nat,
    output_len: nat,
    width: u32,
    height: u32,
    kernel_size: u8,
)
    requires
        input_len <= usize::MAX,
        output_len <= usize::MAX,
    ensures
        ({
            let refusal = blur_refusal(input_len, output_len, width, height, kernel_size);
            let n = width * height;
            let sized = width > 0 && height > 0 && n <= isize::MAX;
            &&& refusal is None <==> sized && input_len >= n && output_len >= n && kernel_size % 2
                == 1
            &&& refusal == Some(BlurError::ZeroBaseSize) <==> width == 0 || height == 0
            &&& refusal == Some(BlurError::ExceedingPointerSize) <==> width > 0 && height > 0 && n
                > isize::MAX
            &&& sized && input_len < n ==> (refusal matches Some(
                BlurError::MinimumSliceSizeMismatch(size),
            ) && size.expected == n && size.received == input_len)
            &&& sized && input_len >= n && output_len < n ==> (refusal matches Some(
                BlurError::MinimumSliceSizeMismatch(size),
            ) && size.expected == n && size.received == output_len)
            &&& sized && input_len >= n && output_len >= n && kernel_size == 0 ==> refusal == Some(
                BlurError::InvalidArguments,
            )
            &&& sized && input_len >= n && output_len >= n && kernel_size > 0 && kernel_size % 2
                == 0 ==> refusal == Some(BlurError::OddKernel(kernel_size as usize))
        }),
{
}

} // verus!
