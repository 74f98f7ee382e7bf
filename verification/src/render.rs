//! Drawing bounding boxes on a frame.
use crate::grid::{frame_cells, lemma_cell_of_position, lemma_position, Cell};
use crate::state::{corner_list, corners, BoundingBox, Corners};
use vstd::prelude::*;

verus! {

/// A picture of this size with three bytes per pixel can be allocated.
pub open spec fn picture_fits(width: u32, height: u32) -> bool {
    3 * (width * height) <= isize::MAX
}

/// The cells of a frame on the outline of a box.
pub open spec fn outline(bounds: Corners, width: int, height: int) -> Set<Cell> {
    Set::new(
        |c: Cell|
            frame_cells(width, height).contains(c) && {
                ||| bounds.0 <= c.1 < bounds.2 && (c.0 == bounds.1 || c.0 == bounds.3 - 1)
                ||| bounds.1 <= c.0 < bounds.3 && (c.1 == bounds.0 || c.1 == bounds.2 - 1)
            },
    )
}

/// The cells of a frame on the outline of one of the boxes.
pub open spec fn outlines(boxes: Seq<Corners>, width: int, height: int) -> Set<Cell> {
    Set::new(
        |c: Cell|
            exists|i: int|
                0 <= i < boxes.len() && outline(#[trigger] boxes[i], width, height).contains(c),
    )
}

/// A picture of three bytes per pixel: the cells of `marked` in red, the others in the gray that
/// `data` holds for them, and black where it holds none.
pub open spec fn shaded(data: Seq<u8>, marked: Set<Cell>, width: int, height: int) -> Seq<u8> {
    Seq::new(
        (3 * (width * height)) as nat,
        |n: int|
            {
                let at = n / 3;
                if marked.contains((at / width, at % width)) {
                    if n % 3 == 0 {
                        255u8
                    } else {
                        0u8
                    }
                } else if at < data.len() {
                    data[at]
                } else {
                    0u8
                }
            },
    )
}

/// A frame with the outlines of boxes drawn on it in red.
pub open spec fn rendered(data: Seq<u8>, boxes: Seq<Corners>, width: int, height: int) -> Seq<u8> {
    shaded(data, outlines(boxes, width, height), width, height)
}

/// The box can be drawn: where a side lies in the frame, it lies in the frame as a whole.
pub open spec fn drawable(bounds: Corners, width: int, height: int) -> bool {
    &&& bounds.0 < bounds.2 ==> bounds.3 > 0 && (bounds.1 < height || bounds.3 - 1 < height
        ==> bounds.2 <= width)
    &&& bounds.1 < bounds.3 ==> bounds.2 > 0 && (bounds.0 < width || bounds.2 - 1 < width
        ==> bounds.3 <= height)
}

/// Paints one pixel red.
fn paint(
    pixels: &mut Vec<u8>,
    width: u32,
    height: u32,
    y: u32,
    x: u32,
    Ghost(data): Ghost<Seq<u8>>,
    Ghost(marked): Ghost<Set<Cell>>,
)
    requires
        y < height,
        x < width,
        picture_fits(width, height),
        old(pixels)@ == shaded(data, marked, width as int, height as int),
    ensures
        final(pixels)@ == shaded(
            data,
            marked.insert((y as int, x as int)),
            width as int,
            height as int,
        ),
{
    let ghost w = width as int;
    let ghost h = height as int;
    let ghost here: Cell = (y as int, x as int);
    proof {
        lemma_position(w, h, y as int, x as int);
    }
    let at: usize = y as usize * width as usize + x as usize;
    pixels[3 * at] = 255;
    pixels[3 * at + 1] = 0;
    pixels[3 * at + 2] = 0;
    proof {
        let goal = shaded(data, marked.insert(here), w, h);
        assert forall|n: int| 0 <= n < goal.len() implies pixels@[n] == goal[n] by {
            lemma_cell_of_position(w, h, n / 3);
            if n / 3 != at {
                assert((n / 3 / w, n / 3 % w) != here);
            }
        }
        assert(pixels@ =~= goal);
    }
}

/// The cells on the horizontal sides of a box, left of column `to`.
spec fn level_sides(bounds: Corners, width: int, height: int, to: int) -> Set<Cell> {
    Set::new(
        |c: Cell|
            frame_cells(width, height).contains(c) && bounds.0 <= c.1 < to && (c.0 == bounds.1
                || c.0 == bounds.3 - 1),
    )
}

/// The cells on the vertical sides of a box, above row `to`.
spec fn upright_sides(bounds: Corners, width: int, height: int, to: int) -> Set<Cell> {
    Set::new(
        |c: Cell|
            frame_cells(width, height).contains(c) && bounds.1 <= c.0 < to && (c.1 == bounds.0
                || c.1 == bounds.2 - 1),
    )
}

/// Draws the outline of one box.
fn draw_box(
    pixels: &mut Vec<u8>,
    width: u32,
    height: u32,
    bounds: &BoundingBox,
    Ghost(data): Ghost<Seq<u8>>,
    Ghost(marked): Ghost<Set<Cell>>,
)
    requires
        picture_fits(width, height),
        drawable(corners(*bounds), width as int, height as int),
        old(pixels)@ == shaded(data, marked, width as int, height as int),
    ensures
        final(pixels)@ == shaded(
            data,
            marked.union(outline(corners(*bounds), width as int, height as int)),
            width as int,
            height as int,
        ),
{
    let ghost w = width as int;
    let ghost h = height as int;
    let ghost b = corners(*bounds);
    let x1: u32 = bounds[0];
    let y1: u32 = bounds[1];
    let x2: u32 = bounds[2];
    let y2: u32 = bounds[3];
    let ghost mut red = marked;
    let mut x: u32 = x1;
    proof {
        assert(red =~= marked.union(level_sides(b, w, h, x as int)));
    }
    while x < x2
        invariant
            w == width,
            h == height,
            b == (x1 as int, y1 as int, x2 as int, y2 as int),
            x1 <= x,
            picture_fits(width, height),
            drawable(b, w, h),
            x1 < x2 ==> x <= x2,
            x1 >= x2 ==> x == x1,
            red == marked.union(level_sides(b, w, h, x as int)),
            pixels@ == shaded(data, red, w, h),
        decreases x2 - x,
    {
        if y1 < height {
            paint(pixels, width, height, y1, x, Ghost(data), Ghost(red));
            proof {
                red = red.insert((y1 as int, x as int));
            }
        }
        if y2 - 1 < height {
            paint(pixels, width, height, y2 - 1, x, Ghost(data), Ghost(red));
            proof {
                red = red.insert((y2 - 1, x as int));
            }
        }
        x += 1;
        proof {
            assert(red =~= marked.union(level_sides(b, w, h, x as int)));
        }
    }
    let ghost level = red;
    let mut y: u32 = y1;
    proof {
        assert(red =~= level.union(upright_sides(b, w, h, y as int)));
    }
    while y < y2
        invariant
            w == width,
            h == height,
            b == (x1 as int, y1 as int, x2 as int, y2 as int),
            y1 <= y,
            picture_fits(width, height),
            drawable(b, w, h),
            y1 < y2 ==> y <= y2,
            y1 >= y2 ==> y == y1,
            red == level.union(upright_sides(b, w, h, y as int)),
            pixels@ == shaded(data, red, w, h),
        decreases y2 - y,
    {
        if x1 < width {
            paint(pixels, width, height, y, x1, Ghost(data), Ghost(red));
            proof {
                red = red.insert((y as int, x1 as int));
            }
        }
        if x2 - 1 < width {
            paint(pixels, width, height, y, x2 - 1, Ghost(data), Ghost(red));
            proof {
                red = red.insert((y as int, x2 - 1));
            }
        }
        y += 1;
        proof {
            assert(red =~= level.union(upright_sides(b, w, h, y as int)));
        }
    }
    proof {
        assert(red =~= marked.union(outline(b, w, h)));
    }
}

/// A picture of a frame, three bytes per pixel, with the outlines of the boxes drawn in red.
pub fn draw_boxes(data: &[u8], boxes: &Vec<BoundingBox>, width: u32, height: u32) -> (pixels: Vec<
    u8,
>)
    requires
        picture_fits(width, height),
        data@.len() <= width * height,
        forall|i: int|
            0 <= i < boxes@.len() ==> drawable(
                corners(#[trigger] boxes@[i]),
                width as int,
                height as int,
            ),
    ensures
        pixels@ == rendered(data@, corner_list(boxes@), width as int, height as int),
{
    let ghost w = width as int;
    let ghost h = height as int;
    let ghost none = Set::<Cell>::empty();
    proof {
        assert(0 <= w * h) by (nonlinear_arith)
            requires
                0 <= w,
                0 <= h,
        ;
    }
    let count: usize = width as usize * height as usize;
    let mut pixels: Vec<u8> = vec![0u8; 3 * count];
    let mut i: usize = 0;
    while i < data.len()
        invariant
            w == width,
            h == height,
            count == w * h,
            picture_fits(width, height),
            i <= data@.len() <= count,
            none == Set::<Cell>::empty(),
            pixels@ == shaded(data@.take(i as int), none, w, h),
        decreases data@.len() - i,
    {
        let value: u8 = data[i];
        pixels[3 * i] = value;
        pixels[3 * i + 1] = value;
        pixels[3 * i + 2] = value;
        i += 1;
        proof {
            let goal = shaded(data@.take(i as int), none, w, h);
            assert forall|n: int| 0 <= n < goal.len() implies pixels@[n] == goal[n] by {}
            assert(pixels@ =~= goal);
        }
    }
    let ghost views = corner_list(boxes@);
    proof {
        assert(data@.take(i as int) =~= data@);
        assert(none =~= outlines(views.take(0), w, h));
    }
    let mut k: usize = 0;
    while k < boxes.len()
        invariant
            w == width,
            h == height,
            picture_fits(width, height),
            k <= boxes@.len(),
            views == corner_list(boxes@),
            forall|i: int|
                0 <= i < boxes@.len() ==> drawable(corners(#[trigger] boxes@[i]), w, h),
            pixels@ == shaded(data@, outlines(views.take(k as int), w, h), w, h),
        decreases boxes@.len() - k,
    {
        let ghost marked = outlines(views.take(k as int), w, h);
        draw_box(&mut pixels, width, height, &boxes[k], Ghost(data@), Ghost(marked));
        proof {
            lemma_outlines_last(views.take(k + 1), w, h);
            assert(views.take(k + 1).drop_last() =~= views.take(k as int));
            assert(views.take(k + 1).last() == corners(boxes@[k as int]));
        }
        k += 1;
    }
    proof {
        assert(views.take(k as int) =~= views);
    }
    pixels
}

proof fn lemma_outlines_last(boxes: Seq<Corners>, width: int, height: int)
    requires
        boxes.len() > 0,
    ensures
        outlines(boxes, width, height) == outlines(boxes.drop_last(), width, height).union(
            outline(boxes.last(), width, height),
        ),
{
    let fewer = boxes.drop_last();
    let all = outlines(boxes, width, height);
    let both = outlines(fewer, width, height).union(outline(boxes.last(), width, height));
    assert forall|c: Cell| all.contains(c) implies both.contains(c) by {
        let i = choose|i: int|
            0 <= i < boxes.len() && outline(#[trigger] boxes[i], width, height).contains(c);
        if i < fewer.len() {
            assert(fewer[i] == boxes[i]);
        }
    }
    assert forall|c: Cell| both.contains(c) implies all.contains(c) by {
        if outlines(fewer, width, height).contains(c) {
            let i = choose|i: int|
                0 <= i < fewer.len() && outline(#[trigger] fewer[i], width, height).contains(c);
            assert(boxes[i] == fewer[i]);
        } else {
            assert(boxes[boxes.len() - 1] == boxes.last());
        }
    }
    assert(all =~= both);
}

/// The box of a whole frame and the boxes that lie in it can be drawn.
pub proof fn lemma_drawable(bounds: Corners, width: int, height: int)
    requires
        0 <= bounds.0 < bounds.2 <= width,
        0 <= bounds.1 < bounds.3 <= height,
    ensures
        drawable(bounds, width, height),
{
}

/// In which order boxes are drawn, and how often, does not show.
pub proof fn law_drawn_any_order(
    data: Seq<u8>,
    boxes: Seq<Corners>,
    others: Seq<Corners>,
    width: int,
    height: int,
)
    requires
        forall|b: Corners| #[trigger] boxes.contains(b) <==> others.contains(b),
    ensures
        rendered(data, boxes, width, height) == rendered(data, others, width, height),
{
    let ours = outlines(boxes, width, height);
    let theirs = outlines(others, width, height);
    assert forall|c: Cell| ours.contains(c) implies theirs.contains(c) by {
        let i = choose|i: int|
            0 <= i < boxes.len() && outline(#[trigger] boxes[i], width, height).contains(c);
        assert(boxes.contains(boxes[i]));
        let j = choose|j: int| 0 <= j < others.len() && others[j] == boxes[i];
        assert(outline(others[j], width, height).contains(c));
    }
    assert forall|c: Cell| theirs.contains(c) implies ours.contains(c) by {
        let i = choose|i: int|
            0 <= i < others.len() && outline(#[trigger] others[i], width, height).contains(c);
        assert(others.contains(others[i]));
        assert(boxes.contains(others[i]));
        let j = choose|j: int| 0 <= j < boxes.len() && boxes[j] == others[i];
        assert(outline(boxes[j], width, height).contains(c));
    }
    assert(ours =~= theirs);
}

} // verus!
