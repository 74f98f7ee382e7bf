//! What the calls of a detector lead to, said of the frames and the boxes alone.
use crate::blobs::{all_blobs, lit_cells};
use crate::blur::{blur_done, blur_outcome, blurred_plane, DetectorError};
use crate::cluster::merged;
use crate::debug::{begun, continued, DebugImage, DebugStage, DebugStep};
use crate::dilate::over;
use crate::grid::{frame_cells, lemma_position};
use crate::plain_blobs::{foreground, groups, lemma_foreground, lemma_groups_are_parts, parts_of};
use crate::plain_report::{
    buffers_fit, held_against, law_first_report, law_report, least_cover, lemma_least_cover,
    lemma_lists_large, lists_large, reports, sixth_of_shorter,
};
use crate::plain_steps::{
    color, gap, law_compared_values, law_refusals, law_rest_is_gray, law_sides_are_red,
    law_spread_values, pixel,
};
use crate::processor::{image_processed, processed};
use crate::render::rendered;
use crate::state::{cluster_corners, corner_list, BoundingBox, ProcessorView};
use libblur::BlurError;
use vstd::prelude::*;

verus! {

/// The numbers of bounding boxes: left, top, right and bottom.
pub open spec fn numbers(boxes: Seq<BoundingBox>) -> Seq<(int, int, int, int)> {
    Seq::new(
        boxes.len(),
        |i: int|
            (boxes[i]@[0] as int, boxes[i]@[1] as int, boxes[i]@[2] as int, boxes[i]@[3] as int),
    )
}

proof fn lemma_numbers(boxes: Seq<BoundingBox>)
    ensures
        numbers(boxes) == corner_list(boxes),
{
    assert(numbers(boxes) =~= corner_list(boxes));
}

/// Processing a blurred frame: the first one is only kept; any other leads to what `reports`
/// says. The frame becomes the reference unless it is said that it shall not.
pub proof fn law_processed(
    before: ProcessorView,
    blurred: Seq<u8>,
    threshold: u8,
    dilate_size: u8,
    min_area: u32,
    update_reference: Option<bool>,
    boxes: Seq<BoundingBox>,
    after: ProcessorView,
    pad: int,
)
    requires
        buffers_fit(before),
        before.width * before.height <= blurred.len() <= before.frame_a.len(),
        sixth_of_shorter(pad, before.width as int, before.height as int),
        processed(
            before,
            blurred,
            threshold,
            dilate_size,
            min_area,
            update_reference,
            boxes,
            after,
        ),
    ensures
        !before.has_previous ==> {
            &&& boxes.len() == 0
            &&& after.has_previous
            &&& held_against(after) == blurred.take(before.width * before.height)
            &&& after.width == before.width && after.height == before.height
            &&& buffers_fit(after)
        },
        before.has_previous ==> reports(
            before,
            blurred,
            threshold as int,
            dilate_size as int,
            min_area as int,
            update_reference != Some(false),
            pad,
            numbers(boxes),
            after,
        ),
{
    lemma_numbers(boxes);
    assert(corner_list(boxes).len() == boxes.len());
    let update = update_reference.unwrap_or(true);
    if before.has_previous {
        law_report(before, blurred, threshold, dilate_size, min_area, update, pad);
    } else {
        law_first_report(before, blurred, threshold, dilate_size, min_area, update);
    }
}

/// The error says what is wrong first: a side without pixels, a frame beyond what an address
/// holds, a short image, a short buffer, no kernel, an even kernel.
pub open spec fn names_reason(
    image_len: int,
    buffer_len: int,
    width: int,
    height: int,
    kernel_size: int,
    error: DetectorError,
) -> bool {
    let n = width * height;
    if width == 0 || height == 0 {
        error == DetectorError::Blur(BlurError::ZeroBaseSize)
    } else if n > isize::MAX {
        error == DetectorError::Blur(BlurError::ExceedingPointerSize)
    } else if image_len < n {
        &&& error matches DetectorError::Blur(BlurError::MinimumSliceSizeMismatch(size))
        &&& size.expected == n && size.received == image_len
    } else if buffer_len < n {
        &&& error matches DetectorError::Blur(BlurError::MinimumSliceSizeMismatch(size))
        &&& size.expected == n && size.received == buffer_len
    } else if kernel_size == 0 {
        error == DetectorError::Blur(BlurError::InvalidArguments)
    } else {
        &&& error matches DetectorError::Blur(BlurError::OddKernel(size))
        &&& size == kernel_size && kernel_size % 2 == 0
    }
}

/// Blurring an image of its own: refused exactly if it has no pixels or too many for an address,
/// if it or the output is too short, or if the kernel is not odd; then the output stays.
/// Otherwise the blur of the image with that kernel is written, and nothing behind the frame.
pub proof fn law_blur_done(
    input: Seq<u8>,
    before: Seq<u8>,
    width: u32,
    height: u32,
    kernel_size: u8,
    outcome: Result<(), DetectorError>,
    after: Seq<u8>,
)
    requires
        input.len() <= usize::MAX,
        before.len() <= usize::MAX,
        blur_done(input, before, width, height, kernel_size, outcome, after),
    ensures
        ({
            let n = width * height;
            let sized = width > 0 && height > 0 && n <= isize::MAX;
            &&& outcome is Ok <==> sized && input.len() >= n && before.len() >= n && kernel_size % 2
                == 1
            &&& outcome matches Err(error) ==> after == before && names_reason(
                input.len() as int,
                before.len() as int,
                width as int,
                height as int,
                kernel_size as int,
                error,
            )
            &&& outcome is Ok ==> {
                &&& blurred_plane(input, width, height, kernel_size, before, after)
                &&& after.len() == before.len()
                &&& after.skip(n) == before.skip(n)
            }
        }),
{
    law_refusals(input.len(), before.len(), width, height, kernel_size);
}

/// The buffer that the next frame is written to: the one that does not hold the reference.
pub open spec fn written_to(state: ProcessorView) -> Seq<u8> {
    if state.phase {
        state.frame_a
    } else {
        state.frame_b
    }
}

/// Processing an image. It is refused exactly if the frame has no pixels or too many for an
/// address, if image or buffer is too short, or if the kernel is not odd; then nothing changes.
/// Otherwise a blur of the image with that kernel is processed.
pub proof fn law_image_processed(
    before: ProcessorView,
    image: Seq<u8>,
    threshold: u8,
    kernel_size: u8,
    dilate_size: u8,
    min_area: u32,
    update_reference: Option<bool>,
    outcome: Result<Vec<BoundingBox>, DetectorError>,
    after: ProcessorView,
    pad: int,
)
    requires
        before.frame_a.len() <= 0xffff_ffff,
        before.frame_b.len() == before.frame_a.len(),
        image.len() <= usize::MAX,
        image_processed(
            before,
            image,
            threshold,
            kernel_size,
            dilate_size,
            min_area,
            update_reference,
            outcome,
            after,
        ),
    ensures
        ({
            let n = before.width * before.height;
            let sized = before.width > 0 && before.height > 0 && n <= isize::MAX;
            let buffer = written_to(before);
            &&& outcome is Ok <==> sized && image.len() >= n && buffer.len() >= n && kernel_size % 2
                == 1
            &&& outcome matches Err(error) ==> after == before && names_reason(
                image.len() as int,
                buffer.len() as int,
                before.width as int,
                before.height as int,
                kernel_size as int,
                error,
            )
            &&& outcome matches Ok(boxes) ==> exists|blurred: Seq<u8>|
                {
                    &&& #[trigger] blurred_plane(
                        image,
                        before.width,
                        before.height,
                        kernel_size,
                        buffer,
                        blurred,
                    )
                    &&& blurred.len() == buffer.len()
                    &&& blurred.skip(n) == buffer.skip(n)
                    &&& processed(
                        before,
                        blurred,
                        threshold,
                        dilate_size,
                        min_area,
                        update_reference,
                        boxes@,
                        after,
                    )
                }
        }),
{
    law_refusals(
        image.len(),
        before.current().len(),
        before.width,
        before.height,
        kernel_size,
    );
    if outcome is Ok {
        let boxes = outcome->Ok_0;
        let blurred = choose|blurred: Seq<u8>| #[trigger]
            blur_outcome(
                image,
                before.width,
                before.height,
                kernel_size,
                before.current(),
                blurred,
            ) && (after, corner_list(boxes@)) == before.with_current(blurred).judged(
                threshold,
                dilate_size,
                min_area,
                update_reference.unwrap_or(true),
            );
        assert(over(blurred, before.current()) =~= blurred);
        assert(written_to(before) == before.current());
        assert(processed(
            before,
            blurred,
            threshold,
            dilate_size,
            min_area,
            update_reference,
            boxes@,
            after,
        ));
        assert(blurred_plane(
            image,
            before.width,
            before.height,
            kernel_size,
            written_to(before),
            blurred,
        ));
    }
}

/// Beginning to process an image step by step: refused as `law_image_processed` says; otherwise
/// the picture to save is what the blur left, in gray, and it stands in the buffer for the current
/// frame.
pub proof fn law_begun(
    before: ProcessorView,
    image: Seq<u8>,
    kernel_size: u8,
    prefix: Seq<char>,
    outcome: Result<DebugImage, DetectorError>,
    after: ProcessorView,
)
    requires
        before.frame_a.len() <= 0xffff_ffff,
        before.frame_b.len() == before.frame_a.len(),
        image.len() <= usize::MAX,
        begun(before, image, kernel_size, prefix, outcome, after),
    ensures
        ({
            let n = before.width * before.height;
            let sized = before.width > 0 && before.height > 0 && n <= isize::MAX;
            let buffer = written_to(before);
            &&& outcome is Ok <==> sized && image.len() >= n && buffer.len() >= n && kernel_size % 2
                == 1
            &&& outcome matches Err(error) ==> after == before && names_reason(
                image.len() as int,
                buffer.len() as int,
                before.width as int,
                before.height as int,
                kernel_size as int,
                error,
            )
            &&& outcome matches Ok(picture) ==> {
                &&& picture.stage is Blurred
                &&& picture.name@ == prefix + "_1_blurred.png"@
                &&& blurred_plane(
                    image,
                    before.width,
                    before.height,
                    kernel_size,
                    buffer,
                    picture.pixels@,
                )
                &&& picture.pixels@.len() == buffer.len()
                &&& picture.pixels@.skip(n) == buffer.skip(n)
                &&& before.phase ==> after == (ProcessorView {
                    frame_a: picture.pixels@,
                    ..before
                })
                &&& !before.phase ==> after == (ProcessorView {
                    frame_b: picture.pixels@,
                    ..before
                })
            }
        }),
{
    law_refusals(
        image.len(),
        before.current().len(),
        before.width,
        before.height,
        kernel_size,
    );
}

/// The pixel lies on one of the four sides of the box.
pub open spec fn on_side(b: (int, int, int, int), y: int, x: int) -> bool {
    ||| b.1 <= y < b.3 && (x == b.0 || x + 1 == b.2)
    ||| b.0 <= x < b.2 && (y == b.1 || y + 1 == b.3)
}

/// A picture of the frame with the sides of the boxes in red and everything else in its gray.
pub open spec fn drawn(
    picture: Seq<u8>,
    data: Seq<u8>,
    boxes: Seq<(int, int, int, int)>,
    width: int,
    height: int,
) -> bool {
    &&& picture.len() == 3 * (width * height)
    &&& forall|y: int, x: int|
        #![trigger color(picture, width, y, x)]
        0 <= y < height && 0 <= x < width ==> {
            let red = exists|i: int| 0 <= i < boxes.len() && #[trigger] on_side(boxes[i], y, x);
            let gray = pixel(data, width, y, x);
            &&& red ==> color(picture, width, y, x) == (255u8, 0u8, 0u8)
            &&& !red ==> color(picture, width, y, x) == (gray, gray, gray)
        }
}

/// Going on after a picture was saved, stage by stage.
pub proof fn law_continued(
    before: ProcessorView,
    stage: DebugStage,
    threshold: u8,
    dilate_size: u8,
    min_area: u32,
    prefix: Seq<char>,
    step: DebugStep,
    after: ProcessorView,
    pad: int,
)
    requires
        buffers_fit(before),
        sixth_of_shorter(pad, before.width as int, before.height as int),
        continued(before, stage, threshold, dilate_size, min_area, prefix, step, after),
    ensures
        ({
            let w = before.width as int;
            let h = before.height as int;
            let n = before.frame_a.len() as int;
            &&& stage is Blurred && !before.has_previous ==> {
                &&& step matches DebugStep::Done(boxes)
                &&& boxes@.len() == 0
                &&& after == (ProcessorView {
                    has_previous: true,
                    phase: !before.phase,
                    ..before
                })
            }
            &&& stage is Blurred && before.has_previous ==> {
                &&& step matches DebugStep::Save(picture)
                &&& picture.stage is Difference
                &&& picture.name@ == prefix + "_2_difference.png"@
                &&& picture.pixels@.len() == n
                &&& forall|i: int|
                    #![trigger picture.pixels@[i]]
                    0 <= i < n ==> {
                        let a = before.frame_a[i] as int;
                        let b = before.frame_b[i] as int;
                        picture.pixels@[i] == (if a >= b + threshold || b >= a + threshold {
                            255u8
                        } else {
                            0u8
                        })
                    }
                &&& after == (ProcessorView { difference: picture.pixels@, ..before })
            }
            &&& stage is Difference && (forall|i: int|
                0 <= i < n ==> #[trigger] before.difference[i] == 0 || before.difference[i] == 255)
                ==> {
                &&& step matches DebugStep::Save(picture)
                &&& picture.stage is Dilated
                &&& picture.name@ == prefix + "_3_dilated.png"@
                &&& picture.pixels@.len() == n
                &&& forall|y: int, x: int|
                    #![trigger pixel(picture.pixels@, w, y, x)]
                    0 <= y < h && 0 <= x < w ==> {
                        let near = exists|v: int, u: int|
                            0 <= v < h && 0 <= u < w && gap(v, y) <= dilate_size && gap(u, x)
                                <= dilate_size && #[trigger] pixel(before.difference, w, v, u)
                                == 255;
                        pixel(picture.pixels@, w, y, x) == (if near {
                            255u8
                        } else {
                            0u8
                        })
                    }
                &&& after == (ProcessorView {
                    dilated: picture.pixels@,
                    scratch: after.scratch,
                    ..before
                })
            }
            &&& stage is Dilated && n == w * h ==> {
                &&& step matches DebugStep::Save(picture)
                &&& picture.name@ == prefix + "_4_bounding_boxes.png"@
                &&& picture.stage matches DebugStage::Boxes(boxes)
                &&& drawn(picture.pixels@, before.dilated, numbers(boxes@), w, h)
                &&& ({
                    let cells = foreground(before.dilated, w, h, w);
                    exists|parts: Seq<Set<(int, int)>>, all: Seq<(int, int, int, int)>|
                        {
                            &&& #[trigger] parts_of(cells, parts)
                            &&& #[trigger] least_cover(all, cells, pad)
                            &&& parts.len() > 1000 ==> numbers(boxes@) == seq![
                                (0int, 0int, w, h),
                            ]
                            &&& parts.len() <= 1000 ==> lists_large(
                                numbers(boxes@),
                                all,
                                cells,
                                min_area as int,
                            )
                        }
                })
                &&& after == (ProcessorView { stack: after.stack, marks: after.marks, ..before })
            }
            &&& stage matches DebugStage::Boxes(boxes) ==> {
                &&& step == DebugStep::Done(boxes)
                &&& after == (ProcessorView { phase: !before.phase, ..before })
            }
        }),
{
    let w = before.width as int;
    let h = before.height as int;
    let n = before.frame_a.len() as int;
    if stage is Blurred && before.has_previous {
        let picture = step->Save_0;
        assert forall|i: int| #![trigger picture.pixels@[i]] 0 <= i < n implies {
            let a = before.frame_a[i] as int;
            let b = before.frame_b[i] as int;
            picture.pixels@[i] == (if a >= b + threshold || b >= a + threshold {
                255u8
            } else {
                0u8
            })
        } by {
            law_compared_values(before, threshold, i);
        }
    }
    if stage is Difference && (forall|i: int|
        0 <= i < n ==> #[trigger] before.difference[i] == 0 || before.difference[i] == 255) {
        let picture = step->Save_0;
        assert forall|y: int, x: int|
            #![trigger pixel(picture.pixels@, w, y, x)]
            0 <= y < h && 0 <= x < w implies {
            let near = exists|v: int, u: int|
                0 <= v < h && 0 <= u < w && gap(v, y) <= dilate_size && gap(u, x) <= dilate_size
                    && #[trigger] pixel(before.difference, w, v, u) == 255;
            pixel(picture.pixels@, w, y, x) == (if near {
                255u8
            } else {
                0u8
            })
        } by {
            law_spread_values(before, dilate_size, y, x);
        }
        law_spread_values(before, dilate_size, 0, 0);
    }
    if stage is Dilated && n == w * h {
        let picture = step->Save_0;
        let boxes = picture.stage->Boxes_0;
        let data = before.dilated;
        lemma_numbers(boxes@);
        lemma_drawn(data, numbers(boxes@), w, h);
        lemma_foreground(data, w, h, w);
        let cells = lit_cells(data, w, h, w);
        let blobs = all_blobs(data, w, h, w);
        let parts = groups(cells, w, h);
        let all = cluster_corners(merged(blobs, pad));
        assert(pad == before.pad() && 0 <= pad);
        assert(cells.subset_of(frame_cells(w, h)));
        lemma_groups_are_parts(cells, w, h);
        lemma_least_cover(data, w, h, pad);
        lemma_lists_large(data, w, h, pad, min_area as int);
        assert(blobs.len() == parts.len());
        assert(before.crowded() == (parts.len() > 1000)) by {
            assert(blobs.take(1001).len() == 1001 || blobs.len() < 1001);
        }
        assert(parts_of(cells, parts) && least_cover(all, cells, pad));
    }
}

proof fn lemma_drawn(data: Seq<u8>, boxes: Seq<(int, int, int, int)>, width: int, height: int)
    requires
        0 < width,
        0 < height,
        data.len() == width * height,
    ensures
        drawn(rendered(data, boxes, width, height), data, boxes, width, height),
{
    let picture = rendered(data, boxes, width, height);
    assert forall|y: int, x: int|
        #![trigger color(picture, width, y, x)]
        0 <= y < height && 0 <= x < width implies {
        let red = exists|i: int| 0 <= i < boxes.len() && #[trigger] on_side(boxes[i], y, x);
        let gray = pixel(data, width, y, x);
        &&& red ==> color(picture, width, y, x) == (255u8, 0u8, 0u8)
        &&& !red ==> color(picture, width, y, x) == (gray, gray, gray)
    } by {
        lemma_position(width, height, y, x);
        if exists|i: int| 0 <= i < boxes.len() && #[trigger] on_side(boxes[i], y, x) {
            let i = choose|i: int| 0 <= i < boxes.len() && #[trigger] on_side(boxes[i], y, x);
            law_sides_are_red(data, boxes, width, height, i, y, x);
        } else {
            assert forall|i: int| #![trigger boxes[i]] 0 <= i < boxes.len() implies {
                &&& y < boxes[i].1 || y >= boxes[i].3 || (x != boxes[i].0 && x != boxes[i].2 - 1)
                &&& x < boxes[i].0 || x >= boxes[i].2 || (y != boxes[i].1 && y != boxes[i].3 - 1)
            } by {
                assert(!on_side(boxes[i], y, x));
            }
            law_rest_is_gray(data, boxes, width, height, y, x);
        }
    }
}

} // verus!
