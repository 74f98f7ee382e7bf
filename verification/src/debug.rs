//! Processing a frame step by step, with a picture to save after each step.
use crate::blobs::{blob_views, MAX_RAW_BLOBS};
use crate::blur::{blur_outcome, blur_refusal, margins_fit, DetectorError};
use crate::processor::{bounding_boxes, lemma_clusters, ImageProcessor};
use crate::render::{draw_boxes, drawable, lemma_drawable, picture_fits, rendered};
use crate::state::{cluster_corners, corner_list, corners, BoundingBox, Corners, ProcessorView};
use vstd::prelude::*;

verus! {

/// The picture that was saved last.
#[derive(Debug)]
pub enum DebugStage {
    /// The blurred frame.
    Blurred,
    /// The difference from the reference frame.
    Difference,
    /// The dilated difference.
    Dilated,
    /// The dilated difference with these bounding boxes drawn on it.
    Boxes(Vec<BoundingBox>),
}

/// A picture to save: in gray, one byte per pixel, but for the stage `Boxes`, which has three
/// bytes per pixel for red, green and blue.
#[derive(Debug)]
pub struct DebugImage {
    pub stage: DebugStage,
    pub name: String,
    pub pixels: Vec<u8>,
}

/// What to do next.
#[derive(Debug)]
pub enum DebugStep {
    /// Save this picture, then go on from its stage.
    Save(DebugImage),
    /// Nothing is left to do; these are the bounding boxes.
    Done(Vec<BoundingBox>),
}

impl ProcessorView {
    /// The boxes that step-by-step processing reports for the dilated difference.
    pub open spec fn debug_boxes(self, min_area: u32) -> Seq<Corners> {
        if self.crowded() {
            self.whole()
        } else {
            cluster_corners(self.clusters(min_area))
        }
    }
}

/// A copy of the bytes.
fn copy_of(bytes: &[u8]) -> (copy: Vec<u8>)
    ensures
        copy@ == bytes@,
{
    let mut copy: Vec<u8> = Vec::with_capacity(bytes.len());
    let mut i: usize = 0;
    while i < bytes.len()
        invariant
            i <= bytes@.len(),
            copy@ == bytes@.take(i as int),
        decreases bytes@.len() - i,
    {
        copy.push(bytes[i]);
        i += 1;
        proof {
            assert(bytes@.take(i as int) =~= bytes@.take(i - 1).push(bytes@[i - 1]));
        }
    }
    proof {
        assert(bytes@.take(i as int) =~= bytes@);
    }
    copy
}

/// A file name made of a prefix and an ending.
fn file_name(prefix: &str, ending: &str) -> (name: String)
    ensures
        name@ == prefix@ + ending@,
{
    let mut name: String = prefix.to_owned();
    name.append(ending);
    name
}

/// What beginning to process an image step by step leads to.
pub open spec fn begun(
    before: ProcessorView,
    image: Seq<u8>,
    kernel_size: u8,
    prefix: Seq<char>,
    outcome: Result<DebugImage, DetectorError>,
    after: ProcessorView,
) -> bool {
    match blur_refusal(
        image.len(),
        before.current().len(),
        before.width,
        before.height,
        kernel_size,
    ) {
        Some(reason) => outcome == Err::<DebugImage, DetectorError>(
            DetectorError::Blur(reason),
        ) && after == before,
        None => {
            &&& outcome matches Ok(saved)
            &&& saved.stage is Blurred
            &&& saved.name@ == prefix + "_1_blurred.png"@
            &&& saved.pixels@ == after.current()
            &&& after == before.with_current(saved.pixels@)
            &&& blur_outcome(
                image,
                before.width,
                before.height,
                kernel_size,
                before.current(),
                saved.pixels@,
            )
        },
    }
}

/// What going on after the picture of a stage leads to.
pub open spec fn continued(
    before: ProcessorView,
    stage: DebugStage,
    threshold: u8,
    dilate_size: u8,
    min_area: u32,
    prefix: Seq<char>,
    step: DebugStep,
    after: ProcessorView,
) -> bool {
    match stage {
        DebugStage::Blurred => if before.has_previous {
            &&& after == before.compared(threshold)
            &&& step matches DebugStep::Save(image)
            &&& image.stage is Difference
            &&& image.name@ == prefix + "_2_difference.png"@
            &&& image.pixels@ == after.difference
        } else {
            &&& after == before.started()
            &&& step matches DebugStep::Done(boxes)
            &&& boxes@ == Seq::<BoundingBox>::empty()
        },
        DebugStage::Difference => {
            &&& after == before.spread(dilate_size)
            &&& step matches DebugStep::Save(image)
            &&& image.stage is Dilated
            &&& image.name@ == prefix + "_3_dilated.png"@
            &&& image.pixels@ == after.dilated
        },
        DebugStage::Dilated => {
            &&& after == before.searched()
            &&& step matches DebugStep::Save(image)
            &&& image.name@ == prefix + "_4_bounding_boxes.png"@
            &&& image.stage matches DebugStage::Boxes(boxes)
            &&& corner_list(boxes@) == before.debug_boxes(min_area)
            &&& image.pixels@ == rendered(
                before.dilated,
                corner_list(boxes@),
                before.width as int,
                before.height as int,
            )
        },
        DebugStage::Boxes(boxes) => {
            &&& after == before.toggled()
            &&& step == DebugStep::Done(boxes)
        },
    }
}

impl ImageProcessor {
    /// Begins to process a frame step by step: blurs it and gives the blurred frame to save.
    pub fn begin_debug(&mut self, frame: &[u8], kernel_size: u8, prefix: &str) -> (outcome: Result<
        DebugImage,
        DetectorError,
    >)
        requires
            old(self).wf(),
            margins_fit(old(self)@.width, old(self)@.height),
        ensures
            final(self).wf(),
            begun(old(self)@, frame@, kernel_size, prefix@, outcome, final(self)@),
    {
        match self.blur(frame, kernel_size) {
            Ok(()) => Ok(
                DebugImage {
                    stage: DebugStage::Blurred,
                    name: file_name(prefix, "_1_blurred.png"),
                    pixels: copy_of(self.current_frame()),
                },
            ),
            Err(refused) => Err(refused),
        }
    }

    /// Goes on once the picture of `stage` has been saved. A first frame becomes the reference
    /// and ends the processing. Otherwise the difference, the dilated difference and that with
    /// the bounding boxes follow; then the frame becomes the reference.
    pub fn continue_debug(
        &mut self,
        stage: DebugStage,
        threshold: u8,
        dilate_size: u8,
        min_area: u32,
        prefix: &str,
    ) -> (step: DebugStep)
        requires
            old(self).wf(),
            stage is Difference || stage is Dilated ==> old(self)@.holds_frame() && margins_fit(
                old(self)@.width,
                old(self)@.height,
            ),
            stage is Dilated ==> old(self)@.dilated.len() == old(self)@.width * old(self)@.height
                && picture_fits(old(self)@.width, old(self)@.height),
        ensures
            final(self).wf(),
            continued(
                old(self)@,
                stage,
                threshold,
                dilate_size,
                min_area,
                prefix@,
                step,
                final(self)@,
            ),
    {
        match stage {
            DebugStage::Blurred => {
                if !self.has_reference() {
                    self.start();
                    return DebugStep::Done(Vec::new());
                }
                self.compare(threshold);
                DebugStep::Save(
                    DebugImage {
                        stage: DebugStage::Difference,
                        name: file_name(prefix, "_2_difference.png"),
                        pixels: copy_of(self.difference_frame()),
                    },
                )
            },
            DebugStage::Difference => {
                self.spread(dilate_size);
                DebugStep::Save(
                    DebugImage {
                        stage: DebugStage::Dilated,
                        name: file_name(prefix, "_3_dilated.png"),
                        pixels: copy_of(self.dilated_frame()),
                    },
                )
            },
            DebugStage::Dilated => {
                let boxes = self.debug_boxes(min_area);
                let (width, height) = self.frame_size();
                let pixels = draw_boxes(self.dilated_frame(), &boxes, width, height);
                DebugStep::Save(
                    DebugImage {
                        stage: DebugStage::Boxes(boxes),
                        name: file_name(prefix, "_4_bounding_boxes.png"),
                        pixels,
                    },
                )
            },
            DebugStage::Boxes(boxes) => {
                self.toggle();
                DebugStep::Done(boxes)
            },
        }
    }

    /// The boxes for the dilated difference.
    fn debug_boxes(&mut self, min_area: u32) -> (boxes: Vec<BoundingBox>)
        requires
            old(self).wf(),
            old(self)@.holds_frame(),
        ensures
            final(self).wf(),
            final(self)@ == old(self)@.searched(),
            corner_list(boxes@) == old(self)@.debug_boxes(min_area),
            forall|i: int|
                0 <= i < boxes@.len() ==> drawable(
                    corners(#[trigger] boxes@[i]),
                    old(self)@.width as int,
                    old(self)@.height as int,
                ),
    {
        let ghost w = self@.width as int;
        let ghost h = self@.height as int;
        let blobs = self.find();
        proof {
            assert(blob_views(blobs@).len() == blobs@.len());
        }
        let boxes = if blobs.len() > MAX_RAW_BLOBS {
            self.whole_frame()
        } else {
            let clusters = self.cluster(blobs, min_area);
            bounding_boxes(&clusters)
        };
        proof {
            lemma_clusters(self@, min_area);
            let views = corner_list(boxes@);
            let clusters = self@.clusters(min_area);
            assert(views == self@.debug_boxes(min_area));
            assert(cluster_corners(clusters).len() == clusters.len());
            assert forall|i: int| 0 <= i < boxes@.len() implies drawable(
                corners(#[trigger] boxes@[i]),
                w,
                h,
            ) by {
                assert(views[i] == corners(boxes@[i]));
                if !self@.crowded() {
                    let c = clusters[i];
                    assert(views[i] == (c.min_x, c.min_y, c.max_x, c.max_y));
                }
                lemma_drawable(views[i], w, h);
            }
        }
        boxes
    }
}

} // verus!
