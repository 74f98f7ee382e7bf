//! The motion detector: frames in, bounding boxes of what moved out.
use crate::blob_laws::{frame_blobs, lemma_merged_in_frame, lemma_raw_blobs};
use crate::blobs::{
    blob_views, find_blobs, lemma_marks_packed, lemma_reach_in_frame, lit_cells, Blob, BlobView,
    MAX_RAW_BLOBS,
};
use crate::blur::{blur_outcome, blur_refusal, margins_fit, DetectorError};
use crate::cluster::{areas_within, cluster_blobs, merged};
use crate::cluster_laws::{all_proper, each, proper, separated};
use crate::coverage::{
    box_coverage, coverage, covers_too_much, in_frame, law_coverage_in_frame, upright,
};
use crate::dilate::{dilate_binary_box, over};
use crate::grid::{reach, Cell};
use crate::ranking::{law_clustered_separated, lemma_clustered_keeps};
use crate::state::{
    cluster_corners, corner_list, corners, mark_words, no_marks, resized, zeros, BoundingBox,
    ProcessorView,
};
use vstd::prelude::*;

verus! {

/// A motion detector for grayscale frames of `width` by `height` pixels.
pub struct ImageProcessor {
    pub width: u32,
    pub height: u32,
    blur_buf_a: Vec<u8>,
    blur_buf_b: Vec<u8>,
    buf_phase: bool,
    has_previous: bool,
    diff_buffer: Vec<u8>,
    flood_fill_stack: Vec<(usize, usize)>,
    visited_bitset: Vec<u64>,
    dilate_buffer: Vec<u8>,
    morph_scratch: Vec<u8>,
}

impl View for ImageProcessor {
    type V = ProcessorView;

    closed spec fn view(&self) -> ProcessorView {
        ProcessorView {
            width: self.width,
            height: self.height,
            has_previous: self.has_previous,
            phase: self.buf_phase,
            frame_a: self.blur_buf_a@,
            frame_b: self.blur_buf_b@,
            difference: self.diff_buffer@,
            dilated: self.dilate_buffer@,
            scratch: self.morph_scratch@,
            stack: self.flood_fill_stack@,
            marks: self.visited_bitset@,
        }
    }
}

/// The size of a frame that a detector can be made for.
pub open spec fn frame_fits(width: u32, height: u32) -> bool {
    width * height <= u32::MAX && width * height <= isize::MAX
}

/// Words of 64 bits that hold `bits` bits.
fn words_for(bits: usize) -> (words: usize)
    ensures
        words == mark_words(bits as int),
{
    if bits % 64 == 0 {
        bits / 64
    } else {
        bits / 64 + 1
    }
}

/// Cuts a buffer to a length, or fills it up with zeros.
fn resize_buffer(buffer: &mut Vec<u8>, len: usize)
    ensures
        final(buffer)@ == resized(old(buffer)@, len as int),
{
    buffer.resize(len, 0);
    proof {
        assert(buffer@ =~= resized(old(buffer)@, len as int)) by {
            if len > old(buffer)@.len() {
                assert forall|i: int| 0 <= i < old(buffer)@.len() implies buffer@[i] == old(
                    buffer,
                )@[i] by {
                    assert(buffer@.subrange(0, old(buffer)@.len() as int)[i] == buffer@[i]);
                }
            }
        }
    }
}

/// The bounding boxes of the clusters.
pub(crate) fn bounding_boxes(clusters: &Vec<Blob>) -> (boxes: Vec<BoundingBox>)
    ensures
        corner_list(boxes@) == cluster_corners(blob_views(clusters@)),
{
    let mut boxes: Vec<BoundingBox> = Vec::new();
    let mut i: usize = 0;
    while i < clusters.len()
        invariant
            i <= clusters@.len(),
            boxes@.len() == i,
            forall|k: int|
                0 <= k < i ==> corners(#[trigger] boxes@[k]) == cluster_corners(
                    blob_views(clusters@),
                )[k],
        decreases clusters@.len() - i,
    {
        let c: Blob = clusters[i];
        boxes.push([c.min_x, c.min_y, c.max_x, c.max_y]);
        i += 1;
    }
    proof {
        assert(corner_list(boxes@) =~= cluster_corners(blob_views(clusters@)));
    }
    boxes
}

/// The clusters of a frame's blobs lie in the frame, do not come within the padding of each other,
/// and cover no more than the frame; while they are merged no area outgrows 32 bits.
pub proof fn lemma_clusters(state: ProcessorView, min_area: u32)
    requires
        state.even(),
        state.holds_frame(),
    ensures
        frame_blobs(state.clusters(min_area), state.width as int, state.height as int),
        all_proper(state.clusters(min_area)),
        upright(state.clusters(min_area)),
        separated(state.clusters(min_area), state.pad()),
        areas_within(merged(state.blobs(), state.pad()), u32::MAX as int),
        0 <= coverage(state.clusters(min_area)) <= state.width * state.height,
{
    let w = state.width as int;
    let h = state.height as int;
    let blobs = state.blobs();
    let pad = state.pad();
    let clusters = state.clusters(min_area);
    lemma_raw_blobs(state.dilated, w, h, w);
    lemma_merged_in_frame(blobs, pad, w, h);
    let all = merged(blobs, pad);
    assert forall|i: int| 0 <= i < all.len() implies 0 <= (#[trigger] all[i]).area
        <= u32::MAX by {}
    let keeps = |b: BlobView| proper(b) && in_frame(b, w, h) && 0 < b.area;
    assert(each(all, keeps));
    lemma_clustered_keeps(blobs, pad, min_area as int, keeps);
    assert forall|i: int| 0 <= i < clusters.len() implies proper(#[trigger] clusters[i])
        && in_frame(clusters[i], w, h) && 0 < clusters[i].area by {
        assert(keeps(clusters[i]));
    }
    law_clustered_separated(blobs, pad, min_area as int);
    law_coverage_in_frame(clusters, pad, w, h);
}

/// What processing a blurred frame leads to: it goes over what the buffer for the current frame
/// holds and is judged.
pub open spec fn processed(
    before: ProcessorView,
    blurred: Seq<u8>,
    threshold: u8,
    dilate_size: u8,
    min_area: u32,
    update_reference: Option<bool>,
    boxes: Seq<BoundingBox>,
    after: ProcessorView,
) -> bool {
    (after, corner_list(boxes)) == before.with_current(over(blurred, before.current())).judged(
        threshold,
        dilate_size,
        min_area,
        update_reference.unwrap_or(true),
    )
}

/// What processing an image leads to. Where the blur refuses it, nothing changes; else what the
/// blur left of it is judged.
pub open spec fn image_processed(
    before: ProcessorView,
    image: Seq<u8>,
    threshold: u8,
    kernel_size: u8,
    dilate_size: u8,
    min_area: u32,
    update_reference: Option<bool>,
    outcome: Result<Vec<BoundingBox>, DetectorError>,
    after: ProcessorView,
) -> bool {
    match blur_refusal(
        image.len(),
        before.current().len(),
        before.width,
        before.height,
        kernel_size,
    ) {
        Some(reason) => outcome == Err::<Vec<BoundingBox>, DetectorError>(
            DetectorError::Blur(reason),
        ) && after == before,
        None => outcome is Ok && exists|blurred: Seq<u8>| #[trigger]
            blur_outcome(
                image,
                before.width,
                before.height,
                kernel_size,
                before.current(),
                blurred,
            ) && (after, corner_list(outcome->Ok_0@)) == before.with_current(blurred).judged(
                threshold,
                dilate_size,
                min_area,
                update_reference.unwrap_or(true),
            ),
    }
}

impl ImageProcessor {
    /// The buffers fit together.
    pub open spec fn wf(&self) -> bool {
        self@.even()
    }

    /// A detector for frames of this size that has seen nothing.
    pub fn new(width: u32, height: u32) -> (processor: Self)
        requires
            frame_fits(width, height),
        ensures
            processor.wf(),
            processor@ == ProcessorView::fresh(width, height),
    {
        let num_pixels: usize = (width * height) as usize;
        let bitset_size: usize = words_for(num_pixels);
        let processor = ImageProcessor {
            width,
            height,
            blur_buf_a: vec![0u8; num_pixels],
            blur_buf_b: vec![0u8; num_pixels],
            buf_phase: false,
            has_previous: false,
            diff_buffer: vec![0u8; num_pixels],
            flood_fill_stack: Vec::with_capacity((width * height / 32) as usize),
            visited_bitset: vec![0u64; bitset_size],
            dilate_buffer: vec![0u8; num_pixels],
            morph_scratch: vec![0u8; num_pixels],
        };
        proof {
            assert(processor.blur_buf_a@ =~= zeros(width * height));
            assert(processor.blur_buf_b@ =~= zeros(width * height));
            assert(processor.diff_buffer@ =~= zeros(width * height));
            assert(processor.dilate_buffer@ =~= zeros(width * height));
            assert(processor.morph_scratch@ =~= zeros(width * height));
            assert(processor.visited_bitset@ =~= no_marks(width * height));
        }
        processor
    }

    /// Changes the frame size. With a new size everything seen is forgotten; with the old one
    /// nothing happens.
    pub fn reconfigure(&mut self, width: u32, height: u32)
        requires
            old(self).wf(),
            old(self)@.width != width || old(self)@.height != height ==> frame_fits(width, height),
        ensures
            final(self).wf(),
            final(self)@ == old(self)@.reconfigured(width, height),
    {
        if self.width != width || self.height != height {
            self.width = width;
            self.height = height;
            self.has_previous = false;
            self.buf_phase = false;
            let num_pixels: usize = (width * height) as usize;
            let bitset_size: usize = words_for(num_pixels);
            resize_buffer(&mut self.blur_buf_a, num_pixels);
            resize_buffer(&mut self.blur_buf_b, num_pixels);
            resize_buffer(&mut self.diff_buffer, num_pixels);
            self.visited_bitset = vec![0u64; bitset_size];
            resize_buffer(&mut self.dilate_buffer, num_pixels);
            resize_buffer(&mut self.morph_scratch, num_pixels);
            self.flood_fill_stack.clear();
            proof {
                assert(self.visited_bitset@ =~= no_marks(width * height));
                assert(self@ =~= old(self)@.reconfigured(width, height));
            }
        }
    }

    /// Forgets everything seen, so that the next frame is a first frame again.
    pub fn reset_state(&mut self)
        requires
            old(self).wf(),
        ensures
            final(self).wf(),
            final(self)@ == old(self)@.reset(),
    {
        self.has_previous = false;
        self.buf_phase = false;
    }

    /// Whether there is a reference frame.
    pub(crate) fn has_reference(&self) -> (yes: bool)
        ensures
            yes == self@.has_previous,
    {
        self.has_previous
    }

    /// Lets the frame buffers change places.
    pub(crate) fn toggle(&mut self)
        requires
            old(self).wf(),
        ensures
            final(self).wf(),
            final(self)@ == old(self)@.toggled(),
    {
        self.buf_phase = !self.buf_phase;
    }

    /// Makes the current frame the first reference.
    pub(crate) fn start(&mut self)
        requires
            old(self).wf(),
        ensures
            final(self).wf(),
            final(self)@ == old(self)@.started(),
    {
        self.has_previous = true;
        self.toggle();
    }

    /// The current frame.
    pub(crate) fn current_frame(&self) -> (frame: &[u8])
        ensures
            frame@ == self@.current(),
    {
        if self.buf_phase {
            self.blur_buf_a.as_slice()
        } else {
            self.blur_buf_b.as_slice()
        }
    }

    /// The difference that was found last.
    pub(crate) fn difference_frame(&self) -> (frame: &[u8])
        ensures
            frame@ == self@.difference,
    {
        self.diff_buffer.as_slice()
    }

    /// The dilated difference.
    pub(crate) fn dilated_frame(&self) -> (frame: &[u8])
        ensures
            frame@ == self@.dilated,
    {
        self.dilate_buffer.as_slice()
    }

    /// The size of a frame.
    pub(crate) fn frame_size(&self) -> (size: (u32, u32))
        ensures
            size == (self@.width, self@.height),
    {
        (self.width, self.height)
    }

    /// Holds the current frame against the reference.
    pub(crate) fn compare(&mut self, threshold: u8)
        requires
            old(self).wf(),
        ensures
            final(self).wf(),
            final(self)@ == old(self)@.compared(threshold),
    {
        if self.buf_phase {
            Self::detect_frame_differences(
                self.blur_buf_a.as_slice(),
                self.blur_buf_b.as_slice(),
                self.diff_buffer.as_mut_slice(),
                threshold,
            );
        } else {
            Self::detect_frame_differences(
                self.blur_buf_b.as_slice(),
                self.blur_buf_a.as_slice(),
                self.diff_buffer.as_mut_slice(),
                threshold,
            );
        }
    }

    /// Dilates the difference.
    pub(crate) fn spread(&mut self, dilate_size: u8)
        requires
            old(self).wf(),
            old(self)@.holds_frame(),
            margins_fit(old(self)@.width, old(self)@.height),
        ensures
            final(self).wf(),
            final(self)@ == old(self)@.spread(dilate_size),
    {
        let w: usize = self.width as usize;
        let h: usize = self.height as usize;
        dilate_binary_box(
            self.diff_buffer.as_slice(),
            self.morph_scratch.as_mut_slice(),
            self.dilate_buffer.as_mut_slice(),
            w,
            h,
            dilate_size as usize,
        );
    }

    /// Finds the blobs in the dilated difference and marks their pixels.
    pub(crate) fn find(&mut self) -> (blobs: Vec<Blob>)
        requires
            old(self).wf(),
            old(self)@.holds_frame(),
        ensures
            final(self).wf(),
            final(self)@ == old(self)@.searched(),
            blob_views(blobs@) == old(self)@.blobs(),
    {
        let w: usize = self.width as usize;
        let h: usize = self.height as usize;
        proof {
            let lit = lit_cells(self.dilate_buffer@, w as int, h as int, w as int);
            assert forall|c: Cell| #[trigger] lit.contains(c) implies reach(lit, c).len()
                <= u32::MAX by {
                lemma_reach_in_frame(lit, c, w as int, h as int);
            }
            assert((h - 1) * w + w == w * h) by (nonlinear_arith);
        }
        let blobs = find_blobs(
            self.dilate_buffer.as_slice(),
            w,
            h,
            None,
            &mut self.flood_fill_stack,
            self.visited_bitset.as_mut_slice(),
        );
        proof {
            lemma_marks_packed(self.visited_bitset@, w as int, h as int);
            assert(blob_views(blobs@).len() == blobs@.len());
            assert(self@ =~= old(self)@.searched());
        }
        blobs
    }

    /// Clusters the blobs.
    pub(crate) fn cluster(&self, blobs: Vec<Blob>, min_area: u32) -> (clusters: Vec<Blob>)
        requires
            self.wf(),
            self@.holds_frame(),
            blob_views(blobs@) == self@.blobs(),
        ensures
            blob_views(clusters@) == self@.clusters(min_area),
    {
        let pad: u32 = if self.width <= self.height {
            self.width / 6
        } else {
            self.height / 6
        };
        proof {
            lemma_clusters(self@, min_area);
        }
        cluster_blobs(blobs, pad, min_area)
    }

    /// Decides what the frame in the current buffer leads to.
    fn judge(
        &mut self,
        threshold: u8,
        dilate_size: u8,
        min_area: u32,
        update_reference: Option<bool>,
    ) -> (boxes: Vec<BoundingBox>)
        requires
            old(self).wf(),
            old(self)@.holds_frame(),
            margins_fit(old(self)@.width, old(self)@.height),
        ensures
            final(self).wf(),
            (final(self)@, corner_list(boxes@)) == old(self)@.judged(
                threshold,
                dilate_size,
                min_area,
                update_reference.unwrap_or(true),
            ),
    {
        if !self.has_previous {
            self.start();
            let boxes: Vec<BoundingBox> = Vec::new();
            proof {
                assert(corner_list(boxes@) =~= Seq::empty());
            }
            return boxes;
        }
        let ghost seen = self@.compared(threshold).spread(dilate_size).searched();
        self.compare(threshold);
        self.spread(dilate_size);
        let blobs = self.find();
        proof {
            assert(blob_views(blobs@).len() == blobs@.len());
        }
        if blobs.len() > MAX_RAW_BLOBS {
            self.toggle();
            return self.whole_frame();
        }
        let clusters = self.cluster(blobs, min_area);

        // clusters are pairwise disjoint after merging, the plain sum is exact
        proof {
            lemma_clusters(seen, min_area);
            assert(seen.width * seen.height <= u32::MAX);
        }
        let covered: u64 = box_coverage(&clusters);
        if covers_too_much(covered, self.width, self.height) {
            self.toggle();
            return self.whole_frame();
        }
        if update_reference.unwrap_or(true) {
            self.toggle();
        }
        bounding_boxes(&clusters)
    }

    /// One box around the whole frame.
    pub(crate) fn whole_frame(&self) -> (boxes: Vec<BoundingBox>)
        ensures
            corner_list(boxes@) == self@.whole(),
    {
        let mut boxes: Vec<BoundingBox> = Vec::new();
        boxes.push([0, 0, self.width, self.height]);
        proof {
            assert(corner_list(boxes@) =~= self@.whole());
        }
        boxes
    }

    /// Processes a frame that has been blurred already: `blurred` goes into the buffer for the
    /// current frame, over what that holds, and the boxes of what moved come out.
    pub fn process_blurred(
        &mut self,
        blurred: &[u8],
        threshold: u8,
        dilate_size: u8,
        min_area: u32,
        update_reference: Option<bool>,
    ) -> (boxes: Vec<BoundingBox>)
        requires
            old(self).wf(),
            old(self)@.holds_frame(),
            margins_fit(old(self)@.width, old(self)@.height),
            blurred@.len() <= old(self)@.current().len(),
        ensures
            final(self).wf(),
            processed(
                old(self)@,
                blurred@,
                threshold,
                dilate_size,
                min_area,
                update_reference,
                boxes@,
                final(self)@,
            ),
    {
        if self.buf_phase {
            copy_over(blurred, self.blur_buf_a.as_mut_slice());
        } else {
            copy_over(blurred, self.blur_buf_b.as_mut_slice());
        }
        self.judge(threshold, dilate_size, min_area, update_reference)
    }

    /// Processes a frame: blurs it, holds it against the reference frame and gives the bounding
    /// boxes of what moved, largest first. Unless `update_reference` is `Some(false)` the frame
    /// becomes the next reference.
    pub fn process_image(
        &mut self,
        frame: &[u8],
        threshold: u8,
        kernel_size: u8,
        dilate_size: u8,
        min_area: u32,
        update_reference: Option<bool>,
    ) -> (outcome: Result<Vec<BoundingBox>, DetectorError>)
        requires
            old(self).wf(),
            margins_fit(old(self)@.width, old(self)@.height),
        ensures
            final(self).wf(),
            image_processed(
                old(self)@,
                frame@,
                threshold,
                kernel_size,
                dilate_size,
                min_area,
                update_reference,
                outcome,
                final(self)@,
            ),
    {
        match self.blur(frame, kernel_size) {
            Ok(()) => Ok(self.judge(threshold, dilate_size, min_area, update_reference)),
            Err(refused) => Err(refused),
        }
    }

    /// Blurs a frame into the buffer for the current frame.
    pub(crate) fn blur(&mut self, frame: &[u8], kernel_size: u8) -> (outcome: Result<(), DetectorError>)
        requires
            old(self).wf(),
            margins_fit(old(self)@.width, old(self)@.height),
        ensures
            final(self).wf(),
            match blur_refusal(
                frame@.len(),
                old(self)@.current().len(),
                old(self)@.width,
                old(self)@.height,
                kernel_size,
            ) {
                Some(reason) => outcome == Err::<(), DetectorError>(DetectorError::Blur(reason))
                    && final(self)@ == old(self)@,
                None => outcome is Ok && final(self)@.holds_frame() && final(self)@ == old(
                    self,
                )@.with_current(final(self)@.current()) && blur_outcome(
                    frame@,
                    old(self)@.width,
                    old(self)@.height,
                    kernel_size,
                    old(self)@.current(),
                    final(self)@.current(),
                ),
            },
    {
        let w: usize = self.width as usize;
        let h: usize = self.height as usize;
        if self.buf_phase {
            Self::gaussian_blur_static(frame, self.blur_buf_a.as_mut_slice(), w, h, kernel_size)
        } else {
            Self::gaussian_blur_static(frame, self.blur_buf_b.as_mut_slice(), w, h, kernel_size)
        }
    }
}

/// Copies `source` over the start of `target`.
fn copy_over(source: &[u8], target: &mut [u8])
    requires
        source@.len() <= old(target)@.len(),
    ensures
        final(target)@ == over(source@, old(target)@),
{
    let mut i: usize = 0;
    while i < source.len()
        invariant
            i <= source@.len() <= target@.len(),
            target@.len() == old(target)@.len(),
            forall|k: int| 0 <= k < i ==> #[trigger] target@[k] == source@[k],
            forall|k: int| i <= k < target@.len() ==> #[trigger] target@[k] == old(target)@[k],
        decreases source@.len() - i,
    {
        target[i] = source[i];
        i += 1;
    }
    proof {
        assert(target@ =~= over(source@, old(target)@));
    }
}

} // verus!
