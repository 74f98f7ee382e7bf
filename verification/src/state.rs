//! The detector's state as mathematics, and what one frame does to it.
use crate::bitset::packed;
use crate::blobs::{found_cells, positions, raw_blobs, BlobView, MAX_RAW_BLOBS};
use crate::cluster::clustered;
use crate::coverage::{coverage, over_limit};
use crate::difference::difference_mask;
use crate::dilate::{dilated, over, spread_rows};
use vstd::prelude::*;

verus! {

/// A bounding box by its corners: `[x, y, x + w, y + h]`.
pub type BoundingBox = [u32; 4];

/// A box by its left and top bounds and the right and bottom bounds past it.
pub type Corners = (int, int, int, int);

/// The corners of a bounding box.
pub open spec fn corners(bounds: BoundingBox) -> Corners {
    (bounds@[0] as int, bounds@[1] as int, bounds@[2] as int, bounds@[3] as int)
}

/// The corners of a list of bounding boxes.
pub open spec fn corner_list(boxes: Seq<BoundingBox>) -> Seq<Corners> {
    boxes.map_values(|b: BoundingBox| corners(b))
}

/// The corners of the boxes of a list of clusters.
pub open spec fn cluster_corners(clusters: Seq<BlobView>) -> Seq<Corners> {
    clusters.map_values(|c: BlobView| (c.min_x, c.min_y, c.max_x, c.max_y))
}

/// `count` zero bytes.
pub open spec fn zeros(count: int) -> Seq<u8> {
    Seq::new(count as nat, |i: int| 0u8)
}

/// The bytes cut to a length, or filled up with zeros.
pub open spec fn resized(bytes: Seq<u8>, len: int) -> Seq<u8> {
    if len <= bytes.len() {
        bytes.take(len)
    } else {
        bytes + zeros(len - bytes.len())
    }
}

/// How many words of 64 bits hold one bit for each of `count` pixels.
pub open spec fn mark_words(count: int) -> int {
    (count + 63) / 64
}

/// Marks for `count` pixels, all clear.
pub open spec fn no_marks(count: int) -> Seq<u64> {
    Seq::new(mark_words(count) as nat, |i: int| 0u64)
}

/// The state of a detector. Of its two frame buffers one holds the reference frame, the other
/// takes the next frame; `phase` tells which is which. `scratch` is the working buffer of the
/// dilation, `stack` and `marks` are those of the search for blobs.
#[verifier::ext_equal]
pub struct ProcessorView {
    pub width: u32,
    pub height: u32,
    pub has_previous: bool,
    pub phase: bool,
    pub frame_a: Seq<u8>,
    pub frame_b: Seq<u8>,
    pub difference: Seq<u8>,
    pub dilated: Seq<u8>,
    pub scratch: Seq<u8>,
    pub stack: Seq<(usize, usize)>,
    pub marks: Seq<u64>,
}

impl ProcessorView {
    /// A detector for frames of this size that has seen nothing.
    pub open spec fn fresh(width: u32, height: u32) -> ProcessorView {
        ProcessorView {
            width,
            height,
            has_previous: false,
            phase: false,
            frame_a: zeros(width * height),
            frame_b: zeros(width * height),
            difference: zeros(width * height),
            dilated: zeros(width * height),
            scratch: zeros(width * height),
            stack: Seq::empty(),
            marks: no_marks(width * height),
        }
    }

    /// Every buffer has the same length, which fits in 32 bits, and there is a mark for each
    /// pixel.
    pub open spec fn even(self) -> bool {
        &&& self.frame_a.len() <= u32::MAX
        &&& self.frame_b.len() == self.frame_a.len()
        &&& self.difference.len() == self.frame_a.len()
        &&& self.dilated.len() == self.frame_a.len()
        &&& self.scratch.len() == self.frame_a.len()
        &&& self.marks.len() == mark_words(self.frame_a.len() as int)
    }

    /// The frame has pixels, and the buffers hold it.
    pub open spec fn holds_frame(self) -> bool {
        &&& 0 < self.width
        &&& 0 < self.height
        &&& self.width * self.height <= self.frame_a.len()
    }

    /// The buffer that takes the next frame.
    pub open spec fn current(self) -> Seq<u8> {
        if self.phase {
            self.frame_a
        } else {
            self.frame_b
        }
    }

    /// The buffer with the frame that the next one is held against.
    pub open spec fn reference(self) -> Seq<u8> {
        if self.phase {
            self.frame_b
        } else {
            self.frame_a
        }
    }

    /// The state with `frame` in the buffer for the next frame.
    pub open spec fn with_current(self, frame: Seq<u8>) -> ProcessorView {
        if self.phase {
            ProcessorView { frame_a: frame, ..self }
        } else {
            ProcessorView { frame_b: frame, ..self }
        }
    }

    /// The frame buffers have changed places.
    pub open spec fn toggled(self) -> ProcessorView {
        ProcessorView { phase: !self.phase, ..self }
    }

    /// Everything seen is forgotten.
    pub open spec fn reset(self) -> ProcessorView {
        ProcessorView { has_previous: false, phase: false, ..self }
    }

    /// A new size: everything seen is forgotten and the buffers are resized.
    pub open spec fn reconfigured(self, width: u32, height: u32) -> ProcessorView {
        if self.width == width && self.height == height {
            self
        } else {
            ProcessorView {
                width,
                height,
                has_previous: false,
                phase: false,
                frame_a: resized(self.frame_a, width * height),
                frame_b: resized(self.frame_b, width * height),
                difference: resized(self.difference, width * height),
                dilated: resized(self.dilated, width * height),
                scratch: resized(self.scratch, width * height),
                stack: Seq::empty(),
                marks: no_marks(width * height),
            }
        }
    }

    /// The first frame has become the reference.
    pub open spec fn started(self) -> ProcessorView {
        ProcessorView { has_previous: true, ..self }.toggled()
    }

    /// The current frame has been held against the reference.
    pub open spec fn compared(self, threshold: u8) -> ProcessorView {
        ProcessorView {
            difference: over(
                difference_mask(self.current(), self.reference(), threshold),
                self.difference,
            ),
            ..self
        }
    }

    /// The difference has been dilated.
    pub open spec fn spread(self, dilate_size: u8) -> ProcessorView {
        ProcessorView {
            dilated: over(
                dilated(
                    self.difference,
                    self.width as int,
                    self.height as int,
                    dilate_size as int,
                ),
                self.dilated,
            ),
            scratch: if dilate_size == 0 {
                self.scratch
            } else {
                over(
                    spread_rows(
                        self.difference,
                        self.width as int,
                        self.height as int,
                        dilate_size as int,
                    ),
                    self.scratch,
                )
            },
            ..self
        }
    }

    /// The dilated difference has been searched for blobs: their pixels are marked, and the
    /// stack is empty if there are any.
    pub open spec fn searched(self) -> ProcessorView {
        let width = self.width as int;
        let height = self.height as int;
        ProcessorView {
            stack: if self.blobs().len() == 0 {
                self.stack
            } else {
                Seq::empty()
            },
            marks: packed(
                positions(found_cells(self.dilated, width, height, width), width, height),
                self.marks.len(),
            ),
            ..self
        }
    }

    /// The blobs found in the dilated difference.
    pub open spec fn blobs(self) -> Seq<BlobView> {
        raw_blobs(self.dilated, self.width as int, self.height as int, self.width as int)
    }

    /// Blobs that come this close are merged: a sixth of the shorter side.
    pub open spec fn pad(self) -> int {
        if self.width <= self.height {
            self.width as int / 6
        } else {
            self.height as int / 6
        }
    }

    /// The clusters of the blobs.
    pub open spec fn clusters(self, min_area: u32) -> Seq<BlobView> {
        clustered(self.blobs(), self.pad(), min_area as int)
    }

    /// More blobs than can be told apart.
    pub open spec fn crowded(self) -> bool {
        self.blobs().len() > MAX_RAW_BLOBS
    }

    /// The clusters cover more than four fifths of the frame.
    pub open spec fn flooded(self, min_area: u32) -> bool {
        over_limit(coverage(self.clusters(min_area)), self.width as int, self.height as int)
    }

    /// One box around the whole frame.
    pub open spec fn whole(self) -> Seq<Corners> {
        seq![(0, 0, self.width as int, self.height as int)]
    }

    /// What the current frame leads to: the next state and the boxes reported. The first frame
    /// only becomes the reference. Later ones are held against the reference; where too much
    /// changed, the whole frame is reported and the frame becomes the reference in any case,
    /// else the clusters are reported and it becomes the reference only if it is to.
    pub open spec fn judged(
        self,
        threshold: u8,
        dilate_size: u8,
        min_area: u32,
        update_reference: bool,
    ) -> (ProcessorView, Seq<Corners>) {
        let seen = self.compared(threshold).spread(dilate_size).searched();
        if !self.has_previous {
            (self.started(), Seq::empty())
        } else if seen.crowded() || seen.flooded(min_area) {
            (seen.toggled(), seen.whole())
        } else if update_reference {
            (seen.toggled(), cluster_corners(seen.clusters(min_area)))
        } else {
            (seen, cluster_corners(seen.clusters(min_area)))
        }
    }
}

} // verus!
