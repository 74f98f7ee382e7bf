//! Marking the pixels that changed between two frames.
use crate::blobs::FOREGROUND;
use crate::dilate::{binary, over};
use crate::processor::ImageProcessor;
use vstd::prelude::*;

verus! {

/// How far two pixel values are apart.
pub open spec fn distance(a: u8, b: u8) -> int {
    if a >= b {
        a - b
    } else {
        b - a
    }
}

/// A mask of the pixels whose values are at least `threshold` apart.
pub open spec fn difference_mask(current: Seq<u8>, previous: Seq<u8>, threshold: u8) -> Seq<u8> {
    Seq::new(
        current.len(),
        |i: int|
            if distance(current[i], previous[i]) >= threshold {
                FOREGROUND
            } else {
                0
            },
    )
}

impl ImageProcessor {
    /// Writes a mask of the pixels that changed by at least `threshold`: foreground where they did,
    /// zero where not. What `output` holds behind the frame stays.
    pub fn detect_frame_differences(
        current_frame: &[u8],
        previous_frame: &[u8],
        output: &mut [u8],
        threshold: u8,
    )
        requires
            current_frame@.len() <= previous_frame@.len(),
            current_frame@.len() <= old(output)@.len(),
        ensures
            final(output)@ == over(
                difference_mask(current_frame@, previous_frame@, threshold),
                old(output)@,
            ),
    {
        let ghost mask = difference_mask(current_frame@, previous_frame@, threshold);
        let mut i: usize = 0;
        while i < current_frame.len()
            invariant
                i <= current_frame@.len(),
                current_frame@.len() <= previous_frame@.len(),
                current_frame@.len() <= output@.len(),
                output@.len() == old(output)@.len(),
                mask == difference_mask(current_frame@, previous_frame@, threshold),
                forall|k: int| 0 <= k < i ==> #[trigger] output@[k] == mask[k],
                forall|k: int| i <= k < output@.len() ==> #[trigger] output@[k] == old(output)@[k],
            decreases current_frame@.len() - i,
        {
            let c: u8 = current_frame[i];
            let p: u8 = previous_frame[i];
            let apart: u8 = if c >= p {
                c - p
            } else {
                p - c
            };
            output[i] = if apart >= threshold {
                FOREGROUND
            } else {
                0
            };
            i += 1;
        }
        proof {
            assert(output@ =~= over(mask, old(output)@));
        }
    }
}

/// A mask holds nothing but zero and foreground.
pub proof fn law_difference_binary(current: Seq<u8>, previous: Seq<u8>, threshold: u8)
    ensures
        binary(difference_mask(current, previous, threshold)),
{
}

/// Which of the two frames came first does not matter.
pub proof fn law_difference_symmetric(current: Seq<u8>, previous: Seq<u8>, threshold: u8)
    requires
        current.len() == previous.len(),
    ensures
        difference_mask(current, previous, threshold) == difference_mask(
            previous,
            current,
            threshold,
        ),
{
    assert(difference_mask(current, previous, threshold) =~= difference_mask(
        previous,
        current,
        threshold,
    ));
}

/// Nothing differs between a frame and itself, unless the threshold is zero, where everything
/// does.
pub proof fn law_difference_same(frame: Seq<u8>, threshold: u8)
    ensures
        forall|i: int|
            0 <= i < frame.len() ==> #[trigger] difference_mask(frame, frame, threshold)[i] == (
            if threshold == 0 {
                FOREGROUND
            } else {
                0
            }),
{
}

/// What is marked at a threshold is marked at every lower one.
pub proof fn law_difference_threshold(
    current: Seq<u8>,
    previous: Seq<u8>,
    high: u8,
    low: u8,
    i: int,
)
    requires
        low <= high,
        0 <= i < current.len(),
        difference_mask(current, previous, high)[i] == FOREGROUND,
    ensures
        difference_mask(current, previous, low)[i] == FOREGROUND,
{
}

} // verus!
