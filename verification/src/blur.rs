//! Gaussian blurring of a single plane of pixels.
use crate::processor::ImageProcessor;
use libblur::{
    gaussian_blur, BlurError, BlurImage, BlurImageMut, ConvolutionMode, EdgeMode, EdgeMode2D,
    FastBlurChannels, GaussianBlurParams, MismatchedSize, ThreadingPolicy,
};
use vstd::prelude::*;

verus! {

/// `libblur::MismatchedSize`: how long a slice should have been and how long it was.
#[verifier::external_type_specification]
pub struct ExMismatchedSize(libblur::MismatchedSize);

/// `libblur::BlurError`: why a blur was refused.
#[verifier::external_type_specification]
pub struct ExBlurError(libblur::BlurError);

/// Why a frame could not be processed.
#[derive(Debug)]
pub enum DetectorError {
    /// The blur was refused.
    Blur(BlurError),
}

/// Buffers as large as 256 rows or columns of a frame can be allocated. On a machine with 64-bit
/// addresses this is so for every size.
pub open spec fn margins_fit(width: u32, height: u32) -> bool {
    256 * width <= isize::MAX && 256 * height <= isize::MAX
}

/// Why a blur is refused, if it is. The first reason that holds is given.
pub open spec fn blur_refusal(
    input_len: nat,
    output_len: nat,
    width: u32,
    height: u32,
    kernel_size: u8,
) -> Option<BlurError> {
    if width == 0 || height == 0 {
        Some(BlurError::ZeroBaseSize)
    } else if width * height > isize::MAX {
        Some(BlurError::ExceedingPointerSize)
    } else if input_len < width * height {
        Some(
            BlurError::MinimumSliceSizeMismatch(
                MismatchedSize {
                    expected: (width * height) as usize,
                    received: input_len as usize,
                },
            ),
        )
    } else if output_len < width * height {
        Some(
            BlurError::MinimumSliceSizeMismatch(
                MismatchedSize {
                    expected: (width * height) as usize,
                    received: output_len as usize,
                },
            ),
        )
    } else if kernel_size == 0 {
        Some(BlurError::InvalidArguments)
    } else if kernel_size % 2 == 0 {
        Some(BlurError::OddKernel(kernel_size as usize))
    } else {
        None
    }
}

/// `after` is what a Gaussian blur of `input` with a kernel of this many rows and columns can
/// leave in a buffer that held `before`. What the buffer held can matter: with a kernel of a
/// single pixel its first row is not written.
pub uninterp spec fn blurred_plane(
    input: Seq<u8>,
    width: u32,
    height: u32,
    kernel_size: u8,
    before: Seq<u8>,
    after: Seq<u8>,
) -> bool;

/// What a blur that is not refused leaves in the output: its length and everything behind the
/// frame stay as they were.
pub open spec fn blur_outcome(
    input: Seq<u8>,
    width: u32,
    height: u32,
    kernel_size: u8,
    before: Seq<u8>,
    after: Seq<u8>,
) -> bool {
    &&& blurred_plane(input, width, height, kernel_size, before, after)
    &&& after.len() == before.len()
    &&& after.skip(width * height) == before.skip(width * height)
}

/// What blurring leads to: the refusal, if there is one, with the output as it was; else the
/// frame in it.
pub open spec fn blur_done(
    input: Seq<u8>,
    before: Seq<u8>,
    width: u32,
    height: u32,
    kernel_size: u8,
    outcome: Result<(), DetectorError>,
    after: Seq<u8>,
) -> bool {
    &&& outcome == (match blur_refusal(input.len(), before.len(), width, height, kernel_size) {
        Some(reason) => Err::<(), DetectorError>(DetectorError::Blur(reason)),
        None => Ok(()),
    })
    &&& outcome is Err ==> after == before
    &&& outcome is Ok ==> blur_outcome(input, width, height, kernel_size, before, after)
}

/// Calls `libblur::gaussian_blur` on single-channel images that borrow the two slices, with the
/// same kernel size in both directions, the sigma left for it to derive, edges clamped, one
/// thread and fixed-point convolution.
///
/// It is taken to refuse exactly what `blur_refusal` says, touching nothing then, and else to
/// write the frame into the first `width * height` bytes of the output. Which bytes it writes is
/// left open: they come from a kernel computed in floating point and from code chosen by the
/// features of the processor, so they may differ by rounding from one machine to another.
#[verifier::external_body]
fn blur_plane(
    input: &[u8],
    output: &mut [u8],
    width: u32,
    height: u32,
    kernel_size: u8,
) -> (outcome: Result<(), BlurError>)
    requires
        margins_fit(width, height),
    ensures
        outcome == (match blur_refusal(
            input@.len(),
            old(output)@.len(),
            width,
            height,
            kernel_size,
        ) {
            Some(reason) => Err::<(), BlurError>(reason),
            None => Ok(()),
        }),
        outcome is Err ==> final(output)@ == old(output)@,
        outcome is Ok ==> blurred_plane(
            input@,
            width,
            height,
            kernel_size,
            old(output)@,
            final(output)@,
        ),
        outcome is Ok ==> final(output)@.len() == old(output)@.len(),
        outcome is Ok ==> final(output)@.skip(width * height) == old(output)@.skip(width * height),
{
    let source = BlurImage::borrow(input, width, height, FastBlurChannels::Plane);
    let mut target = BlurImageMut::borrow(output, width, height, FastBlurChannels::Plane);
    let params = GaussianBlurParams::new(kernel_size as u32, Default::default());
    gaussian_blur(
        &source,
        &mut target,
        params,
        EdgeMode2D::new(EdgeMode::Clamp),
        ThreadingPolicy::Single,
        ConvolutionMode::FixedPoint,
    )
}

impl ImageProcessor {
    /// Blurs the frame in `input` into `output`. The sizes are cut to 32 bits.
    pub fn gaussian_blur_static(
        input: &[u8],
        output: &mut [u8],
        width: usize,
        height: usize,
        kernel_size: u8,
    ) -> (outcome: Result<(), DetectorError>)
        requires
            margins_fit(width as u32, height as u32),
        ensures
            blur_done(
                input@,
                old(output)@,
                width as u32,
                height as u32,
                kernel_size,
                outcome,
                final(output)@,
            ),
    {
        match blur_plane(
            input,
            output,
            #[verifier::truncate] (width as u32),
            #[verifier::truncate] (height as u32),
            kernel_size,
        ) {
            Ok(()) => Ok(()),
            Err(reason) => Err(DetectorError::Blur(reason)),
        }
    }
}

} // verus!
