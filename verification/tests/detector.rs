use libblur::BlurError;
use rust_detector::{BoundingBox, DetectorError, ImageProcessor};

const W: u32 = 40;
const H: u32 = 40;

fn black() -> Vec<u8> {
    vec![0u8; (W * H) as usize]
}

fn with_square(mut frame: Vec<u8>, x0: u32, y0: u32, side: u32) -> Vec<u8> {
    for y in y0..y0 + side {
        for x in x0..x0 + side {
            frame[(y * W + x) as usize] = 255;
        }
    }
    frame
}

fn none() -> Vec<BoundingBox> {
    Vec::new()
}

#[test]
fn blur_spreads_a_bright_pixel() {
    let mut input = vec![0u8; 81];
    input[4 * 9 + 4] = 255;
    let mut output = vec![3u8; 82];
    ImageProcessor::gaussian_blur_static(&input, &mut output, 9, 9, 3).unwrap();
    assert!(output[40] > 40 && output[40] < 100);
    assert!(output[39] > 15 && output[39] < 60);
    assert!(output[31] > 15 && output[31] < 60);
    assert_eq!(output[0], 0);
    assert_eq!(output[80], 0);
    assert_eq!(output[81], 3);
}

#[test]
fn blur_refuses_empty_frames() {
    let mut output = vec![9u8; 4];
    let refused = ImageProcessor::gaussian_blur_static(&[0u8; 4], &mut output, 0, 2, 3);
    assert!(matches!(refused, Err(DetectorError::Blur(BlurError::ZeroBaseSize))));
    let refused = ImageProcessor::gaussian_blur_static(&[0u8; 4], &mut output, 2, 0, 3);
    assert!(matches!(refused, Err(DetectorError::Blur(BlurError::ZeroBaseSize))));
    assert_eq!(output, vec![9; 4]);
}

#[test]
fn blur_refuses_short_slices() {
    let mut output = vec![9u8; 4];
    match ImageProcessor::gaussian_blur_static(&[0u8; 3], &mut output, 2, 2, 3) {
        Err(DetectorError::Blur(BlurError::MinimumSliceSizeMismatch(size))) => {
            assert_eq!((size.expected, size.received), (4, 3));
        }
        other => panic!("{:?}", other),
    }
    match ImageProcessor::gaussian_blur_static(&[0u8; 6], &mut output, 2, 3, 3) {
        Err(DetectorError::Blur(BlurError::MinimumSliceSizeMismatch(size))) => {
            assert_eq!((size.expected, size.received), (6, 4));
        }
        other => panic!("{:?}", other),
    }
    assert_eq!(output, vec![9; 4]);
}

#[test]
fn blur_refuses_even_and_empty_kernels() {
    let mut output = vec![9u8; 4];
    let refused = ImageProcessor::gaussian_blur_static(&[0u8; 4], &mut output, 2, 2, 4);
    assert!(matches!(refused, Err(DetectorError::Blur(BlurError::OddKernel(4)))));
    let refused = ImageProcessor::gaussian_blur_static(&[0u8; 4], &mut output, 2, 2, 0);
    assert!(matches!(refused, Err(DetectorError::Blur(BlurError::InvalidArguments))));
    assert_eq!(output, vec![9; 4]);
}

#[test]
fn blur_refuses_frames_past_the_pointer_size() {
    let mut output = vec![9u8; 4];
    let refused = ImageProcessor::gaussian_blur_static(
        &[0u8; 4],
        &mut output,
        u32::MAX as usize,
        u32::MAX as usize,
        3,
    );
    assert!(matches!(refused, Err(DetectorError::Blur(BlurError::ExceedingPointerSize))));
}

#[test]
fn large_kernels_are_accepted() {
    let input = vec![200u8; 100];
    for kernel in [1u8, 3, 5, 29, 31, 61, 63, 127, 255] {
        let mut output = vec![200u8; 100];
        ImageProcessor::gaussian_blur_static(&input, &mut output, 10, 10, kernel).unwrap();
        assert_eq!(output.len(), 100);
    }
}

#[test]
fn first_frame_is_silent() {
    let mut processor = ImageProcessor::new(W, H);
    let frame = with_square(black(), 10, 10, 10);
    assert_eq!(processor.process_image(&frame, 100, 3, 0, 0, None).unwrap(), none());
}

#[test]
fn moved_square_is_boxed() {
    let mut processor = ImageProcessor::new(W, H);
    processor.process_image(&black(), 100, 3, 0, 0, None).unwrap();
    let frame = with_square(black(), 10, 12, 10);
    let boxes = processor.process_image(&frame, 100, 3, 0, 0, None).unwrap();
    assert_eq!(boxes, vec![[10, 12, 20, 22]]);
}

#[test]
fn dilation_widens_the_box() {
    let mut processor = ImageProcessor::new(W, H);
    processor.process_image(&black(), 100, 3, 2, 0, None).unwrap();
    let frame = with_square(black(), 10, 12, 10);
    let boxes = processor.process_image(&frame, 100, 3, 2, 0, None).unwrap();
    assert_eq!(boxes, vec![[8, 10, 22, 24]]);
}

#[test]
fn still_scene_is_silent() {
    let mut processor = ImageProcessor::new(W, H);
    let frame = with_square(black(), 5, 5, 9);
    for _ in 0..4 {
        assert_eq!(processor.process_image(&frame, 1, 5, 3, 0, None).unwrap(), none());
    }
}

#[test]
fn boxes_come_by_size_and_small_ones_are_dropped() {
    let mut processor = ImageProcessor::new(W, H);
    let near = with_square(with_square(black(), 2, 2, 4), 30, 30, 6);
    processor.process_blurred(&black(), 10, 0, 0, None);
    assert_eq!(
        processor.process_blurred(&near, 10, 0, 0, Some(false)),
        vec![[30, 30, 36, 36], [2, 2, 6, 6]]
    );
    assert_eq!(processor.process_blurred(&near, 10, 0, 16, Some(false)).len(), 2);
    assert_eq!(processor.process_blurred(&near, 10, 0, 17, Some(false)), vec![[30, 30, 36, 36]]);
    assert_eq!(processor.process_blurred(&near, 10, 0, 37, Some(false)), none());
}

#[test]
fn blobs_within_a_sixth_of_the_frame_are_merged() {
    // a sixth of forty pixels is six
    let mut processor = ImageProcessor::new(W, H);
    processor.process_blurred(&black(), 10, 0, 0, None);
    let frame = with_square(with_square(black(), 2, 2, 4), 12, 2, 4);
    assert_eq!(processor.process_blurred(&frame, 10, 0, 0, Some(false)), vec![[2, 2, 16, 6]]);
    let frame = with_square(with_square(black(), 2, 2, 4), 13, 2, 4);
    assert_eq!(
        processor.process_blurred(&frame, 10, 0, 0, Some(false)),
        vec![[2, 2, 6, 6], [13, 2, 17, 6]]
    );
}

#[test]
fn reference_can_be_kept() {
    let mut processor = ImageProcessor::new(W, H);
    let frame = with_square(black(), 10, 10, 10);
    processor.process_blurred(&black(), 10, 0, 0, None);
    for _ in 0..3 {
        assert_eq!(
            processor.process_blurred(&frame, 10, 0, 0, Some(false)),
            vec![[10, 10, 20, 20]]
        );
    }
    assert_eq!(processor.process_blurred(&frame, 10, 0, 0, Some(true)), vec![[10, 10, 20, 20]]);
    assert_eq!(processor.process_blurred(&frame, 10, 0, 0, None), none());
    assert_eq!(processor.process_blurred(&black(), 10, 0, 0, None), vec![[10, 10, 20, 20]]);
}

#[test]
fn flooded_frames_are_reported_whole_and_become_the_reference() {
    let mut processor = ImageProcessor::new(W, H);
    let white = vec![255u8; (W * H) as usize];
    processor.process_image(&black(), 50, 3, 0, 0, None).unwrap();
    assert_eq!(
        processor.process_image(&white, 50, 3, 0, 0, Some(false)).unwrap(),
        vec![[0, 0, W, H]]
    );
    assert_eq!(processor.process_image(&white, 50, 3, 0, 0, Some(false)).unwrap(), none());
}

#[test]
fn exactly_four_fifths_is_not_flooded() {
    let mut processor = ImageProcessor::new(10, 10);
    processor.process_blurred(&[0u8; 100], 10, 0, 0, None);
    let mut frame = vec![0u8; 100];
    frame[..80].fill(255);
    assert_eq!(processor.process_blurred(&frame, 10, 0, 0, Some(false)), vec![[0, 0, 10, 8]]);
    frame[80] = 255;
    assert_eq!(processor.process_blurred(&frame, 10, 0, 0, Some(false)), vec![[0, 0, 10, 10]]);
    assert_eq!(processor.process_blurred(&frame, 10, 0, 0, Some(false)), none());
}

#[test]
fn crowded_frames_are_reported_whole() {
    let mut processor = ImageProcessor::new(80, 80);
    processor.process_blurred(&vec![0u8; 6400], 10, 0, 0, None);
    let mut frame = vec![0u8; 6400];
    for y in (0..80).step_by(2) {
        for x in (0..80).step_by(2) {
            frame[y * 80 + x] = 255;
        }
    }
    let boxes = processor.process_blurred(&frame, 10, 0, u32::MAX, Some(false));
    assert_eq!(boxes, vec![[0, 0, 80, 80]]);
    assert_eq!(processor.process_blurred(&frame, 10, 0, 0, None), none());
}

#[test]
fn reset_makes_the_next_frame_a_first_one() {
    let mut used = ImageProcessor::new(W, H);
    let square = with_square(black(), 10, 10, 10);
    used.process_blurred(&square, 10, 0, 0, None);
    used.process_blurred(&black(), 10, 0, 0, None);
    used.process_blurred(&square, 10, 1, 0, Some(false));
    used.reset_state();
    let mut fresh = ImageProcessor::new(W, H);
    for frame in [&square, &black(), &square, &square] {
        assert_eq!(
            used.process_blurred(frame, 10, 1, 0, None),
            fresh.process_blurred(frame, 10, 1, 0, None)
        );
    }
}

#[test]
fn reconfigure_with_the_same_size_changes_nothing() {
    let mut processor = ImageProcessor::new(W, H);
    processor.process_blurred(&black(), 10, 0, 0, None);
    processor.reconfigure(W, H);
    let frame = with_square(black(), 10, 10, 10);
    assert_eq!(processor.process_blurred(&frame, 10, 0, 0, None), vec![[10, 10, 20, 20]]);
}

#[test]
fn reconfigure_with_a_new_size_starts_over() {
    let mut processor = ImageProcessor::new(W, H);
    processor.process_blurred(&black(), 10, 0, 0, None);
    processor.reconfigure(20, 10);
    assert_eq!((processor.width, processor.height), (20, 10));
    assert!(processor.process_image(&vec![0u8; 200], 50, 3, 0, 0, None).unwrap().is_empty());
    let mut frame = vec![0u8; 200];
    for y in 2..8 {
        for x in 4..12 {
            frame[y * 20 + x] = 255;
        }
    }
    assert_eq!(
        processor.process_image(&frame, 100, 3, 0, 0, None).unwrap(),
        vec![[4, 2, 12, 8]]
    );
    processor.reconfigure(W, H);
    assert!(processor.process_image(&black(), 50, 3, 0, 0, None).unwrap().is_empty());
    assert_eq!(
        processor.process_image(&with_square(black(), 9, 9, 9), 100, 3, 0, 0, None).unwrap(),
        vec![[9, 9, 18, 18]]
    );
}

#[test]
fn refused_frames_change_nothing() {
    let mut processor = ImageProcessor::new(W, H);
    processor.process_blurred(&black(), 10, 0, 0, None);
    let refused = processor.process_image(&[0u8; 7], 10, 3, 0, 0, None);
    match refused {
        Err(DetectorError::Blur(BlurError::MinimumSliceSizeMismatch(size))) => {
            assert_eq!((size.expected, size.received), (1600, 7));
        }
        other => panic!("{:?}", other),
    }
    assert!(processor.process_image(&black(), 10, 2, 0, 0, None).is_err());
    let frame = with_square(black(), 10, 10, 10);
    assert_eq!(processor.process_blurred(&frame, 10, 0, 0, None), vec![[10, 10, 20, 20]]);
}

#[test]
fn larger_sizes_set_by_hand_are_refused() {
    let mut processor = ImageProcessor::new(4, 4);
    processor.width = 5;
    let refused = processor.process_image(&[0u8; 20], 10, 3, 0, 0, None);
    match refused {
        Err(DetectorError::Blur(BlurError::MinimumSliceSizeMismatch(size))) => {
            assert_eq!((size.expected, size.received), (20, 16));
        }
        other => panic!("{:?}", other),
    }
}

#[test]
fn smaller_sizes_set_by_hand_are_used() {
    let mut processor = ImageProcessor::new(20, 20);
    processor.width = 10;
    processor.height = 10;
    assert!(processor.process_image(&[0u8; 100], 100, 3, 0, 0, None).unwrap().is_empty());
    let mut frame = vec![0u8; 100];
    for y in 3..7 {
        for x in 2..6 {
            frame[y * 10 + x] = 255;
        }
    }
    assert_eq!(
        processor.process_image(&frame, 100, 3, 0, 0, None).unwrap(),
        vec![[2, 3, 6, 7]]
    );
}

#[test]
fn empty_processor_refuses_frames() {
    let mut processor = ImageProcessor::new(0, 10);
    let refused = processor.process_image(&[], 10, 3, 0, 0, None);
    assert!(matches!(refused, Err(DetectorError::Blur(BlurError::ZeroBaseSize))));
}

#[test]
fn motion_lies_in_boxes_that_are_apart() {
    let mut processor = ImageProcessor::new(60, 36);
    let mut frames: Vec<Vec<u8>> = Vec::new();
    let mut seed: u32 = 11;
    for _ in 0..6 {
        let mut frame = vec![0u8; 60 * 36];
        for _ in 0..5 {
            seed = seed.wrapping_mul(1664525).wrapping_add(1013904223);
            frame[(seed >> 8) as usize % (60 * 36)] = 255;
        }
        frames.push(frame);
    }
    processor.process_blurred(&frames[0], 20, 1, 0, None);
    for pair in frames.windows(2) {
        let boxes = processor.process_blurred(&pair[1], 20, 1, 0, None);
        for i in 0..60 * 36 {
            if pair[0][i] != pair[1][i] {
                let (x, y) = ((i % 60) as u32, (i / 60) as u32);
                assert!(boxes.iter().any(|b| b[0] <= x && x < b[2] && b[1] <= y && y < b[3]));
            }
        }
        for (i, a) in boxes.iter().enumerate() {
            assert!(a[0] < a[2] && a[2] <= 60 && a[1] < a[3] && a[3] <= 36);
            for b in &boxes[i + 1..] {
                assert!(
                    a[0] > b[2] + 6 || b[0] > a[2] + 6 || a[1] > b[3] + 6 || b[1] > a[3] + 6
                );
            }
        }
    }
}

#[test]
fn frames_of_every_shape_can_be_blurred() {
    for (w, h) in [(1usize, 1usize), (1, 9), (9, 1), (2, 2), (33, 3), (3, 70), (64, 64), (130, 5)] {
        for kernel in [3u8, 7, 29, 61, 63, 255] {
            let input = vec![128u8; w * h];
            let mut output = vec![0u8; w * h + 3];
            ImageProcessor::gaussian_blur_static(&input, &mut output, w, h, kernel).unwrap();
            assert!(output[..w * h].iter().all(|v| (110..=140).contains(v)));
            assert_eq!(&output[w * h..], &[0, 0, 0]);
        }
    }
}

#[test]
fn a_lower_threshold_marks_more() {
    let mut frame = black();
    frame[50] = 20;
    frame[51] = 40;
    let mut low = black();
    ImageProcessor::detect_frame_differences(&frame, &black(), &mut low, 20);
    let mut high = black();
    ImageProcessor::detect_frame_differences(&frame, &black(), &mut high, 30);
    assert_eq!((low[50], low[51]), (255, 255));
    assert_eq!((high[50], high[51]), (0, 255));
}

#[test]
fn repeated_frames_are_silent_whatever_is_asked() {
    for (dilate_size, min_area, update) in [(0, 0, None), (3, 5, Some(false)), (9, 0, Some(true))] {
        let mut processor = ImageProcessor::new(W, H);
        processor.process_image(&black(), 10, 5, 0, 0, None).unwrap();
        let frame = with_square(black(), 4, 20, 7);
        assert_eq!(processor.process_image(&frame, 10, 5, 2, 0, None).unwrap().len(), 1);
        let again = processor.process_image(&frame, 1, 5, dilate_size, min_area, update).unwrap();
        assert_eq!(again, none());
    }
}

#[test]
fn unrecorded_frames_leave_no_trace() {
    let mut p = ImageProcessor::new(W, H);
    let mut q = ImageProcessor::new(W, H);
    let base = with_square(black(), 3, 3, 4);
    p.process_image(&base, 50, 3, 1, 0, None).unwrap();
    q.process_image(&base, 50, 3, 1, 0, None).unwrap();
    let passing = with_square(black(), 20, 20, 8);
    let boxes = p.process_image(&passing, 50, 3, 1, 0, Some(false)).unwrap();
    assert!(!boxes.is_empty() && boxes != vec![[0, 0, W, H]]);
    for frame in [with_square(black(), 10, 3, 5), passing.clone(), base.clone()] {
        assert_eq!(
            p.process_image(&frame, 50, 3, 2, 4, None).unwrap(),
            q.process_image(&frame, 50, 3, 2, 4, None).unwrap()
        );
    }
}

#[test]
fn resized_processors_answer_like_new_ones() {
    let mut used = ImageProcessor::new(17, 90);
    let noise: Vec<u8> = (0..17 * 90).map(|i| (i * 37 % 256) as u8).collect();
    used.process_image(&noise, 10, 3, 2, 0, None).unwrap();
    used.process_image(&vec![0u8; 17 * 90], 10, 3, 2, 0, None).unwrap();
    used.reconfigure(W, H);
    let mut fresh = ImageProcessor::new(W, H);
    let frames = [
        with_square(black(), 1, 1, 5),
        with_square(black(), 9, 9, 5),
        with_square(black(), 9, 9, 20),
    ];
    for round in 0..2 {
        for frame in &frames {
            assert_eq!(
                used.process_image(frame, 40, 3, 1, 0, Some(round == 0)).unwrap(),
                fresh.process_image(frame, 40, 3, 1, 0, Some(round == 0)).unwrap()
            );
        }
        used.reset_state();
        fresh = ImageProcessor::new(W, H);
    }
}

#[test]
fn exchanged_frames_show_the_same_motion() {
    let first = with_square(black(), 3, 3, 6);
    let second = with_square(black(), 25, 20, 9);
    let mut ahead = ImageProcessor::new(W, H);
    ahead.process_blurred(&first, 30, 1, 0, None);
    let mut back = ImageProcessor::new(W, H);
    back.process_blurred(&second, 30, 1, 0, None);
    assert_eq!(
        ahead.process_blurred(&second, 30, 1, 0, None),
        back.process_blurred(&first, 30, 1, 0, None)
    );
}

#[test]
fn boxes_are_tight() {
    let mut processor = ImageProcessor::new(W, H);
    processor.process_blurred(&black(), 10, 0, 0, None);
    let mut frame = black();
    for (x, y) in [(3, 8), (5, 4), (9, 6), (6, 11), (30, 30), (31, 30)] {
        frame[(y * W + x) as usize] = 200;
    }
    let boxes = processor.process_blurred(&frame, 10, 0, 0, None);
    assert_eq!(boxes, vec![[3, 4, 10, 12], [30, 30, 32, 31]]);
    for b in &boxes {
        let lit = |x: u32, y: u32| frame[(y * W + x) as usize] != 0;
        assert!((b[1]..b[3]).any(|y| lit(b[0], y)) && (b[1]..b[3]).any(|y| lit(b[2] - 1, y)));
        assert!((b[0]..b[2]).any(|x| lit(x, b[1])) && (b[0]..b[2]).any(|x| lit(x, b[3] - 1)));
    }
}

#[test]
fn reset_works_with_a_size_set_by_hand() {
    let mut used = ImageProcessor::new(30, 30);
    used.process_blurred(&vec![200u8; 900], 10, 0, 0, None);
    used.width = 20;
    used.height = 12;
    used.reset_state();
    let mut fresh = ImageProcessor::new(20, 12);
    let plain = vec![0u8; 240];
    let mut spot = plain.clone();
    for y in 4..8 {
        for x in 10..15 {
            spot[y * 20 + x] = 255;
        }
    }
    for frame in [&plain, &spot, &spot, &plain] {
        assert_eq!(
            used.process_image(frame, 90, 3, 1, 0, None).unwrap(),
            fresh.process_image(frame, 90, 3, 1, 0, None).unwrap()
        );
    }
}
