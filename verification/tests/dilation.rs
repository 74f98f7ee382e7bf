use rust_detector::dilate::dilate_binary_box;
use rust_detector::ImageProcessor;

fn dilate(data: &[u8], width: usize, height: usize, r: usize) -> Vec<u8> {
    let mut scratch = vec![77u8; data.len()];
    let mut output = vec![88u8; data.len()];
    dilate_binary_box(data, &mut scratch, &mut output, width, height, r);
    output
}

#[test]
fn radius_zero_copies() {
    let data = [1, 2, 0, 255];
    assert_eq!(dilate(&data, 2, 2, 0), vec![1, 2, 0, 255]);
}

#[test]
fn radius_zero_leaves_the_scratch_alone() {
    let mut scratch = vec![7u8; 4];
    let mut output = vec![0u8; 4];
    dilate_binary_box(&[9u8; 4], &mut scratch, &mut output, 2, 2, 0);
    assert_eq!(scratch, vec![7; 4]);
    assert_eq!(output, vec![9; 4]);
}

#[test]
fn one_pixel_grows_into_a_square() {
    let mut data = vec![0u8; 25];
    data[2 * 5 + 2] = 255;
    let expected = vec![
        0, 0, 0, 0, 0,
        0, 255, 255, 255, 0,
        0, 255, 255, 255, 0,
        0, 255, 255, 255, 0,
        0, 0, 0, 0, 0,
    ];
    assert_eq!(dilate(&data, 5, 5, 1), expected);
    assert_eq!(dilate(&data, 5, 5, 2), vec![255; 25]);
}

#[test]
fn squares_are_cut_at_the_frame() {
    let mut data = vec![0u8; 12];
    data[0] = 255;
    let expected = vec![
        255, 255, 0, 0,
        255, 255, 0, 0,
        0, 0, 0, 0,
    ];
    assert_eq!(dilate(&data, 4, 3, 1), expected);
}

#[test]
fn binary_frames_grow_by_the_distance() {
    let (width, height) = (75usize, 20usize);
    let mut data = vec![0u8; width * height];
    let mut seed: u32 = 3;
    for value in data.iter_mut() {
        seed = seed.wrapping_mul(1664525).wrapping_add(1013904223);
        if seed >> 25 == 0 {
            *value = 255;
        }
    }
    for r in [1usize, 2, 5, 17, 30] {
        let result = dilate(&data, width, height, r);
        for y in 0..height {
            for x in 0..width {
                let near = (0..height).any(|v| {
                    (0..width)
                        .any(|u| data[v * width + u] == 255 && y.abs_diff(v) <= r && x.abs_diff(u) <= r)
                });
                assert_eq!(result[y * width + x], if near { 255 } else { 0 });
            }
        }
    }
}

#[test]
fn other_values_are_kept_in_blocks_and_raised_elsewhere() {
    // with radius one and forty columns, columns 1 to 32 form a block
    let mut data = vec![0u8; 40];
    data[5] = 3;
    data[6] = 4;
    data[35] = 3;
    let result = dilate(&data, 40, 1, 1);
    let mut expected = vec![0u8; 40];
    expected[4] = 3;
    expected[5] = 7;
    expected[6] = 7;
    expected[7] = 4;
    expected[34] = 255;
    expected[35] = 255;
    expected[36] = 255;
    assert_eq!(result, expected);
}

#[test]
fn narrow_frames_have_no_blocks() {
    let mut data = vec![0u8; 33];
    data[5] = 3;
    let result = dilate(&data, 33, 1, 1);
    assert_eq!(&result[4..7], &[255, 255, 255]);
    let mut wide = vec![0u8; 34];
    wide[5] = 3;
    assert_eq!(&dilate(&wide, 34, 1, 1)[4..7], &[3, 3, 3]);
}

#[test]
fn what_lies_behind_the_frame_stays() {
    let input = [255u8, 0, 0, 0, 9];
    let mut scratch = vec![5u8; 6];
    let mut output = vec![6u8; 6];
    dilate_binary_box(&input, &mut scratch, &mut output, 2, 2, 1);
    assert_eq!(output, vec![255, 255, 255, 255, 6, 6]);
    assert_eq!(scratch, vec![255, 255, 0, 0, 5, 5]);
}

#[test]
fn differences_from_the_threshold_on_are_marked() {
    let mut output = vec![1u8; 6];
    ImageProcessor::detect_frame_differences(
        &[10, 20, 30, 255, 0],
        &[14, 15, 30, 0, 255],
        &mut output,
        5,
    );
    assert_eq!(output, vec![0, 255, 0, 255, 255, 1]);
}

#[test]
fn long_frames_are_compared_to_the_end() {
    let current: Vec<u8> = (0..70).collect();
    let previous = vec![35u8; 70];
    let mut output = vec![9u8; 70];
    ImageProcessor::detect_frame_differences(&current, &previous, &mut output, 30);
    for i in 0..70u8 {
        let expected = if i <= 5 || i >= 65 { 255 } else { 0 };
        assert_eq!(output[i as usize], expected);
    }
    let mut turned = vec![9u8; 70];
    ImageProcessor::detect_frame_differences(&previous, &current, &mut turned, 30);
    assert_eq!(output, turned);
}

#[test]
fn a_frame_differs_from_itself_only_at_threshold_zero() {
    let frame = [1u8, 2, 3];
    let mut output = vec![0u8; 3];
    ImageProcessor::detect_frame_differences(&frame, &frame, &mut output, 0);
    assert_eq!(output, vec![255; 3]);
    ImageProcessor::detect_frame_differences(&frame, &frame, &mut output, 1);
    assert_eq!(output, vec![0; 3]);
}

fn mask(len: usize, mut seed: u32) -> Vec<u8> {
    let mut bytes = vec![0u8; len];
    for value in bytes.iter_mut() {
        seed = seed.wrapping_mul(1664525).wrapping_add(1013904223);
        if seed >> 26 == 0 {
            *value = 255;
        }
    }
    bytes
}

#[test]
fn dilating_twice_adds_the_radii() {
    let m = mask(70 * 15, 9);
    for (a, b) in [(0usize, 3usize), (1, 1), (2, 5), (4, 0), (9, 20)] {
        let once = dilate(&m, 70, 15, a);
        assert_eq!(dilate(&once, 70, 15, b), dilate(&m, 70, 15, a + b));
    }
}

#[test]
fn dilating_masks_together_or_apart_is_the_same() {
    let m = mask(70 * 15, 1);
    let n = mask(70 * 15, 2);
    let both: Vec<u8> = m.iter().zip(&n).map(|(x, y)| x | y).collect();
    for r in [0usize, 1, 3, 8] {
        let dm = dilate(&m, 70, 15, r);
        let dn = dilate(&n, 70, 15, r);
        let or: Vec<u8> = dm.iter().zip(&dn).map(|(x, y)| x | y).collect();
        assert_eq!(dilate(&both, 70, 15, r), or);
        assert!(m.iter().zip(&dm).all(|(x, y)| *x == 0 || *y == 255));
    }
}
