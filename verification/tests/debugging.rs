use rust_detector::render::draw_boxes;
use rust_detector::{BoundingBox, DebugImage, DebugStage, DebugStep, ImageProcessor};

const W: u32 = 40;
const H: u32 = 40;

fn square(x0: usize, y0: usize, side: usize) -> Vec<u8> {
    let mut frame = vec![0u8; (W * H) as usize];
    for y in y0..y0 + side {
        for x in x0..x0 + side {
            frame[y * W as usize + x] = 255;
        }
    }
    frame
}

fn run(
    processor: &mut ImageProcessor,
    frame: &[u8],
    dilate_size: u8,
    min_area: u32,
) -> (Vec<(String, Vec<u8>)>, Vec<BoundingBox>) {
    let mut saved = Vec::new();
    let mut image: DebugImage = processor.begin_debug(frame, 3, "cam").unwrap();
    loop {
        saved.push((image.name, image.pixels));
        match processor.continue_debug(image.stage, 100, dilate_size, min_area, "cam") {
            DebugStep::Save(next) => image = next,
            DebugStep::Done(boxes) => return (saved, boxes),
        }
    }
}

#[test]
fn first_frame_saves_the_blurred_picture_only() {
    let mut processor = ImageProcessor::new(W, H);
    let (saved, boxes) = run(&mut processor, &square(10, 10, 10), 0, 0);
    assert!(boxes.is_empty());
    assert_eq!(saved.len(), 1);
    assert_eq!(saved[0].0, "cam_1_blurred.png");
    assert_eq!(saved[0].1.len(), 1600);
    assert!(saved[0].1[15 * 40 + 15] > 240);
}

#[test]
fn later_frames_save_every_step() {
    let mut processor = ImageProcessor::new(W, H);
    run(&mut processor, &vec![0u8; 1600], 1, 0);
    let (saved, boxes) = run(&mut processor, &square(10, 12, 10), 1, 0);
    let names: Vec<&str> = saved.iter().map(|s| s.0.as_str()).collect();
    assert_eq!(
        names,
        vec![
            "cam_1_blurred.png",
            "cam_2_difference.png",
            "cam_3_dilated.png",
            "cam_4_bounding_boxes.png",
        ]
    );
    assert_eq!(boxes, vec![[9, 11, 21, 23]]);
    assert_eq!(saved[1].1, square(10, 12, 10));
    assert_eq!(saved[2].1, square(9, 11, 12));
    assert_eq!(saved[3].1, draw_boxes(&square(9, 11, 12), &boxes, W, H));
}

#[test]
fn steps_agree_with_processing_at_once() {
    let mut stepped = ImageProcessor::new(W, H);
    let mut direct = ImageProcessor::new(W, H);
    let frames = [square(0, 0, 5), square(10, 10, 10), square(30, 2, 6), square(30, 2, 6)];
    for frame in &frames {
        let (_, boxes) = run(&mut stepped, frame, 2, 3);
        assert_eq!(direct.process_image(frame, 100, 3, 2, 3, None).unwrap(), boxes);
    }
}

#[test]
fn flooded_frames_keep_their_clusters_in_steps() {
    let mut stepped = ImageProcessor::new(W, H);
    run(&mut stepped, &vec![0u8; 1600], 0, 0);
    let mut frame = vec![255u8; 1600];
    frame[..120].fill(0);
    let (_, boxes) = run(&mut stepped, &frame, 0, 0);
    assert_eq!(boxes, vec![[0, 3, 40, 40]]);
    let mut direct = ImageProcessor::new(W, H);
    direct.process_image(&vec![0u8; 1600], 100, 3, 0, 0, None).unwrap();
    assert_eq!(direct.process_image(&frame, 100, 3, 0, 0, None).unwrap(), vec![[0, 0, 40, 40]]);
}

#[test]
fn crowded_frames_are_drawn_whole() {
    let mut processor = ImageProcessor::new(80, 80);
    processor.process_blurred(&vec![0u8; 6400], 10, 0, 0, None);
    let mut frame = vec![0u8; 6400];
    for y in (0..80).step_by(2) {
        for x in (0..80).step_by(2) {
            frame[y * 80 + x] = 255;
        }
    }
    processor.process_blurred(&frame, 10, 0, 0, None);
    match processor.continue_debug(DebugStage::Dilated, 0, 0, 0, "p") {
        DebugStep::Save(image) => {
            assert_eq!(image.name, "p_4_bounding_boxes.png");
            assert!(matches!(image.stage, DebugStage::Boxes(boxes) if boxes == vec![[0, 0, 80, 80]]));
        }
        other => panic!("{:?}", other),
    }
}

#[test]
fn refused_frames_give_no_picture() {
    let mut processor = ImageProcessor::new(W, H);
    assert!(processor.begin_debug(&[0u8; 3], 3, "cam").is_err());
    assert!(processor.begin_debug(&vec![0u8; 1600], 2, "cam").is_err());
}

#[test]
fn outlines_are_red_on_gray() {
    let data = vec![7u8; 5 * 4];
    let pixels = draw_boxes(&data, &vec![[1, 0, 4, 3]], 5, 4);
    assert_eq!(pixels.len(), 60);
    for y in 0..4usize {
        for x in 0..5usize {
            let at = 3 * (y * 5 + x);
            let edge = (1..4).contains(&x) && (0..3).contains(&y) && !(x == 2 && y == 1);
            let expected: [u8; 3] = if edge { [255, 0, 0] } else { [7, 7, 7] };
            assert_eq!(&pixels[at..at + 3], &expected);
        }
    }
}

#[test]
fn pixels_without_data_are_black() {
    assert_eq!(draw_boxes(&[9], &Vec::new(), 2, 1), vec![9, 9, 9, 0, 0, 0]);
    assert!(draw_boxes(&[], &Vec::new(), 0, 0).is_empty());
}

#[test]
fn boxes_outside_the_frame_leave_no_mark() {
    let pixels = draw_boxes(&[1, 2], &vec![[5, 5, 5, 9], [5, 5, 6, 6]], 2, 1);
    assert_eq!(pixels, vec![1, 1, 1, 2, 2, 2]);
}

#[test]
fn drawing_order_does_not_show() {
    let data: Vec<u8> = (0..120).collect();
    let boxes: Vec<BoundingBox> = vec![[0, 0, 5, 5], [3, 2, 9, 8], [1, 1, 2, 2]];
    let mut turned = boxes.clone();
    turned.reverse();
    turned.push([3, 2, 9, 8]);
    assert_eq!(draw_boxes(&data, &boxes, 12, 10), draw_boxes(&data, &turned, 12, 10));
}
