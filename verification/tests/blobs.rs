use rust_detector::bitset::{clear_bits, get_bit, set_bit};
use rust_detector::blobs::{find_blobs, flood_fill, Blob, MAX_RAW_BLOBS};

fn blob(min_x: u32, min_y: u32, max_x: u32, max_y: u32, area: u32) -> Blob {
    Blob { min_x, min_y, max_x, max_y, area }
}

fn search(data: &[u8], width: usize, height: usize, stride: Option<usize>) -> Vec<Blob> {
    let mut stack: Vec<(usize, usize)> = Vec::new();
    let mut visited = vec![u64::MAX; (width * height + 63) / 64];
    find_blobs(data, width, height, stride, &mut stack, &mut visited)
}

#[test]
fn bits_are_set_one_by_one() {
    let mut words = vec![0u64; 2];
    set_bit(&mut words, 3);
    set_bit(&mut words, 64);
    assert_eq!(words, vec![8, 1]);
    assert!(get_bit(&words, 3));
    assert!(get_bit(&words, 64));
    assert!(!get_bit(&words, 2));
    assert!(!get_bit(&words, 127));
    clear_bits(&mut words);
    assert_eq!(words, vec![0, 0]);
}

#[test]
fn fill_counts_and_bounds_a_group() {
    let data = [
        0, 255, 255, 0,
        0, 0, 255, 0,
        255, 0, 0, 255,
    ];
    let mut stack = vec![(9, 9)];
    let mut visited = vec![0u64; 1];
    let found = flood_fill(&data, 4, 3, 4, 0, 1, &mut stack, &mut visited);
    assert_eq!(found, (1, 0, 2, 1, 3));
    assert!(stack.is_empty());
    assert_eq!(visited[0], (1 << 1) | (1 << 2) | (1 << 6));
}

#[test]
fn fill_stops_at_marked_pixels() {
    let data = [255u8; 5];
    let mut stack = Vec::new();
    let mut visited = vec![1u64 << 2];
    let found = flood_fill(&data, 5, 1, 5, 0, 0, &mut stack, &mut visited);
    assert_eq!(found, (0, 0, 1, 0, 2));
    assert_eq!(visited[0], 0b111);
}

#[test]
fn fill_counts_its_start_whatever_it_holds() {
    let data = [0u8, 255, 0];
    let mut stack = Vec::new();
    let mut visited = vec![0u64; 1];
    let found = flood_fill(&data, 3, 1, 3, 0, 0, &mut stack, &mut visited);
    assert_eq!(found, (0, 0, 1, 0, 2));
}

#[test]
fn blobs_come_in_raster_order() {
    let data = [
        0, 0, 0, 255,
        255, 255, 0, 0,
        0, 0, 254, 255,
    ];
    assert_eq!(
        search(&data, 4, 3, None),
        vec![blob(3, 0, 4, 1, 1), blob(0, 1, 2, 2, 2), blob(3, 2, 4, 3, 1)]
    );
}

#[test]
fn diagonal_neighbours_are_apart() {
    let data = [255, 0, 0, 255];
    assert_eq!(search(&data, 2, 2, None), vec![blob(0, 0, 1, 1, 1), blob(1, 1, 2, 2, 1)]);
}

#[test]
fn rings_are_one_blob() {
    let data = [
        255, 255, 255,
        255, 0, 255,
        255, 255, 255,
    ];
    assert_eq!(search(&data, 3, 3, None), vec![blob(0, 0, 3, 3, 8)]);
}

#[test]
fn rows_wider_than_a_block_are_searched_whole() {
    let mut data = vec![0u8; 40 * 2];
    data[31] = 255;
    data[32] = 255;
    data[40 + 39] = 255;
    assert_eq!(search(&data, 40, 2, None), vec![blob(31, 0, 33, 1, 2), blob(39, 1, 40, 2, 1)]);
}

#[test]
fn stride_skips_what_lies_between_rows() {
    let data = [255, 0, 255, 255, 255, 0, 255, 255];
    assert_eq!(search(&data, 2, 2, Some(5)), vec![blob(0, 0, 1, 1, 1), blob(1, 1, 2, 2, 1)]);
    let data = [255, 0, 255, 255, 255, 255, 0, 255];
    assert_eq!(search(&data, 2, 2, Some(5)), vec![blob(0, 0, 1, 2, 2)]);
}

#[test]
fn stack_is_kept_where_nothing_is_found() {
    let mut stack = vec![(1, 2)];
    let mut visited = vec![u64::MAX; 1];
    let blobs = find_blobs(&[0u8; 4], 2, 2, None, &mut stack, &mut visited);
    assert!(blobs.is_empty());
    assert_eq!(stack, vec![(1, 2)]);
    assert_eq!(visited, vec![0]);
}

#[test]
fn search_stops_past_the_limit() {
    let mut data = vec![0u8; 80 * 80];
    for y in (0..80).step_by(2) {
        for x in (0..80).step_by(2) {
            data[y * 80 + x] = 255;
        }
    }
    let blobs = search(&data, 80, 80, None);
    assert_eq!(blobs.len(), MAX_RAW_BLOBS + 1);
    assert_eq!(blobs[1000], blob(0, 50, 1, 51, 1));
}

#[test]
fn areas_add_up_to_the_foreground() {
    let mut data = vec![0u8; 50 * 30];
    let mut seed: u32 = 7;
    for value in data.iter_mut() {
        seed = seed.wrapping_mul(1664525).wrapping_add(1013904223);
        if seed >> 30 == 0 {
            *value = 255;
        }
    }
    let lit = data.iter().filter(|v| **v == 255).count() as u32;
    let blobs = search(&data, 50, 30, None);
    assert!(blobs.len() <= MAX_RAW_BLOBS);
    assert_eq!(blobs.iter().map(|b| b.area).sum::<u32>(), lit);
    for b in &blobs {
        assert!(b.min_x < b.max_x && b.max_x <= 50);
        assert!(b.min_y < b.max_y && b.max_y <= 30);
    }
}

#[test]
fn empty_frames_have_no_blobs() {
    assert!(search(&[], 0, 0, None).is_empty());
    assert!(search(&[], 5, 0, None).is_empty());
    assert!(search(&[], 0, 5, None).is_empty());
}

#[test]
fn fill_does_not_depend_on_its_start() {
    let data = [
        255, 255, 0, 255, //
        0, 255, 0, 255, //
        0, 255, 255, 255,
    ];
    let mut results = Vec::new();
    for start in [(0, 0), (0, 3), (1, 1), (2, 2)] {
        let mut stack = Vec::new();
        let mut visited = vec![1u64 << 2 | 1 << 40];
        let found = flood_fill(&data, 4, 3, 4, start.0, start.1, &mut stack, &mut visited);
        results.push((found, visited));
    }
    assert_eq!(results[0].0, (0, 0, 3, 2, 8));
    for result in &results[1..] {
        assert_eq!(*result, results[0]);
    }
}

#[test]
fn search_forgets_what_stack_and_marks_held() {
    let data = [255, 0, 254, 255, 255, 0, 0, 0, 255];
    let mut stack = vec![(3, 4), (5, 6)];
    let mut visited = vec![u64::MAX, 12345];
    let first = find_blobs(&data, 3, 3, None, &mut stack, &mut visited);
    let mut clean_stack = Vec::new();
    let mut clean = vec![0u64; 2];
    let second = find_blobs(&data, 3, 3, None, &mut clean_stack, &mut clean);
    assert_eq!(first, second);
    assert_eq!(visited, clean);
    let mut foreground = vec![0u64; 2];
    for (i, value) in data.iter().enumerate() {
        if *value == 255 {
            set_bit(&mut foreground, i);
        }
    }
    assert_eq!(visited, foreground);
}
