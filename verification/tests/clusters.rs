use rust_detector::blobs::{find_blobs, Blob};
use rust_detector::cluster::{boxes_touch_padded, cluster_blobs, merge_into};
use rust_detector::coverage::{box_coverage, covers_too_much};

fn blob(min_x: u32, min_y: u32, max_x: u32, max_y: u32, area: u32) -> Blob {
    Blob { min_x, min_y, max_x, max_y, area }
}

#[test]
fn boxes_touch_within_the_padding() {
    let a = blob(0, 0, 10, 10, 1);
    assert!(boxes_touch_padded(&a, &blob(13, 0, 20, 10, 1), 3));
    assert!(!boxes_touch_padded(&a, &blob(14, 0, 20, 10, 1), 3));
    assert!(boxes_touch_padded(&blob(0, 13, 10, 20, 1), &a, 3));
    assert!(!boxes_touch_padded(&blob(0, 14, 10, 20, 1), &a, 3));
    assert!(boxes_touch_padded(&a, &blob(10, 10, 11, 11, 1), 0));
}

#[test]
fn padding_saturates() {
    let far = blob(u32::MAX - 1, u32::MAX - 1, u32::MAX, u32::MAX, 1);
    assert!(boxes_touch_padded(&far, &blob(0, 0, 1, 1, 1), u32::MAX));
    assert!(!boxes_touch_padded(&far, &blob(0, 0, 1, 1, 1), 5));
}

#[test]
fn merging_takes_the_outer_bounds() {
    let mut a = blob(5, 6, 7, 8, 2);
    merge_into(&mut a, &blob(1, 7, 6, 20, 3));
    assert_eq!(a, blob(1, 6, 7, 20, 5));
}

#[test]
fn near_blobs_become_one_cluster() {
    let blobs = vec![blob(0, 0, 2, 2, 4), blob(4, 0, 6, 2, 4), blob(50, 50, 60, 60, 100)];
    assert_eq!(
        cluster_blobs(blobs, 2, 0),
        vec![blob(50, 50, 60, 60, 100), blob(0, 0, 6, 2, 8)]
    );
}

#[test]
fn clusters_merge_until_none_are_near() {
    // the third blob joins the first two, which then come near the fourth
    let blobs = vec![
        blob(0, 0, 1, 1, 1),
        blob(10, 0, 11, 1, 1),
        blob(0, 20, 1, 21, 1),
        blob(1, 1, 10, 2, 9),
        blob(11, 0, 12, 20, 20),
    ];
    assert_eq!(cluster_blobs(blobs, 0, 0), vec![blob(0, 0, 12, 21, 32)]);
}

#[test]
fn order_of_blobs_does_not_matter() {
    let blobs = vec![
        blob(0, 0, 3, 3, 9),
        blob(20, 0, 23, 3, 9),
        blob(4, 4, 8, 8, 16),
        blob(24, 4, 26, 6, 4),
        blob(40, 40, 41, 41, 1),
    ];
    let mut turned = blobs.clone();
    turned.reverse();
    let bounds = |list: Vec<Blob>| {
        let mut all: Vec<[u32; 5]> =
            list.iter().map(|c| [c.min_x, c.min_y, c.max_x, c.max_y, c.area]).collect();
        all.sort();
        all
    };
    assert_eq!(bounds(cluster_blobs(blobs, 1, 0)), bounds(cluster_blobs(turned, 1, 0)));
}

#[test]
fn small_clusters_are_dropped_by_their_merged_area() {
    let blobs = vec![blob(0, 0, 1, 1, 3), blob(2, 0, 3, 1, 3), blob(30, 30, 31, 31, 5)];
    assert_eq!(cluster_blobs(blobs, 1, 6), vec![blob(0, 0, 3, 1, 6)]);
}

#[test]
fn clusters_of_equal_area_keep_their_order() {
    let blobs = vec![
        blob(0, 0, 1, 1, 2),
        blob(10, 0, 11, 1, 3),
        blob(20, 0, 21, 1, 2),
        blob(30, 0, 31, 1, 3),
    ];
    assert_eq!(
        cluster_blobs(blobs, 0, 0),
        vec![
            blob(10, 0, 11, 1, 3),
            blob(30, 0, 31, 1, 3),
            blob(0, 0, 1, 1, 2),
            blob(20, 0, 21, 1, 2),
        ]
    );
}

#[test]
fn no_blobs_no_clusters() {
    assert!(cluster_blobs(Vec::new(), 3, 0).is_empty());
}

#[test]
fn coverage_adds_up_box_sizes() {
    let clusters = vec![blob(0, 0, 4, 5, 1), blob(10, 10, 13, 11, 1)];
    assert_eq!(box_coverage(&clusters), 23);
    let covered = {
        let mut seen = [[false; 20]; 20];
        for c in &clusters {
            for y in c.min_y..c.max_y {
                for x in c.min_x..c.max_x {
                    seen[y as usize][x as usize] = true;
                }
            }
        }
        seen.iter().flatten().filter(|s| **s).count() as u64
    };
    assert_eq!(covered, 23);
    assert_eq!(box_coverage(&Vec::new()), 0);
    assert_eq!(
        box_coverage(&vec![blob(0, 0, u32::MAX, u32::MAX, 1)]),
        (u32::MAX as u64) * (u32::MAX as u64)
    );
}

#[test]
fn four_fifths_is_the_limit() {
    assert!(!covers_too_much(80, 10, 10));
    assert!(covers_too_much(81, 10, 10));
    assert!(!covers_too_much(0, 0, 0));
    assert!(covers_too_much(1, 0, 0));
    assert!(covers_too_much(u64::MAX, u32::MAX, u32::MAX));
}

#[test]
fn limit_agrees_with_floating_point() {
    const MAX_COVERAGE: f64 = 0.8;
    let sizes = [
        1u32, 2, 3, 5, 6, 7, 10, 25, 63, 99, 100, 125, 319, 320, 333, 480, 639, 640, 641, 720,
        1079, 1080, 1280, 1920, 2160, 3840, 4095, 4096, 65535,
    ];
    for w in sizes {
        for h in sizes {
            let pixels = w as u64 * h as u64;
            let edge = pixels * 4 / 5;
            for covered in [0, edge.saturating_sub(1), edge, edge + 1, pixels] {
                let by_float = covered as f64 > MAX_COVERAGE * (w as f64) * (h as f64);
                assert_eq!(covers_too_much(covered, w, h), by_float);
            }
        }
    }
}

#[test]
fn clusters_hold_the_foreground_of_their_boxes() {
    let (width, height) = (64usize, 48usize);
    let mut data = vec![0u8; width * height];
    let mut seed: u32 = 5;
    for value in data.iter_mut() {
        seed = seed.wrapping_mul(1664525).wrapping_add(1013904223);
        if seed >> 25 == 0 {
            *value = 255;
        }
    }
    let mut stack: Vec<(usize, usize)> = Vec::new();
    let mut visited = vec![0u64; width * height / 64];
    let blobs = find_blobs(&data, width, height, None, &mut stack, &mut visited);
    let total: u32 = blobs.iter().map(|b| b.area).sum();
    for pad in [0u32, 1, 3, 8] {
        let clusters = cluster_blobs(blobs.clone(), pad, 0);
        assert_eq!(clusters.iter().map(|c| c.area).sum::<u32>(), total);
        for (i, c) in clusters.iter().enumerate() {
            let mut count = 0;
            for y in c.min_y..c.max_y {
                for x in c.min_x..c.max_x {
                    if data[y as usize * width + x as usize] == 255 {
                        count += 1;
                    }
                }
            }
            assert_eq!(c.area, count);
            for d in &clusters[i + 1..] {
                assert!(!boxes_touch_padded(c, d, pad));
                assert!(c.area >= d.area);
            }
        }
        for b in &blobs {
            assert!(clusters.iter().any(|c| {
                c.min_x <= b.min_x && c.min_y <= b.min_y && b.max_x <= c.max_x && b.max_y <= c.max_y
            }));
        }
    }
}

#[test]
fn clusters_are_the_tightest_cover() {
    // boxes that keep more than three pixels apart and hold the blobs
    let blobs = vec![blob(1, 1, 3, 3, 4), blob(5, 2, 6, 4, 2), blob(20, 20, 22, 23, 6)];
    let cover = [blob(0, 0, 9, 9, 0), blob(18, 18, 30, 30, 0)];
    assert!(!boxes_touch_padded(&cover[0], &cover[1], 3));
    let clusters = cluster_blobs(blobs, 3, 0);
    assert_eq!(clusters, vec![blob(1, 1, 6, 4, 6), blob(20, 20, 22, 23, 6)]);
    for c in &clusters {
        assert!(cover.iter().any(|k| {
            k.min_x <= c.min_x && k.min_y <= c.min_y && c.max_x <= k.max_x && c.max_y <= k.max_y
        }));
    }
}

#[test]
fn reordered_blobs_give_the_same_clusters() {
    // the last one is turned inside out
    let mut blobs = vec![
        blob(0, 0, 3, 3, 9),
        blob(2, 9, 4, 12, 6),
        blob(5, 5, 8, 8, 7),
        blob(30, 30, 33, 31, 3),
        blob(12, 1, 13, 2, 1),
        blob(20, 9, 10, 3, 2),
    ];
    let sorted = |list: Vec<Blob>| {
        let mut all: Vec<[u32; 5]> =
            list.iter().map(|c| [c.min_x, c.min_y, c.max_x, c.max_y, c.area]).collect();
        all.sort();
        all
    };
    for pad in [0u32, 1, 2, 3, 5] {
        let expected = sorted(cluster_blobs(blobs.clone(), pad, 3));
        for _ in 0..6 {
            blobs.rotate_left(1);
            assert_eq!(sorted(cluster_blobs(blobs.clone(), pad, 3)), expected);
            blobs.swap(1, 4);
            assert_eq!(sorted(cluster_blobs(blobs.clone(), pad, 3)), expected);
        }
    }
}

#[test]
fn clusters_cluster_to_themselves() {
    let blobs = vec![
        blob(0, 0, 2, 2, 4),
        blob(4, 0, 6, 2, 3),
        blob(20, 20, 30, 30, 50),
        blob(10, 0, 11, 1, 1),
    ];
    let once = cluster_blobs(blobs, 2, 0);
    assert_eq!(once.len(), 3);
    assert_eq!(cluster_blobs(once.clone(), 2, 0), once);
    let wider = cluster_blobs(once.clone(), 4, 0);
    assert_eq!(wider, vec![blob(20, 20, 30, 30, 50), blob(0, 0, 11, 2, 8)]);
}

#[test]
fn a_higher_limit_only_drops_clusters() {
    let blobs = vec![
        blob(0, 0, 2, 2, 4),
        blob(3, 0, 5, 2, 3),
        blob(20, 20, 30, 30, 50),
        blob(40, 0, 41, 1, 4),
        blob(60, 0, 61, 1, 4),
        blob(80, 0, 81, 1, 1),
    ];
    let all = cluster_blobs(blobs.clone(), 1, 2);
    for limit in [2u32, 4, 5, 7, 8, 51] {
        let kept: Vec<Blob> = all.iter().filter(|c| c.area >= limit).cloned().collect();
        assert_eq!(cluster_blobs(blobs.clone(), 1, limit), kept);
        assert_eq!(cluster_blobs(kept.clone(), 1, limit), kept);
    }
}
