use cam_granular::tracker::{Blob, MotionTracker};

fn frame(w: usize, h: usize, bright: &[(usize, usize, usize, usize)]) -> Vec<u8> {
    let mut rgb = vec![0u8; w * h * 3];
    for &(x1, y1, x2, y2) in bright {
        for y in y1..y2 {
            for x in x1..x2 {
                let i = (y * w + x) * 3;
                rgb[i] = 255;
                rgb[i + 1] = 255;
                rgb[i + 2] = 255;
            }
        }
    }
    rgb
}

#[test]
fn first_frame_is_only_remembered() {
    let mut t = MotionTracker::new();
    let f = frame(16, 16, &[(4, 4, 8, 8)]);
    assert!(t.detect(&f, 16, 16, 2).is_empty());
}

#[test]
fn still_scene_reports_nothing() {
    let mut t = MotionTracker::new();
    let f = frame(16, 16, &[(4, 4, 8, 8)]);
    t.detect(&f, 16, 16, 2);
    assert!(t.detect(&f, 16, 16, 2).is_empty());
    assert!(t.detect(&f, 16, 16, 2).is_empty());
}

#[test]
fn moving_patch_becomes_one_blob() {
    let mut t = MotionTracker::new();
    t.detect(&frame(16, 16, &[]), 16, 16, 2);
    let blobs = t.detect(&frame(16, 16, &[(4, 4, 8, 8)]), 16, 16, 2);
    assert_eq!(blobs.len(), 1);
    let b: Blob = blobs[0];
    assert_eq!(b.label, 0);
    assert_eq!(b.pixels, 16);
    assert_eq!(b.sum_x, 40);
    assert_eq!(b.sum_y, 40);
    assert_eq!((b.min_x, b.max_x, b.min_y, b.max_y), (2, 10, 2, 10));
}

#[test]
fn blobs_come_largest_first() {
    let mut t = MotionTracker::new();
    t.detect(&frame(32, 32, &[]), 32, 32, 2);
    // a small patch near the top-left, a larger one near the bottom-right
    let blobs = t.detect(&frame(32, 32, &[(2, 2, 4, 4), (16, 16, 26, 26)]), 32, 32, 2);
    assert_eq!(blobs.len(), 2);
    assert!(blobs[0].pixels > blobs[1].pixels);
    assert_eq!(blobs[0].label, 1);
    assert_eq!(blobs[1].label, 0);
    // the small patch samples one cell, grown to a 3x3 square
    assert_eq!(blobs[1].pixels, 9);
    assert_eq!((blobs[1].min_x, blobs[1].max_x), (0, 6));
}

#[test]
fn equal_sizes_keep_raster_order() {
    let mut t = MotionTracker::new();
    t.detect(&frame(32, 32, &[]), 32, 32, 2);
    let blobs = t.detect(&frame(32, 32, &[(20, 4, 22, 6), (4, 20, 6, 22)]), 32, 32, 2);
    assert_eq!(blobs.len(), 2);
    assert_eq!(blobs[0].pixels, blobs[1].pixels);
    assert_eq!(blobs[0].label, 0);
    assert_eq!(blobs[1].label, 1);
    assert!(blobs[0].min_y < blobs[1].min_y);
}

#[test]
fn motion_back_to_the_old_frame_is_seen_again() {
    let mut t = MotionTracker::new();
    let a = frame(16, 16, &[]);
    let b = frame(16, 16, &[(4, 4, 8, 8)]);
    t.detect(&a, 16, 16, 2);
    assert_eq!(t.detect(&b, 16, 16, 2).len(), 1);
    assert_eq!(t.detect(&a, 16, 16, 2).len(), 1);
}

#[test]
fn size_change_starts_over() {
    let mut t = MotionTracker::new();
    t.detect(&frame(16, 16, &[]), 16, 16, 2);
    assert!(t.detect(&frame(20, 16, &[(4, 4, 8, 8)]), 20, 16, 2).is_empty());
    assert!(t.detect(&frame(20, 16, &[(4, 4, 8, 8)]), 20, 16, 2).is_empty());
}

#[test]
fn step_below_two_samples_every_other_pixel() {
    let mut t1 = MotionTracker::new();
    let mut t2 = MotionTracker::new();
    let a = frame(16, 16, &[]);
    let b = frame(16, 16, &[(4, 4, 8, 8)]);
    t1.detect(&a, 16, 16, 0);
    t2.detect(&a, 16, 16, 2);
    let r1 = t1.detect(&b, 16, 16, 0);
    let r2 = t2.detect(&b, 16, 16, 2);
    assert_eq!(r1.len(), r2.len());
    assert_eq!(r1[0].pixels, r2[0].pixels);
}

#[test]
fn grid_too_small_reports_nothing_and_keeps_previous_frame() {
    let mut t = MotionTracker::new();
    let a = frame(6, 6, &[]);
    let b = frame(6, 6, &[(0, 0, 6, 6)]);
    t.detect(&a, 6, 6, 4);
    assert!(t.detect(&b, 6, 6, 4).is_empty());
    // the previous frame is still `a`, so with a finer grid the change shows
    assert_eq!(t.detect(&b, 6, 6, 2).len(), 1);
}

#[test]
fn small_difference_is_not_motion() {
    let mut t = MotionTracker::new();
    let a = vec![100u8; 16 * 16 * 3];
    let b = vec![125u8; 16 * 16 * 3];
    let c = vec![126u8; 16 * 16 * 3];
    t.detect(&a, 16, 16, 2);
    assert!(t.detect(&b, 16, 16, 2).is_empty());
    let blobs = t.detect(&c, 16, 16, 2);
    assert!(blobs.is_empty());
    let mut t2 = MotionTracker::new();
    t2.detect(&a, 16, 16, 2);
    let whole = t2.detect(&c, 16, 16, 2);
    assert_eq!(whole.len(), 1);
    assert_eq!(whole[0].pixels, 64);
}

#[test]
fn tracker_state_getters() {
    let mut t = MotionTracker::new();
    assert!(!t.is_primed());
    assert_eq!(t.previous_len(), 0);
    t.detect(&frame(8, 4, &[]), 8, 4, 2);
    assert!(t.is_primed());
    assert_eq!(t.previous_len(), 32);
}
