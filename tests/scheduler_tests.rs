use nether_raytracer::scheduler::{
    checkerboard_merge, fit_buffer, is_fresh, low_resolution, pack_rgb, source_coord,
    upsample_nearest,
};

#[test]
fn low_resolution_divides_by_scale() {
    assert_eq!(low_resolution(512, 384, 3), (170, 128));
    assert_eq!(low_resolution(512, 384, 4), (128, 96));
    assert_eq!(low_resolution(512, 384, 1), (512, 384));
    assert_eq!(low_resolution(512, 384, 0), (512, 384));
}

#[test]
fn source_coord_clamps_at_edge() {
    assert_eq!(source_coord(7, 2, 10), 3);
    assert_eq!(source_coord(511, 3, 170), 169);
    assert_eq!(source_coord(5, 1, 10), 5);
    assert_eq!(source_coord(5, 0, 10), 5);
}

#[test]
fn upsample_replicates_nearest() {
    // 2x2 low-res image scaled by 2 into 5x4: column 4 clamps to the last one.
    let low = vec![1u32, 2, 3, 4];
    let full = upsample_nearest(&low, 2, 2, 5, 4, 2);
    let expected = vec![
        1u32, 1, 2, 2, 2, //
        1, 1, 2, 2, 2, //
        3, 3, 4, 4, 4, //
        3, 3, 4, 4, 4,
    ];
    assert_eq!(full, expected);
}

#[test]
fn upsample_at_scale_one_is_identity() {
    let low: Vec<u32> = (0..12).collect();
    assert_eq!(upsample_nearest(&low, 4, 3, 4, 3, 1), low);
}

#[test]
fn fresh_pixels_follow_parity() {
    assert!(is_fresh(0, 0, true));
    assert!(!is_fresh(0, 0, false));
    assert!(is_fresh(1, 0, false));
    assert!(is_fresh(3, 5, true));
    assert!(!is_fresh(2, 5, true));
}

#[test]
fn checkerboard_merge_mixes_traced_and_previous() {
    let traced = vec![10u32, 11, 12, 13, 14, 15];
    let previous = vec![20u32, 21, 22, 23, 24, 25];
    // 3 pixels wide; phase true keeps traced where x + y is even.
    let out = checkerboard_merge(&traced, &previous, 3, true);
    assert_eq!(out, vec![10, 21, 12, 23, 14, 25]);
    let out = checkerboard_merge(&traced, &previous, 3, false);
    assert_eq!(out, vec![20, 11, 22, 13, 24, 15]);
}

#[test]
fn two_checkerboard_frames_cover_every_pixel_once() {
    let (w, h) = (4usize, 3usize);
    let previous = vec![0u32; w * h];
    let first: Vec<u32> = (100..112).collect();
    let second: Vec<u32> = (200..212).collect();
    let frame_n = checkerboard_merge(&first, &previous, w, false);
    let frame_next = checkerboard_merge(&second, &frame_n, w, true);
    for y in 0..h {
        for x in 0..w {
            let i = y * w + x;
            assert_ne!(is_fresh(x, y, false), is_fresh(x, y, true));
            if !is_fresh(x, y, true) {
                assert_eq!(frame_next[i], frame_n[i]);
                assert_eq!(frame_next[i], first[i]);
            } else {
                assert_eq!(frame_next[i], second[i]);
            }
        }
    }
}

#[test]
fn fit_buffer_grows_with_black_and_truncates() {
    let mut b = vec![5u32, 6, 7];
    fit_buffer(&mut b, 5);
    assert_eq!(b, vec![5, 6, 7, 0, 0]);
    fit_buffer(&mut b, 2);
    assert_eq!(b, vec![5, 6]);
    fit_buffer(&mut b, 2);
    assert_eq!(b, vec![5, 6]);
}

#[test]
fn pack_rgb_layout() {
    assert_eq!(pack_rgb(0x12, 0x34, 0x56), 0x0012_3456);
    assert_eq!(pack_rgb(255, 255, 255), 0x00ff_ffff);
    assert_eq!(pack_rgb(0, 0, 0), 0);
    assert_eq!(pack_rgb(1, 0, 0), 0x0001_0000);
}

#[test]
fn scheduler_starts_black() {
    let s = nether_raytracer::scheduler::FrameScheduler::new(4, 2);
    assert_eq!(s.prev_full, vec![0u32; 8]);
    assert!(s.prev_low.is_empty());
    assert_eq!(s.traced_size(2), (2, 1));
    assert_eq!(s.traced_size(1), (4, 2));
}

#[test]
fn scheduler_checkerboard_frames_at_reduced_scale() {
    let mut s = nether_raytracer::scheduler::FrameScheduler::new(4, 4);
    // Scale 2: a 2x2 traced buffer.
    let full = s.checkerboard_frame(&vec![1, 2, 3, 4], 2, true);
    // Phase true traces (0,0) and (1,1); the rest start black.
    assert_eq!(s.prev_low, vec![1, 0, 0, 4]);
    assert_eq!(full, vec![1, 1, 0, 0, 1, 1, 0, 0, 0, 0, 4, 4, 0, 0, 4, 4]);
    let full = s.checkerboard_frame(&vec![5, 6, 7, 8], 2, false);
    assert_eq!(s.prev_low, vec![1, 6, 7, 4]);
    assert_eq!(full, vec![1, 1, 6, 6, 1, 1, 6, 6, 7, 7, 4, 4, 7, 7, 4, 4]);
    assert_eq!(s.prev_full, vec![0u32; 16]);
}

#[test]
fn scheduler_checkerboard_at_full_scale() {
    let mut s = nether_raytracer::scheduler::FrameScheduler::new(3, 1);
    let full = s.checkerboard_frame(&vec![7, 8, 9], 1, false);
    assert_eq!(full, vec![0, 8, 0]);
    assert_eq!(s.prev_full, vec![0, 8, 0]);
    assert!(s.prev_low.is_empty());
}

#[test]
fn scheduler_uniform_frame() {
    let mut s = nether_raytracer::scheduler::FrameScheduler::new(3, 2);
    let full = s.uniform_frame(vec![4], 2);
    assert_eq!(full, vec![4; 6]);
    assert_eq!(s.prev_low, vec![4]);
    let full = s.uniform_frame(vec![1, 2, 3, 4, 5, 6], 1);
    assert_eq!(full, vec![1, 2, 3, 4, 5, 6]);
    assert_eq!(s.prev_full, vec![1, 2, 3, 4, 5, 6]);
    assert_eq!(s.prev_low, vec![4]);
}
