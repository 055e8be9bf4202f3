use soft_raster::framebuffer::{Framebuffer, FAR};

#[test]
fn new_buffer_is_empty() {
    let fb = Framebuffer::new(4, 3);
    assert_eq!(fb.buffer.len(), 12);
    assert!(fb.buffer.iter().all(|&c| c == 0));
    assert!(fb.zbuffer.iter().all(|&d| d == FAR));
}

#[test]
fn point_in_bounds_writes_color_and_depth() {
    let mut fb = Framebuffer::new(4, 3);
    assert!(fb.point(2, 1, 10, 0xFFDDDD));
    assert_eq!(fb.buffer[1 * 4 + 2], 0xFFDDDD);
    assert_eq!(fb.zbuffer[1 * 4 + 2], 10);
}

#[test]
fn point_out_of_bounds_is_dropped() {
    let mut fb = Framebuffer::new(4, 3);
    assert!(!fb.point(4, 0, 0, 0x123456));
    assert!(!fb.point(0, 3, 0, 0x123456));
    assert!(fb.buffer.iter().all(|&c| c == 0));
}

#[test]
fn nearer_write_wins_far_then_near() {
    let mut fb = Framebuffer::new(4, 3);
    assert!(fb.point(1, 1, 20, 0x0000FF));
    assert!(fb.point(1, 1, 5, 0xFF0000));
    assert_eq!(fb.buffer[5], 0xFF0000);
    assert_eq!(fb.zbuffer[5], 5);
}

#[test]
fn nearer_write_wins_near_then_far() {
    let mut fb = Framebuffer::new(4, 3);
    assert!(fb.point(1, 1, 5, 0xFF0000));
    assert!(!fb.point(1, 1, 20, 0x0000FF));
    assert_eq!(fb.buffer[5], 0xFF0000);
    assert_eq!(fb.zbuffer[5], 5);
}

#[test]
fn equal_depth_does_not_overwrite() {
    let mut fb = Framebuffer::new(2, 2);
    assert!(fb.point(0, 0, 7, 0x111111));
    assert!(!fb.point(0, 0, 7, 0x222222));
    assert_eq!(fb.buffer[0], 0x111111);
}

#[test]
fn clear_resets_to_background_and_far() {
    let mut fb = Framebuffer::new(3, 3);
    fb.set_background_color(0x333355);
    fb.point(0, 0, -4, 0xFFFFFF);
    fb.point(2, 2, 9, 0xFFFFFF);
    fb.clear();
    assert!(fb.buffer.iter().all(|&c| c == 0x333355));
    assert!(fb.zbuffer.iter().all(|&d| d == FAR));
}

#[test]
fn first_writes_after_clear_all_pass() {
    let mut fb = Framebuffer::new(5, 4);
    fb.point(3, 3, -100, 0xABCDEF);
    fb.clear();
    for y in 0..4usize {
        for x in 0..5usize {
            assert!(fb.point(x, y, FAR - 1, 0x010203));
        }
    }
    assert!(fb.buffer.iter().all(|&c| c == 0x010203));
}

#[test]
fn depths_only_decrease_within_a_frame() {
    let mut fb = Framebuffer::new(3, 2);
    let writes = [(0usize, 0usize, 50i64), (0, 0, 80), (0, 0, 30), (2, 1, 10), (0, 0, 30), (5, 5, -1)];
    for (x, y, d) in writes {
        let before = fb.zbuffer.clone();
        fb.point(x, y, d, 0xFFFFFF);
        for i in 0..before.len() {
            assert!(fb.zbuffer[i] <= before[i]);
        }
    }
    assert_eq!(fb.zbuffer[0], 30);
    assert_eq!(fb.zbuffer[5], 10);
}
