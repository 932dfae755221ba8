use papercast::frame::PixelFormat;
use papercast::test_pattern::{ping_pong, render, render_background};

#[test]
fn ping_pong_bounces() {
    assert_eq!(ping_pong(0, 10), 0);
    assert_eq!(ping_pong(7, 10), 7);
    assert_eq!(ping_pong(10, 10), 10);
    assert_eq!(ping_pong(13, 10), 7);
    assert_eq!(ping_pong(20, 10), 0);
}

#[test]
fn background_bands() {
    let (w, h) = (64u32, 64u32);
    let bg = render_background(w, h);
    assert_eq!(bg.len(), 64 * 64);
    // Band 0: gradient from 0 toward 255.
    assert_eq!(bg[0], 0);
    assert_eq!(bg[63], (63 * 255 / 64) as u8);
    // Band 1 (rows 16..32): 8-px checkerboard.
    assert_eq!(bg[16 * 64], 32);
    assert_eq!(bg[16 * 64 + 8], 224);
    // Band 2 (rows 32..48): pitch-2 grating at the left.
    assert_eq!(bg[32 * 64], 0);
    assert_eq!(bg[32 * 64 + 1], 255);
    // Band 3: mid-gray.
    assert_eq!(bg[63 * 64 + 5], 160);
}

#[test]
fn render_draws_box_counter_and_flashes() {
    let (w, h) = (320u32, 256u32);
    let bg = render_background(w, h);
    let f = render(&bg, w, h, 0);
    assert_eq!((f.width, f.height, f.format), (w, h, PixelFormat::Gray8));
    // Box (32x32) at x=0, y=192: black border, white inside.
    assert_eq!(f.data[(192 * 320) as usize], 0);
    assert_eq!(f.data[((192 + 10) * 320 + 10) as usize], 255);
    // Counter plate at the origin.
    assert_eq!(f.data[0], 255);
    // During the flash second everything is inverted.
    let g = render(&bg, w, h, 9_000);
    let plain = render(&bg, w, h, 8_000);
    assert_eq!(g.data[(100 * 320 + 300) as usize], 255 - plain.data[(100 * 320 + 300) as usize]);
}

#[test]
fn small_frames_render_with_a_clamped_box() {
    let background = render_background(32, 32);
    let f = render(&background, 32, 32, 0);
    assert_eq!((f.width, f.height, f.format), (32, 32, PixelFormat::Gray8));
    assert_eq!(f.data.len(), 1024);
    // Tiny frames render too; the box is clipped to the frame.
    let tiny = render(&render_background(3, 5), 3, 5, 12_345);
    assert_eq!(tiny.data.len(), 15);
}
