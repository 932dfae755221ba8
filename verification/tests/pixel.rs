use papercast::frame::{Frame, PixelFormat};
use papercast::pixel::{bgrx_to_rgba, frame_to_rgba, gray8_to_rgba, rgbx_to_rgba};

#[test]
fn expands_and_reuses_buffer() {
    let mut out = Vec::new();
    gray8_to_rgba(&[0, 128, 255], &mut out);
    assert_eq!(out, [0, 0, 0, 255, 128, 128, 128, 255, 255, 255, 255, 255]);
    // Second call must fully replace, not append.
    gray8_to_rgba(&[7], &mut out);
    assert_eq!(out, [7, 7, 7, 255]);
}

#[test]
fn swizzles_bgrx() {
    let mut out = Vec::new();
    bgrx_to_rgba(&[10, 20, 30, 0], &mut out); // B=10 G=20 R=30
    assert_eq!(out, [30, 20, 10, 255]);
}

#[test]
fn passes_rgbx() {
    let mut out = Vec::new();
    rgbx_to_rgba(&[10, 20, 30, 0], &mut out);
    assert_eq!(out, [10, 20, 30, 255]);
}

#[test]
fn trailing_partial_pixel_is_ignored() {
    let mut out = Vec::new();
    bgrx_to_rgba(&[1, 2, 3, 4, 5, 6], &mut out);
    assert_eq!(out, [3, 2, 1, 255]);
}

#[test]
fn frame_conversion_follows_format() {
    let mut out = Vec::new();
    let f = Frame { width: 1, height: 1, format: PixelFormat::Bgrx8888, data: vec![1, 2, 3, 9] };
    frame_to_rgba(&f, &mut out);
    assert_eq!(out, [3, 2, 1, 255]);
    let g = Frame { width: 2, height: 1, format: PixelFormat::Gray8, data: vec![5, 6] };
    frame_to_rgba(&g, &mut out);
    assert_eq!(out, [5, 5, 5, 255, 6, 6, 6, 255]);
    assert_eq!(PixelFormat::Gray8.bytes_per_pixel(), 1);
    assert_eq!(PixelFormat::Rgbx8888.bytes_per_pixel(), 4);
}
