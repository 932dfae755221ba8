use papercast::scale::{letterbox_placement, place_region, FitMode, Scaler};

#[test]
fn letterbox_16_9_into_4_3_pads_top_and_bottom() {
    // 1920x1080 into 800x600: width-limited → 800x450 at y=75.
    let (pw, ph, px, py) = letterbox_placement((1920, 1080), (800, 600));
    assert_eq!((pw, ph, px, py), (800, 450, 0, 75));
}

#[test]
fn letterbox_bars_are_white_and_content_lands_centered() {
    let mut scaler = Scaler::new();
    let mut src = vec![0u8; 100 * 50]; // black 2:1 source
    let mut dst = Vec::new();
    scaler.scale_gray(&mut src, (100, 50), &mut dst, (100, 100), FitMode::Letterbox).unwrap();
    assert_eq!(dst[0], 255, "top bar should be white");
    assert_eq!(dst[50 * 100 + 50], 0, "center should be black content");
    assert_eq!(dst[99 * 100 + 50], 255, "bottom bar should be white");
}

#[test]
fn stretch_fills_everything() {
    let mut scaler = Scaler::new();
    let mut src = vec![0u8; 10 * 10];
    let mut dst = Vec::new();
    scaler.scale_gray(&mut src, (10, 10), &mut dst, (20, 40), FitMode::Stretch).unwrap();
    assert!(dst.iter().all(|&v| v == 0));
}

#[test]
fn crop_keeps_center() {
    let mut scaler = Scaler::new();
    // Left half black, right half white, into a tall destination:
    // crop takes the horizontal middle → output splits black/white.
    let mut src: Vec<u8> = (0..100 * 100).map(|i| if i % 100 < 50 { 0 } else { 255 }).collect();
    let mut dst = Vec::new();
    scaler.scale_gray(&mut src, (100, 100), &mut dst, (50, 100), FitMode::Crop).unwrap();
    assert!(dst[0] < 32, "left edge should be black-ish, got {}", dst[0]);
    assert!(dst[49] > 223, "right edge should be white-ish, got {}", dst[49]);
}

#[test]
fn letterbox_height_limited_pads_left_and_right() {
    // 600x800 portrait into 800x600: height-limited → 450x600 at x=175.
    assert_eq!(letterbox_placement((600, 800), (800, 600)), (450, 600, 175, 0));
}

#[test]
fn letterbox_same_aspect_fills() {
    assert_eq!(letterbox_placement((1600, 1200), (800, 600)), (800, 600, 0, 0));
}

#[test]
fn letterbox_rounds_to_nearest_and_keeps_one_pixel() {
    // 3x1 into 2x2: width-limited, height 1*2/3 = 0.67 → 1.
    assert_eq!(letterbox_placement((3, 1), (2, 2)), (2, 1, 0, 0));
    // 1000x1 into 10x10: height 0.01 → clamped to 1.
    assert_eq!(letterbox_placement((1000, 1), (10, 10)), (10, 1, 0, 4));
    // Empty source: one pixel.
    assert_eq!(letterbox_placement((0, 0), (9, 9)), (1, 1, 4, 4));
}

#[test]
fn stretch_same_size_copies() {
    let mut scaler = Scaler::new();
    let mut src: Vec<u8> = (0..16u8).collect();
    let mut dst = Vec::new();
    scaler.scale_gray(&mut src, (4, 4), &mut dst, (4, 4), FitMode::Stretch).unwrap();
    assert_eq!(dst, src);
}

#[test]
fn short_source_is_an_error_and_leaves_white() {
    let mut scaler = Scaler::new();
    let mut src = vec![0u8; 10];
    let mut dst = Vec::new();
    let r = scaler.scale_gray(&mut src, (10, 10), &mut dst, (4, 4), FitMode::Stretch);
    assert!(r.is_err());
    assert_eq!(dst, vec![255u8; 16]);
}

#[test]
fn region_is_placed_on_white() {
    let mut dst = vec![255u8; 4 * 3];
    place_region(&mut dst, 4, 3, &[1, 2, 3, 4], 2, 2, 1, 1);
    assert_eq!(dst, vec![255, 255, 255, 255, 255, 1, 2, 255, 255, 3, 4, 255]);
}

#[test]
fn default_fit_is_letterbox() {
    assert_eq!(FitMode::default_mode(), FitMode::Letterbox);
}

#[test]
fn letterbox_rounds_as_f64_arithmetic_does() {
    // 600 / 112 rounds down in f64, so 21 * s lands just below 112.5.
    assert_eq!(letterbox_placement((21, 112), (800, 600)), (112, 600, 344, 0));
    // Same size: placed whole.
    assert_eq!(letterbox_placement((640, 480), (640, 480)), (640, 480, 0, 0));
    // Empty sides keep at least one pixel.
    assert_eq!(letterbox_placement((0, 0), (10, 10)), (1, 1, 4, 4));
    assert_eq!(letterbox_placement((0, 5), (10, 10)), (1, 10, 4, 0));
}

#[test]
fn letterbox_at_equal_size_copies_the_source() {
    let mut scaler = Scaler::new();
    let mut src: Vec<u8> = (0..12u8).map(|v| v * 20).collect();
    let mut dst = Vec::new();
    scaler.scale_gray(&mut src, (4, 3), &mut dst, (4, 3), FitMode::Letterbox).unwrap();
    assert_eq!(dst, src);
}

/// The placement as the f64 formula computes it.
fn f64_placement((sw, sh): (u32, u32), (dw, dh): (u32, u32)) -> (u32, u32, u32, u32) {
    let scale = f64::min(f64::from(dw) / f64::from(sw), f64::from(dh) / f64::from(sh));
    let pw = ((f64::from(sw) * scale).round() as u32).clamp(1, dw);
    let ph = ((f64::from(sh) * scale).round() as u32).clamp(1, dh);
    (pw, ph, (dw - pw) / 2, (dh - ph) / 2)
}

#[test]
fn letterbox_matches_f64_formula_on_a_sweep() {
    let dsts = [(800, 600), (3200, 2400), (1, 1), (7, 13), (1872, 1404), (4095, 17)];
    for &dst in &dsts {
        for sw in (0..300u32).step_by(7).chain([1, 2, 3, 1920, 2560, 65535, 4_000_000_000]) {
            for sh in (0..300u32).step_by(11).chain([1, 2, 1080, 1440, 65535, 3_999_999_999]) {
                assert_eq!(letterbox_placement((sw, sh), dst), f64_placement((sw, sh), dst), "{sw}x{sh} into {dst:?}");
            }
        }
    }
}
