use papercast::dither::{DitherMode, Quantizer};

#[test]
fn plain_quantize_two_levels_thresholds_at_midpoint() {
    let q = Quantizer::new(2);
    let mut buf = vec![0u8, 100, 127, 128, 200, 255];
    q.quantize(&mut buf, 6, (0, 0), DitherMode::Plain);
    assert_eq!(buf, [0, 0, 0, 255, 255, 255]);
}

#[test]
fn quantized_values_are_representable_levels() {
    let q = Quantizer::new(16);
    let mut buf: Vec<u8> = (0..=255).collect();
    q.quantize(&mut buf, 16, (0, 0), DitherMode::Bayer);
    let step = 255.0 / 15.0;
    for &v in &buf {
        let level = f32::from(v) / step;
        assert!((level - level.round()).abs() < 0.01, "{v} is not on a level");
    }
}

#[test]
fn bayer_is_anchored_to_absolute_coords() {
    let q = Quantizer::new(4);
    // Full 16-wide row processed at origin 0…
    let mut full: Vec<u8> = (0..16u8).map(|i| i * 16).collect();
    q.quantize(&mut full, 16, (0, 0), DitherMode::Bayer);
    // …must equal the right half processed separately with origin x=8.
    let mut half: Vec<u8> = (8..16u8).map(|i| i * 16).collect();
    q.quantize(&mut half, 8, (8, 0), DitherMode::Bayer);
    assert_eq!(&full[8..], &half[..]);
}

#[test]
fn bayer_dithers_flat_midgray_to_mixed_levels() {
    let q = Quantizer::new(2);
    let mut buf = vec![128u8; 64];
    q.quantize(&mut buf, 8, (0, 0), DitherMode::Bayer);
    let whites = buf.iter().filter(|&&v| v == 255).count();
    // ~50% white: mid-gray becomes a checkerish mix, not a flat field.
    assert!((24..=40).contains(&whites), "whites={whites}");
}

#[test]
fn floyd_steinberg_preserves_average_brightness() {
    let q = Quantizer::new(2);
    let mut buf = vec![64u8; 32 * 32];
    q.quantize(&mut buf, 32, (0, 0), DitherMode::FloydSteinberg);
    let avg: f64 = buf.iter().map(|&v| f64::from(v)).sum::<f64>() / buf.len() as f64;
    assert!((avg - 64.0).abs() < 8.0, "avg={avg}");
}

#[test]
fn level_table_for_four_levels() {
    // 0, 85, 170, 255 are the four representable values.
    let q = Quantizer::new(4);
    let mut buf = vec![0u8, 42, 43, 127, 128, 212, 213, 255];
    q.quantize(&mut buf, 8, (0, 0), DitherMode::Plain);
    assert_eq!(buf, [0, 0, 85, 85, 170, 170, 255, 255]);
}

#[test]
fn level_count_is_clamped_to_two() {
    // Fewer than two levels would be a solid fill; it behaves as two.
    let q = Quantizer::new(0);
    let mut buf = vec![10u8, 200];
    q.quantize(&mut buf, 2, (0, 0), DitherMode::Plain);
    assert_eq!(buf, [0, 255]);
}

#[test]
fn default_dither_is_bayer() {
    assert_eq!(DitherMode::default_mode(), DitherMode::Bayer);
}

#[test]
fn floyd_steinberg_two_levels_of_pure_values_are_exact() {
    let q = Quantizer::new(2);
    let mut buf = vec![0u8, 255, 255, 0];
    q.quantize(&mut buf, 2, (0, 0), DitherMode::FloydSteinberg);
    assert_eq!(buf, [0, 255, 255, 0]);
}
