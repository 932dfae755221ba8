use papercast::dither::DitherMode;
use papercast::eink::{
    reload_plan, same_config, stage_step, to_gray, EinkConfig, Pipeline, StageAction, StageEvent,
};
use papercast::frame::{Frame, PixelFormat};
use papercast::scale::FitMode;

/// The tone curve of `cfg`, computed in floating point as the program does.
fn tone_lut(cfg: &EinkConfig) -> Vec<u8> {
    let black = f32::from(cfg.black_point);
    let white = f32::from(cfg.white_point.max(cfg.black_point + 1));
    let gamma = f32::from_bits(cfg.gamma_bits);
    let contrast = f32::from_bits(cfg.contrast_bits);
    (0..256)
        .map(|i| {
            let mut x = ((i as f32 - black) / (white - black)).clamp(0.0, 1.0);
            x = x.powf(gamma.max(0.01));
            x = ((x - 0.5) * contrast.max(0.0) + 0.5).clamp(0.0, 1.0);
            if cfg.invert {
                x = 1.0 - x;
            }
            (x * 255.0).round() as u8
        })
        .collect()
}

fn pipeline(cfg: EinkConfig) -> Pipeline {
    let fp = (f32::from_bits(cfg.sharpen_bits) * 256.0) as i32;
    Pipeline::new(cfg, tone_lut(&cfg), fp)
}

fn gray_frame(w: u32, h: u32, data: Vec<u8>) -> Frame {
    Frame { width: w, height: h, format: PixelFormat::Gray8, data }
}

#[test]
fn luminance_weights_green_highest() {
    let px = |r, g, b| Frame { width: 1, height: 1, format: PixelFormat::Bgrx8888, data: vec![b, g, r, 0] };
    let mut out = Vec::new();
    to_gray(&px(255, 0, 0), &mut out);
    let red = out[0];
    to_gray(&px(0, 255, 0), &mut out);
    let green = out[0];
    to_gray(&px(0, 0, 255), &mut out);
    let blue = out[0];
    assert!(green > red && red > blue, "BT.709 ordering: g={green} r={red} b={blue}");
    to_gray(&px(255, 255, 255), &mut out);
    assert_eq!(out[0], 255);
}

#[test]
fn process_end_to_end_scales_and_quantizes() {
    let mut p = pipeline(EinkConfig {
        target_size: Some((64, 64)),
        fit: FitMode::Letterbox,
        levels: 2,
        sharpen_bits: 0.0f32.to_bits(),
        ..Default::default()
    });
    // 128x64 mid-gray source → letterboxed into 64x64.
    let out = p.process(&gray_frame(128, 64, vec![128; 128 * 64])).unwrap();
    assert_eq!((out.width, out.height), (64, 64));
    assert_eq!(out.format, PixelFormat::Gray8);
    assert_eq!(out.data.len(), 64 * 64);
    // Levels=2 → only pure black/white pixels remain.
    assert!(out.data.iter().all(|&v| v == 0 || v == 255));
    // Letterbox bars (top rows) are white.
    assert!(out.data[..64 * 16].iter().all(|&v| v == 255));
}

#[test]
fn luminance_exact_values() {
    let mut out = Vec::new();
    let f = Frame { width: 2, height: 1, format: PixelFormat::Rgbx8888, data: vec![255, 0, 0, 0, 0, 255, 0, 0] };
    to_gray(&f, &mut out);
    // (54*255 + 128) >> 8 = 54, (183*255 + 128) >> 8 = 182.
    assert_eq!(out, vec![54, 182]);
}

#[test]
fn short_color_buffer_reads_black() {
    let mut out = Vec::new();
    let f = Frame { width: 2, height: 1, format: PixelFormat::Bgrx8888, data: vec![255, 255, 255, 0] };
    to_gray(&f, &mut out);
    assert_eq!(out, vec![255, 0]);
}

#[test]
fn same_size_identity_tone_plain_is_table_lookup() {
    // Identity tone curve, no sharpening, 2 plain levels: a threshold.
    let cfg = EinkConfig { levels: 2, dither: DitherMode::Plain, sharpen_bits: 0, ..Default::default() };
    let lut: Vec<u8> = (0..=255u8).collect();
    let mut p = Pipeline::new(cfg, lut, 0);
    let out = p.process(&gray_frame(4, 1, vec![0, 127, 128, 255])).unwrap();
    assert_eq!(out.data, vec![0, 0, 255, 255]);
    assert_eq!(p.output_size((4, 1)), (4, 1));
}

#[test]
fn target_size_sets_output_size() {
    let p = pipeline(EinkConfig { target_size: Some((320, 240)), ..Default::default() });
    assert_eq!(p.output_size((1920, 1080)), (320, 240));
    assert_eq!(p.config().target_size, Some((320, 240)));
}

#[test]
fn reload_refuses_target_size_changes() {
    let current = EinkConfig { target_size: Some((64, 64)), ..Default::default() };
    let incoming = EinkConfig { target_size: Some((32, 32)), levels: 4, ..Default::default() };
    let (cfg, refused, changed) = reload_plan(&current, incoming);
    assert!(refused);
    assert!(changed);
    assert_eq!(cfg.target_size, Some((64, 64)));
    assert_eq!(cfg.levels, 4);
    let (_, refused, changed) = reload_plan(&current, current);
    assert!(!refused && !changed);
}

#[test]
fn default_config_values() {
    let c = EinkConfig::default();
    assert_eq!(f32::from_bits(c.contrast_bits), 1.2);
    assert_eq!(f32::from_bits(c.gamma_bits), 1.0);
    assert_eq!(f32::from_bits(c.sharpen_bits), 1.0);
    assert_eq!((c.black_point, c.white_point, c.levels), (8, 248, 16));
    assert_eq!(c.dither, DitherMode::Bayer);
    assert_eq!(c.fit, FitMode::Letterbox);
    assert_eq!(c.target_size, None);
    assert!(!c.invert);
}

/// Follow new settings the way the pipeline thread does: the output size
/// stays, and the pipeline is rebuilt only when the config changed.
fn follow(p: &mut Pipeline, incoming: EinkConfig) -> bool {
    let (cfg, _, changed) = reload_plan(p.config(), incoming);
    if changed {
        let fp = (f32::from_bits(cfg.sharpen_bits) * 256.0) as i32;
        p.set_config(cfg, tone_lut(&cfg), fp);
    }
    changed
}

#[test]
fn settings_change_reprocesses_last_raw_frame_while_idle() {
    let base = EinkConfig { levels: 16, sharpen_bits: 0.0f32.to_bits(), ..Default::default() };
    let mut p = pipeline(base);
    let raw = gray_frame(8, 8, vec![128; 64]);
    let first = p.process(&raw).unwrap();
    let coarse = EinkConfig { levels: 2, ..base };
    assert!(follow(&mut p, coarse));
    // The cached raw frame is re-rendered under the new settings.
    let second = p.process(&raw).unwrap();
    assert_ne!(first.data, second.data, "a mode switch on an idle screen should re-render the cached frame");
}

#[test]
fn fps_only_change_reemits_identical_pixels() {
    let base = EinkConfig { levels: 16, sharpen_bits: 0.0f32.to_bits(), ..Default::default() };
    let mut p = pipeline(base);
    let raw = gray_frame(8, 8, vec![128; 64]);
    let first = p.process(&raw).unwrap();
    // An fps-only switch leaves the eink config as it was.
    assert!(!follow(&mut p, base));
    let second = p.process(&raw).unwrap();
    assert_eq!(first.data, second.data, "fps-only change must not alter pixels");
}

#[test]
fn configs_compare_their_knobs_as_floats() {
    let base = EinkConfig { sharpen_bits: 0.0f32.to_bits(), ..Default::default() };
    let neg_zero = EinkConfig { sharpen_bits: (-0.0f32).to_bits(), ..base };
    assert!(same_config(&base, &neg_zero), "0.0 == -0.0");
    let nan = EinkConfig { gamma_bits: f32::NAN.to_bits(), ..base };
    assert!(!same_config(&nan, &nan), "NaN equals nothing");
    assert!(same_config(&base, &base));
    let (_, _, changed) = reload_plan(&base, neg_zero);
    assert!(!changed);
}

#[test]
fn settings_redraw_the_cached_frame_only_once_there_is_one() {
    assert_eq!(stage_step(StageEvent::Frame, false), StageAction::Process);
    assert_eq!(stage_step(StageEvent::SettingsChanged, false), StageAction::Skip);
    assert_eq!(stage_step(StageEvent::SettingsChanged, true), StageAction::Process);
    assert_eq!(stage_step(StageEvent::Closed, true), StageAction::Stop);
}
