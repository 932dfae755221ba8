use papercast::cli::{
    parse_size, request_for, resolve_active, resolve_base, resolve_papercast_listen,
    resolve_vnc_listen, validate_transport, CliTuning, CtlCommand, DitherArg, FitArg,
    IntErrorKind, SizeError, TransportArg,
};
use papercast::config::MirrorConfig;
use papercast::control::Request;
use papercast::dither::DitherMode;
use papercast::eink::EinkConfig;
use papercast::scale::FitMode;

#[test]
fn vnc_listen_uses_cli_then_file_then_default() {
    assert_eq!(resolve_vnc_listen(Some("0.0.0.0:6000"), Some("127.0.0.1:5901")), "0.0.0.0:6000");
    assert_eq!(resolve_vnc_listen(None, Some("127.0.0.1:5901")), "127.0.0.1:5901");
    assert_eq!(resolve_vnc_listen(None, None), "127.0.0.1:5900");
}

#[test]
fn papercast_listen_uses_only_cli_or_native_default() {
    assert_eq!(
        resolve_papercast_listen(Some("127.0.0.1:6000"), Some("127.0.0.1:5901")),
        "127.0.0.1:6000"
    );
    assert_eq!(resolve_papercast_listen(None, Some("127.0.0.1:5901")), "127.0.0.1:5920");
    assert_eq!(resolve_papercast_listen(None, None), "127.0.0.1:5920");
}

#[test]
fn papercast_transport_rejects_raw_frames() {
    assert!(validate_transport(TransportArg::Papercast, true).is_err());
    assert!(validate_transport(TransportArg::Papercast, false).is_ok());
    assert!(validate_transport(TransportArg::Vnc, true).is_ok());
}

#[test]
fn parse_size_accepts_both_separators_and_spaces() {
    assert_eq!(parse_size("1280x960"), Ok((1280, 960)));
    assert_eq!(parse_size("3200X2400"), Ok((3200, 2400)));
    assert_eq!(parse_size(" 800 x 600 "), Ok((800, 600)));
    assert_eq!(parse_size("+8x+9"), Ok((8, 9)));
}

#[test]
fn parse_size_errors_name_the_input() {
    let e = parse_size("1280-960").unwrap_err();
    assert_eq!(e, SizeError::NoSeparator("1280-960".to_string()));
    assert_eq!(e.message(), "expected WIDTHxHEIGHT, got '1280-960'");
    let e = parse_size("12a0x960").unwrap_err();
    assert_eq!(e, SizeError::BadDimension("12a0".to_string(), IntErrorKind::InvalidDigit));
    assert_eq!(e.message(), "bad dimension '12a0': invalid digit found in string");
    let e = parse_size("1280x").unwrap_err();
    assert_eq!(e.message(), "bad dimension '': cannot parse integer from empty string");
    let e = parse_size("1x99999999999").unwrap_err();
    assert_eq!(e, SizeError::BadDimension("99999999999".to_string(), IntErrorKind::PosOverflow));
    assert_eq!(parse_size("-1x2").unwrap_err(), SizeError::BadDimension("-1".to_string(), IntErrorKind::InvalidDigit));
}

#[test]
fn cli_beats_file_beats_default() {
    let file_eink = EinkConfig { levels: 8, invert: false, ..Default::default() };
    let m = MirrorConfig { fps: Some(10), tile_size: Some(32), ..Default::default() };
    let cli = CliTuning {
        contrast_bits: Some(2.0f32.to_bits()),
        gamma_bits: None,
        sharpen_bits: None,
        invert: true,
        levels: None,
        scale_to: Some((320, 240)),
        dither: Some(DitherMode::FloydSteinberg),
        fit: None,
        fps: Some(20),
        tile_size: None,
        full_refresh_secs: None,
        full_refresh_updates: Some(5),
    };
    let base = resolve_base(file_eink, &m, &cli);
    assert_eq!(base.fps, 20);
    assert_eq!(base.tile_size, 32);
    assert_eq!(base.full_refresh_secs, 60);
    assert_eq!(base.full_refresh_updates, 5);
    assert_eq!(base.eink.levels, 8);
    assert!(base.eink.invert);
    assert_eq!(f32::from_bits(base.eink.contrast_bits), 2.0);
    assert_eq!(base.eink.target_size, Some((320, 240)));
    assert_eq!(base.eink.dither, DitherMode::FloydSteinberg);
    assert_eq!(base.eink.fit, FitMode::Letterbox);
}

#[test]
fn startup_mode_prefers_the_flag() {
    assert_eq!(resolve_active(Some("video".into()), Some("reading".into())), Some("video".to_string()));
    assert_eq!(resolve_active(None, Some("reading".into())), Some("reading".to_string()));
    assert_eq!(resolve_active(None, None), None);
}

#[test]
fn cli_enums_map_to_pipeline_modes() {
    assert_eq!(FitArg::Crop.to_mode(), FitMode::Crop);
    assert_eq!(DitherArg::Fs.to_mode(), Some(DitherMode::FloydSteinberg));
    assert_eq!(DitherArg::Plain.to_mode(), Some(DitherMode::Plain));
    assert_eq!(DitherArg::Atkinson.to_mode(), None);
}

#[test]
fn ctl_commands_become_requests() {
    assert_eq!(request_for(CtlCommand::Mode { name: "writing".into() }), Request::Mode { name: "writing".into() });
    assert_eq!(request_for(CtlCommand::Refresh), Request::Refresh);
    assert_eq!(request_for(CtlCommand::Status), Request::Status);
}

#[test]
fn parse_size_trims_unicode_white_space() {
    assert_eq!(parse_size("\u{3000}800\u{2028}x\t600\u{85}"), Ok((800, 600)));
    assert_eq!(parse_size("\u{a0}12X34\u{202f}"), Ok((12, 34)));
    // A zero-width space is not white space.
    assert!(parse_size("\u{200b}1x1").is_err());
}
