use papercast::eink::EinkConfig;
use papercast::mode::{builtin, ModeOverlay, ModeSettings, ModeState, BUILTIN_NAMES};

fn base() -> ModeSettings {
    ModeSettings {
        eink: EinkConfig { invert: true, contrast_bits: 1.7f32.to_bits(), ..Default::default() },
        fps: 15,
        tile_size: 64,
        full_refresh_secs: 60,
        full_refresh_updates: 0,
    }
}

#[test]
fn builtin_lookup_matches_table() {
    let st = ModeState::new(base(), Vec::new(), Some("writing".into())).unwrap();
    let e = st.effective();
    assert_eq!(e.fps, 30);
    assert_eq!(e.eink.levels, 4);
    assert_eq!(f32::from_bits(e.eink.sharpen_bits), 1.5);
    assert_eq!(e.tile_size, 32);
    assert_eq!(e.full_refresh_secs, 300);
    assert_eq!(e.full_refresh_updates, 0);
}

#[test]
fn overlay_preserves_user_base_fields() {
    // The user set invert + contrast in their base config; no mode touches
    // them, so every mode must keep them.
    for name in BUILTIN_NAMES {
        let st = ModeState::new(base(), Vec::new(), Some(name.into())).unwrap();
        let e = st.effective();
        assert!(e.eink.invert, "{name} dropped invert");
        assert_eq!(f32::from_bits(e.eink.contrast_bits), 1.7, "{name} dropped contrast");
    }
}

#[test]
fn no_active_mode_is_plain_base() {
    let st = ModeState::new(base(), Vec::new(), None).unwrap();
    assert_eq!(st.effective(), base());
    assert_eq!(st.active(), None);
}

#[test]
fn unknown_mode_errors_and_lists_valid_names() {
    let err = ModeState::new(base(), Vec::new(), Some("nope".into())).unwrap_err();
    assert_eq!(err.name, "nope");
    assert_eq!(err.valid, ["browsing", "reading", "video", "writing"]);
}

#[test]
fn custom_mode_overrides_builtin_field() {
    // Config raises reading's fps but leaves the rest of the built-in.
    let custom = vec![("reading".to_string(), ModeOverlay { fps: Some(8), ..Default::default() })];
    let st = ModeState::new(base(), custom, Some("reading".into())).unwrap();
    let e = st.effective();
    assert_eq!(e.fps, 8); // overridden
    assert_eq!(e.full_refresh_updates, 1); // built-in preserved
}

#[test]
fn custom_defines_a_new_mode() {
    let custom = vec![(
        "mine".to_string(),
        ModeOverlay { fps: Some(3), levels: Some(2), ..Default::default() },
    )];
    let mut st = ModeState::new(base(), custom, None).unwrap();
    assert!(st.valid_names().contains(&"mine".to_string()));
    st.set_mode("mine").unwrap();
    let e = st.effective();
    assert_eq!(e.fps, 3);
    assert_eq!(e.eink.levels, 2);
}

#[test]
fn hot_reload_base_keeps_active_mode() {
    let mut st = ModeState::new(base(), Vec::new(), Some("writing".into())).unwrap();
    // Simulate a config edit changing gamma; mode must stay active.
    st.set_base_eink(EinkConfig { gamma_bits: 0.8f32.to_bits(), invert: true, ..Default::default() });
    let e = st.effective();
    assert_eq!(st.active(), Some("writing"));
    assert_eq!(f32::from_bits(e.eink.gamma_bits), 0.8); // new base value flows through
    assert_eq!(e.eink.levels, 4); // writing overlay still applied
}

#[test]
fn valid_names_are_sorted_and_deduplicated() {
    let custom = vec![
        ("zebra".to_string(), ModeOverlay::default()),
        ("reading".to_string(), ModeOverlay::default()),
        ("alpha".to_string(), ModeOverlay::default()),
    ];
    let st = ModeState::new(base(), custom, None).unwrap();
    assert_eq!(st.valid_names(), ["alpha", "browsing", "reading", "video", "writing", "zebra"]);
}

#[test]
fn failed_switch_keeps_previous_mode() {
    let mut st = ModeState::new(base(), Vec::new(), Some("video".into())).unwrap();
    let err = st.set_mode("bogus").unwrap_err();
    assert_eq!(err.name, "bogus");
    assert_eq!(st.active(), Some("video"));
    assert_eq!(
        err.message(),
        "unknown mode \"bogus\"; valid modes: browsing, reading, video, writing"
    );
}

#[test]
fn overlay_merge_and_apply() {
    let reading = builtin("reading").unwrap();
    let over = ModeOverlay { fps: Some(1), invert: Some(false), ..Default::default() };
    let merged = reading.merged_with(&over);
    assert_eq!(merged.fps, Some(1));
    assert_eq!(merged.full_refresh_updates, Some(1));
    let e = merged.apply(&base());
    assert!(!e.eink.invert);
    assert_eq!(e.tile_size, 64);
    assert_eq!(e, over.apply(&reading.apply(&base())));
    assert!(builtin("nope").is_none());
    assert_eq!(base().eink, *ModeState::new(base(), Vec::new(), None).unwrap().base_eink());
}

#[test]
fn video_mode_disables_sharpening_and_full_refresh() {
    let st = ModeState::new(base(), Vec::new(), Some("video".into())).unwrap();
    let e = st.effective();
    assert_eq!(f32::from_bits(e.eink.sharpen_bits), 0.0);
    assert_eq!((e.full_refresh_secs, e.full_refresh_updates), (0, 0));
    assert_eq!(e.fps, 30);
}
