use papercast::control::{apply_mode, build_status, dispatch, reload_base_eink, Effect, Request};
use papercast::dither::DitherMode;
use papercast::eink::EinkConfig;
use papercast::mode::{ModeSettings, ModeState};

fn state(active: Option<&str>) -> ModeState {
    let base = ModeSettings { eink: EinkConfig::default(), fps: 15, tile_size: 64, full_refresh_secs: 60, full_refresh_updates: 0 };
    ModeState::new(base, Vec::new(), active.map(|s| s.to_string())).unwrap()
}

#[test]
fn status_reports_effective_settings() {
    let st = state(Some("writing"));
    let s = build_status(&st, (800, 600), &Some("eDP-1".to_string()));
    assert_eq!(s.mode.as_deref(), Some("writing"));
    assert_eq!((s.fps, s.levels, s.tile_size), (30, 4, 32));
    assert_eq!(s.dither, DitherMode::Bayer);
    assert_eq!((s.full_refresh_secs, s.full_refresh_updates), (300, 0));
    assert_eq!(s.framebuffer, (800, 600));
    assert_eq!(s.output.as_deref(), Some("eDP-1"));
}

#[test]
fn mode_request_switches_and_broadcasts() {
    let mut st = state(None);
    let (resp, effect) = dispatch(Request::Mode { name: "video".into() }, &mut st, (10, 10), &None);
    assert!(resp.ok);
    assert_eq!(resp.status.unwrap().mode.as_deref(), Some("video"));
    match effect {
        Effect::Broadcast(e) => assert_eq!(e.fps, 30),
        other => panic!("expected a broadcast, got {other:?}"),
    }
    assert_eq!(st.active(), Some("video"));
}

#[test]
fn unknown_mode_request_is_answered_with_an_error() {
    let mut st = state(Some("reading"));
    let (resp, effect) = dispatch(Request::Mode { name: "nope".into() }, &mut st, (10, 10), &None);
    assert!(!resp.ok);
    assert_eq!(
        resp.error.as_deref(),
        Some("unknown mode \"nope\"; valid modes: browsing, reading, video, writing")
    );
    assert_eq!(effect, Effect::Nothing);
    assert_eq!(st.active(), Some("reading"));
    assert!(apply_mode(&mut st, "nope", (1, 1), &None).is_err());
}

#[test]
fn refresh_and_status_requests() {
    let mut st = state(None);
    let (resp, effect) = dispatch(Request::Refresh, &mut st, (1, 1), &None);
    assert!(resp.ok && resp.status.is_none() && resp.error.is_none());
    assert_eq!(effect, Effect::Refresh);
    let (resp, effect) = dispatch(Request::Status, &mut st, (1, 1), &None);
    assert!(resp.ok);
    assert_eq!(resp.status.unwrap().mode, None);
    assert_eq!(effect, Effect::Nothing);
}

#[test]
fn unchanged_config_reload_broadcasts_nothing() {
    let mut st = state(None);
    let current = st.effective();
    assert_eq!(reload_base_eink(&mut st, EinkConfig::default(), &current, current.fps), None);
    assert_eq!(st.effective(), current);
}

#[test]
fn config_reload_reapplies_the_active_mode() {
    let mut st = state(Some("writing"));
    let current = st.effective();
    // The writing overlay pins levels, so a levels edit is masked...
    let edited = EinkConfig { levels: 8, ..EinkConfig::default() };
    assert_eq!(reload_base_eink(&mut st, edited, &current, current.fps), None);
    assert_eq!(st.base_eink().levels, 8);
    assert_eq!(st.active(), Some("writing"));
    // ...while an invert edit goes through, with the mode kept.
    let inverted = EinkConfig { invert: true, levels: 8, ..EinkConfig::default() };
    let (e, fps_changed) = reload_base_eink(&mut st, inverted, &current, current.fps).unwrap();
    assert!(e.eink.invert);
    assert_eq!((e.eink.levels, e.fps), (4, 30));
    assert!(!fps_changed);
}

#[test]
fn config_reload_without_mode_reports_fps_change() {
    let mut st = state(None);
    let current = st.effective();
    let edited = EinkConfig { levels: 2, ..EinkConfig::default() };
    let (e, fps_changed) = reload_base_eink(&mut st, edited, &current, 5).unwrap();
    assert_eq!((e.eink.levels, e.fps), (2, 15));
    assert!(fps_changed);
}
