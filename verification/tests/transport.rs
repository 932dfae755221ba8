use papercast::eink::EinkConfig;
use papercast::frame::Rect as CoreRect;
use papercast::mode::ModeSettings;
use papercast::proto::{Message, Rect, RefreshHint, ServerHello, Update, UpdateRect, PROTO_VERSION};
use papercast::tiles::TileDiff;
use papercast::transport::{
    announce_mode, extract_gray, extract_rect_rgba, full_refresh_due, hint_for, partial_update,
    same_settings, settings_reaction, to_proto_rect, RefreshSchedule, SettingsReaction, Sink,
};

fn partial(fill: u8) -> Update {
    Update {
        refresh_hint: RefreshHint::Auto,
        rects: vec![UpdateRect { rect: Rect { x: 0, y: 0, width: 1, height: 1 }, gray8: vec![fill] }],
    }
}

#[test]
fn no_update_without_ready() {
    let mut s = Sink::new(2, 1);
    let hello = s.attach(16);
    assert_eq!(
        hello,
        Message::ServerHello(ServerHello { proto_version: PROTO_VERSION, width: 2, height: 1, levels: 16 })
    );
    s.request_full();
    s.on_frame(Some(partial(1)), vec![1, 2]);
    assert!(s.take_send().is_none(), "nothing goes out before a Ready");
    assert!(s.on_ready(s.generation));
    let out = s.take_send().expect("an update once Ready");
    assert!(out.full);
    assert_eq!(out.update.refresh_hint, RefreshHint::Quality);
    assert_eq!(out.update.rects.len(), 1);
    assert_eq!(out.update.rects[0].rect, Rect { x: 0, y: 0, width: 2, height: 1 });
    assert_eq!(out.update.rects[0].gray8, vec![1, 2]);
    s.sent(true, true);
    assert!(!s.pending_full && !s.ready && s.latest.is_none());
    assert!(s.take_send().is_none(), "one update in flight");
}

#[test]
fn newest_partial_wins_and_is_taken_once() {
    let mut s = Sink::new(1, 1);
    s.attach(16);
    s.on_frame(Some(partial(1)), vec![1]);
    s.on_frame(Some(partial(2)), vec![2]);
    s.on_frame(None, vec![2]);
    s.on_ready(1);
    let out = s.take_send().unwrap();
    assert!(!out.full);
    assert_eq!(out.update.rects[0].gray8, vec![2]);
    assert!(s.latest.is_none());
    s.sent(false, true);
    s.on_ready(1);
    assert!(s.take_send().is_none(), "nothing new to send");
}

#[test]
fn stale_ready_is_ignored() {
    let mut s = Sink::new(1, 1);
    s.attach(16);
    s.attach(16); // a second client replaces the first
    assert!(!s.on_ready(1));
    assert!(!s.ready);
    assert!(s.on_ready(2));
}

#[test]
fn failed_send_drops_the_client() {
    let mut s = Sink::new(1, 1);
    s.attach(16);
    s.on_frame(Some(partial(3)), vec![3]);
    s.on_ready(1);
    let out = s.take_send().unwrap();
    s.sent(out.full, false);
    assert!(!s.connected);
    assert!(s.take_send().is_none());
    s.drop_client();
    assert!(!s.connected);
}

#[test]
fn full_repaint_waits_for_a_frame() {
    let mut s = Sink::new(1, 1);
    s.attach(16);
    s.request_full();
    s.on_ready(1);
    assert!(s.take_send().is_none());
}

#[test]
fn refresh_policy() {
    assert!(!full_refresh_due(0, 0, 1000, 1000));
    assert!(full_refresh_due(60, 0, 60, 0));
    assert!(!full_refresh_due(60, 0, 59, 0));
    assert!(full_refresh_due(0, 1, 0, 1));
    assert!(!full_refresh_due(0, 2, 0, 1));
}

#[test]
fn fast_hint_for_writing_and_video_only() {
    assert_eq!(hint_for(Some("writing")), RefreshHint::Fast);
    assert_eq!(hint_for(Some("video")), RefreshHint::Fast);
    assert_eq!(hint_for(Some("reading")), RefreshHint::Auto);
    assert_eq!(hint_for(None), RefreshHint::Auto);
}

#[test]
fn rects_are_cut_from_the_frame() {
    let frame: Vec<u8> = (0..20u8).collect(); // 5 wide, 4 tall
    let r = CoreRect { x: 1, y: 2, width: 3, height: 2 };
    assert_eq!(extract_gray(&frame, 5, r), vec![11, 12, 13, 16, 17, 18]);
    let mut rgba = vec![9; 3];
    extract_rect_rgba(&frame, 5, CoreRect { x: 4, y: 0, width: 1, height: 2 }, &mut rgba);
    assert_eq!(rgba, vec![4, 4, 4, 255, 9, 9, 9, 255]);
    assert_eq!(to_proto_rect(r), Rect { x: 1, y: 2, width: 3, height: 2 });
    let u = partial_update(&frame, 5, &vec![r], RefreshHint::Fast);
    assert_eq!(u.refresh_hint, RefreshHint::Fast);
    assert_eq!(u.rects[0].gray8, vec![11, 12, 13, 16, 17, 18]);
}

#[test]
fn mode_announcements_only_on_change() {
    let mut last = Some("reading".to_string());
    assert_eq!(announce_mode(&mut last, Some("reading".to_string())), None);
    assert_eq!(announce_mode(&mut last, Some("video".to_string())), Some("video".to_string()));
    assert_eq!(last, Some("video".to_string()));
    assert_eq!(announce_mode(&mut last, None), None);
    assert_eq!(last, None);
}

#[test]
fn vnc_reacts_to_settings_changes() {
    let a = ModeSettings { eink: EinkConfig::default(), fps: 15, tile_size: 64, full_refresh_secs: 60, full_refresh_updates: 0 };
    let mut b = a;
    assert!(same_settings(&a, &b));
    assert_eq!(settings_reaction(&a, &b), SettingsReaction::Nothing);
    b.fps = 5;
    assert_eq!(settings_reaction(&a, &b), SettingsReaction::MarkDirty);
    b.tile_size = 32;
    assert_eq!(settings_reaction(&a, &b), SettingsReaction::RebuildTiler);
}

#[test]
fn no_update_without_ready_then_flows_after() {
    // A fresh 32x24 session: hello with the configured levels, then a full
    // paint owed.
    let mut sink = Sink::new(32, 24);
    let hello = sink.attach(16);
    match hello {
        Message::ServerHello(h) => assert_eq!((h.width, h.height, h.levels), (32, 24, 16)),
        other => panic!("expected ServerHello, got {other:?}"),
    }
    sink.request_full();
    let mut tiler = TileDiff::new(64, 8);
    // Several frames arrive without a Ready: nothing may go out.
    for i in 0..3u8 {
        let data = vec![10 * i; 32 * 24];
        let rects = tiler.diff(&data, (32, 24));
        let update = if rects.is_empty() {
            None
        } else {
            Some(partial_update(&data, 32, &rects, RefreshHint::Auto))
        };
        sink.on_frame(update, data);
        assert!(sink.take_send().is_none(), "an update went out before any Ready");
    }
    // Ready: the newest frame arrives as a full-quality paint.
    assert!(sink.on_ready(sink.generation));
    let out = sink.take_send().expect("an Update after Ready");
    assert!(out.full);
    assert_eq!(out.update.refresh_hint, RefreshHint::Quality, "first paint is a full refresh");
    assert_eq!(out.update.rects.len(), 1);
    assert_eq!((out.update.rects[0].rect.width, out.update.rects[0].rect.height), (32, 24));
    assert_eq!(out.update.rects[0].gray8.len(), 32 * 24);
    assert!(out.update.rects[0].gray8.iter().all(|&p| p == 20));
}

#[test]
fn refresh_schedule_counts_updates_and_restarts() {
    let mut s = RefreshSchedule::new();
    // Every third incremental update forces a full refresh; time is off.
    assert!(!s.on_frame(true, 0, 3, 1000));
    assert!(!s.on_frame(false, 0, 3, 1000), "an unchanged frame is not an update");
    assert!(!s.on_frame(true, 0, 3, 1000));
    assert!(s.on_frame(true, 0, 3, 1000));
    assert_eq!(s.updates_since_full, 0);
    // By time: due once the interval has passed, changed or not.
    assert!(!s.on_frame(false, 60, 0, 59));
    assert!(s.on_frame(false, 60, 0, 60));
    // Both off: never due.
    for _ in 0..10 {
        assert!(!s.on_frame(true, 0, 0, u64::MAX));
    }
    assert_eq!(s.updates_since_full, 10);
    s.restart();
    assert_eq!(s.updates_since_full, 0);
}
