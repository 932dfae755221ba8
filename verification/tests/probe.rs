use papercast::probe::{
    contains_bytes, sort_globals, starts_with_bytes, CaptureTier, GlobalEntry, ProbeReport,
};

fn report(names: &[(&str, u32)]) -> ProbeReport {
    let mut r = ProbeReport::default();
    for (n, v) in names {
        r.globals.push(GlobalEntry { interface: n.to_string(), version: *v });
    }
    r
}

#[test]
fn first_matching_global_version() {
    let r = report(&[("wl_shm", 1), ("wl_output", 4), ("wl_output", 3)]);
    assert_eq!(r.global_version("wl_output"), Some(4));
    assert_eq!(r.global_version("wl_seat"), None);
}

#[test]
fn ext_capture_needs_both_managers() {
    let only_one = report(&[("ext_image_copy_capture_manager_v1", 1)]);
    assert!(only_one.supported_tiers().is_empty());
    assert_eq!(only_one.best_tier(), None);
    let both = report(&[
        ("zwlr_screencopy_manager_v1", 3),
        ("ext_output_image_capture_source_manager_v1", 1),
        ("ext_image_copy_capture_manager_v1", 1),
        ("zcosmic_screencopy_manager_v2", 1),
    ]);
    assert_eq!(
        both.supported_tiers(),
        vec![CaptureTier::ExtImageCopyCapture, CaptureTier::CosmicScreencopy, CaptureTier::WlrScreencopy]
    );
    assert_eq!(both.best_tier(), Some(CaptureTier::ExtImageCopyCapture));
}

#[test]
fn capture_like_globals_include_unknown_families() {
    let r = report(&[
        ("wl_compositor", 6),
        ("hyprland_toplevel_export_manager_v1", 1),
        ("zwlr_export_dmabuf_manager_v1", 1),
        ("weird_screencast_thing", 2),
    ]);
    let names: Vec<&str> = r.capture_like_globals().iter().map(|g| g.interface.as_str()).collect();
    assert_eq!(names, ["zwlr_export_dmabuf_manager_v1", "weird_screencast_thing"]);
}

#[test]
fn byte_search() {
    assert!(contains_bytes(b"abcdef", b"cde"));
    assert!(contains_bytes(b"abc", b""));
    assert!(!contains_bytes(b"abc", b"abcd"));
    assert!(starts_with_bytes(b"zcosmic_x", b"zcosmic"));
    assert!(!starts_with_bytes(b"zc", b"zcosmic"));
}

#[test]
fn globals_sort_by_name_keeping_equal_names_in_order() {
    let g = |n: &str, v: u32| GlobalEntry { interface: n.to_string(), version: v };
    let sorted = sort_globals(vec![
        g("wl_shm", 1),
        g("wl_output", 4),
        g("ext_image_copy_capture_manager_v1", 1),
        g("wl_output", 3),
        g("wl_compositor", 6),
    ]);
    let got: Vec<(String, u32)> = sorted.into_iter().map(|e| (e.interface, e.version)).collect();
    let want = vec![
        ("ext_image_copy_capture_manager_v1".to_string(), 1),
        ("wl_compositor".to_string(), 6),
        ("wl_output".to_string(), 4),
        ("wl_output".to_string(), 3),
        ("wl_shm".to_string(), 1),
    ];
    assert_eq!(got, want);
    assert!(sort_globals(Vec::new()).is_empty());
}
