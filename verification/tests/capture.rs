use papercast::capture::{
    buffer_layout, capture_step, check_size, frame_format_for, on_frame_failed, pick_shm_format,
    select_output, CaptureStep, FailureAction, FrameFailure, ShmFormat, SizeCheck,
};
use papercast::frame::PixelFormat;

#[test]
fn prefers_xrgb_then_argb_then_bgr_layouts() {
    assert_eq!(
        pick_shm_format(&[ShmFormat::Abgr8888, ShmFormat::Argb8888, ShmFormat::Xrgb8888]),
        Some(ShmFormat::Xrgb8888)
    );
    assert_eq!(pick_shm_format(&[ShmFormat::Other(7), ShmFormat::Xbgr8888]), Some(ShmFormat::Xbgr8888));
    assert_eq!(pick_shm_format(&[ShmFormat::Other(7)]), None);
}

#[test]
fn memory_layout_of_formats() {
    assert_eq!(frame_format_for(ShmFormat::Xrgb8888), PixelFormat::Bgrx8888);
    assert_eq!(frame_format_for(ShmFormat::Argb8888), PixelFormat::Bgrx8888);
    assert_eq!(frame_format_for(ShmFormat::Abgr8888), PixelFormat::Rgbx8888);
}

#[test]
fn output_selection() {
    let names = vec![None, Some("eDP-1".to_string()), Some("HDMI-A-1".to_string())];
    assert_eq!(select_output(&names, &None), Some(0));
    assert_eq!(select_output(&names, &Some("HDMI-A-1".to_string())), Some(2));
    assert_eq!(select_output(&names, &Some("DP-9".to_string())), None);
}

#[test]
fn renegotiation_and_failures() {
    assert_eq!(check_size(None, (10, 10)), SizeCheck::Announce);
    assert_eq!(check_size(Some((10, 10)), (10, 10)), SizeCheck::Same);
    assert_eq!(check_size(Some((10, 10)), (10, 11)), SizeCheck::Changed);
    assert_eq!(on_frame_failed(FrameFailure::BufferConstraints), FailureAction::Renegotiate);
    assert_eq!(on_frame_failed(FrameFailure::Stopped), FailureAction::Stop);
    assert_eq!(on_frame_failed(FrameFailure::Unknown), FailureAction::Retry);
    assert_eq!(buffer_layout(1920, 1080), (7680, 7680 * 1080));
}

#[test]
fn capture_step_priorities() {
    assert_eq!(capture_step(true, true, Some(FrameFailure::Unknown), true), CaptureStep::Stop);
    assert_eq!(capture_step(false, true, Some(FrameFailure::Stopped), true), CaptureStep::Renegotiate);
    assert_eq!(capture_step(false, false, Some(FrameFailure::Stopped), true), CaptureStep::Stop);
    assert_eq!(capture_step(false, false, Some(FrameFailure::BufferConstraints), true), CaptureStep::Renegotiate);
    assert_eq!(capture_step(false, false, Some(FrameFailure::Unknown), true), CaptureStep::Retry);
    assert_eq!(capture_step(false, false, None, true), CaptureStep::Deliver);
    assert_eq!(capture_step(false, false, None, false), CaptureStep::Wait);
}
