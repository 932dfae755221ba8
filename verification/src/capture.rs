//! The decisions of live screen capture (ext-image-copy-capture-v1).
//!
//! The capture thread owns the Wayland connection and its protocol objects;
//! what it decides between dispatches — which output to capture, which shm
//! format to ask for and how to read it, whether a renegotiated size is
//! acceptable, what a failed frame means — lives here.

use vstd::prelude::*;

use crate::frame::PixelFormat;
use crate::mode::same_name;

verus! {

/// A `wl_shm` pixel format, as the compositor offers it.
#[derive(Debug, Clone, Copy, PartialEq, Eq, Structural)]
pub enum ShmFormat {
    Argb8888,
    Xrgb8888,
    Xbgr8888,
    Abgr8888,
    /// Any other format, by its `wl_shm` code.
    Other(u32),
}

/// The formats we can convert cheaply (4-byte little-endian layouts), most
/// preferred first.
pub open spec fn preferred() -> Seq<ShmFormat> {
    seq![ShmFormat::Xrgb8888, ShmFormat::Argb8888, ShmFormat::Xbgr8888, ShmFormat::Abgr8888]
}

/// The first preferred format among `offered`, if any.
pub open spec fn pick_spec(offered: Seq<ShmFormat>) -> Option<ShmFormat> {
    if offered.contains(ShmFormat::Xrgb8888) {
        Some(ShmFormat::Xrgb8888)
    } else if offered.contains(ShmFormat::Argb8888) {
        Some(ShmFormat::Argb8888)
    } else if offered.contains(ShmFormat::Xbgr8888) {
        Some(ShmFormat::Xbgr8888)
    } else if offered.contains(ShmFormat::Abgr8888) {
        Some(ShmFormat::Abgr8888)
    } else {
        None
    }
}

fn offers(offered: &[ShmFormat], f: ShmFormat) -> (r: bool)
    ensures
        r == offered@.contains(f),
{
    let mut i: usize = 0;
    while i < offered.len()
        invariant
            i <= offered@.len(),
            forall|k: int| 0 <= k < i ==> offered@[k] != f,
        decreases offered@.len() - i,
    {
        if offered[i] == f {
            proof {
                assert(offered@[i as int] == f);
            }
            return true;
        }
        i = i + 1;
    }
    false
}

/// Prefer formats we can convert cheaply; 4-byte little-endian layouts only.
pub fn pick_shm_format(offered: &[ShmFormat]) -> (r: Option<ShmFormat>)
    ensures
        r == pick_spec(offered@),
{
    if offers(offered, ShmFormat::Xrgb8888) {
        Some(ShmFormat::Xrgb8888)
    } else if offers(offered, ShmFormat::Argb8888) {
        Some(ShmFormat::Argb8888)
    } else if offers(offered, ShmFormat::Xbgr8888) {
        Some(ShmFormat::Xbgr8888)
    } else if offers(offered, ShmFormat::Abgr8888) {
        Some(ShmFormat::Abgr8888)
    } else {
        None
    }
}

/// How a captured buffer of format `shm` lays out in memory:
/// xrgb8888 on little-endian = B,G,R,X.
pub open spec fn frame_format_spec(shm: ShmFormat) -> PixelFormat {
    match shm {
        ShmFormat::Xrgb8888 | ShmFormat::Argb8888 => PixelFormat::Bgrx8888,
        _ => PixelFormat::Rgbx8888,
    }
}

pub fn frame_format_for(shm: ShmFormat) -> (f: PixelFormat)
    ensures
        f == frame_format_spec(shm),
        (shm == ShmFormat::Xrgb8888 || shm == ShmFormat::Argb8888) ==> f == PixelFormat::Bgrx8888,
        (shm == ShmFormat::Xbgr8888 || shm == ShmFormat::Abgr8888) ==> f == PixelFormat::Rgbx8888,
{
    match shm {
        ShmFormat::Xrgb8888 | ShmFormat::Argb8888 => PixelFormat::Bgrx8888,
        _ => PixelFormat::Rgbx8888,
    }
}

/// Whether an output's name is `wanted`.
pub open spec fn named(o: Option<String>, wanted: Seq<char>) -> bool {
    match o {
        Some(n) => n@ == wanted,
        None => false,
    }
}

/// The index of the first output named `wanted`.
pub open spec fn output_position(names: Seq<Option<String>>, wanted: Seq<char>) -> Option<int> {
    if exists|i: int| 0 <= i < names.len() && named(#[trigger] names[i], wanted) {
        Some(
            choose|i: int|
                0 <= i < names.len() && named(#[trigger] names[i], wanted) && forall|k: int|
                    0 <= k < i ==> !named(names[k], wanted),
        )
    } else {
        None
    }
}

/// Which output to capture: the first one named `wanted`, or the first one
/// when no name was asked for. `None` when the name is not found.
pub fn select_output(names: &Vec<Option<String>>, wanted: &Option<String>) -> (r: Option<usize>)
    ensures
        match wanted {
            None => r == Some(0usize),
            Some(w) => match output_position(names@, w@) {
                Some(i) => r == Some(i as usize),
                None => r is None,
            },
        },
{
    match wanted {
        None => Some(0),
        Some(w) => find_output(names, w.as_str()),
    }
}

fn find_output(names: &Vec<Option<String>>, w: &str) -> (r: Option<usize>)
    ensures
        match output_position(names@, w@) {
            Some(i) => r == Some(i as usize),
            None => r is None,
        },
{
    let mut i: usize = 0;
    while i < names.len()
        invariant
            i <= names@.len(),
            forall|k: int| 0 <= k < i ==> !named(names@[k], w@),
        decreases names@.len() - i,
    {
        match &names[i] {
            Some(n) => {
                if same_name(n.as_str(), w) {
                    proof {
                        assert(named(names@[i as int], w@));
                        assert(0 <= i < names@.len() && named(names@[i as int], w@) && forall|k: int|
                            0 <= k < i ==> !named(names@[k], w@));
                        let j = choose|j: int|
                            0 <= j < names@.len() && named(#[trigger] names@[j], w@) && forall|k: int|
                                0 <= k < j ==> !named(names@[k], w@);
                        if j < i {
                        } else if j > i {
                            assert(!named(names@[i as int], w@));
                        }
                    }
                    return Some(i);
                }
            },
            None => {},
        }
        i = i + 1;
    }
    None
}

/// What a (re)negotiated buffer size means for the running mirror.
#[derive(Debug, Clone, Copy, PartialEq, Eq, Structural)]
pub enum SizeCheck {
    /// The first negotiation: announce this size to the transports.
    Announce,
    /// Same size as announced (e.g. a format-only renegotiation).
    Same,
    /// The size changed: the transports were sized from the first one, and
    /// live resize is not supported.
    Changed,
}

pub fn check_size(announced: Option<(u32, u32)>, now: (u32, u32)) -> (r: SizeCheck)
    ensures
        r == match announced {
            None => SizeCheck::Announce,
            Some(prev) => if prev == now {
                SizeCheck::Same
            } else {
                SizeCheck::Changed
            },
        },
{
    match announced {
        None => SizeCheck::Announce,
        Some(prev) => if prev.0 == now.0 && prev.1 == now.1 {
            SizeCheck::Same
        } else {
            SizeCheck::Changed
        },
    }
}

/// Why the compositor failed a frame.
#[derive(Debug, Clone, Copy, PartialEq, Eq, Structural)]
pub enum FrameFailure {
    Unknown,
    /// The buffer no longer fits the session's constraints.
    BufferConstraints,
    /// The session ended (e.g. the output went away).
    Stopped,
}

/// What to do about a failed frame.
#[derive(Debug, Clone, Copy, PartialEq, Eq, Structural)]
pub enum FailureAction {
    /// New constraints are (or will be) queued: renegotiate the buffer.
    Renegotiate,
    /// End the capture.
    Stop,
    /// Capture again with the same buffer.
    Retry,
}

pub fn on_frame_failed(reason: FrameFailure) -> (a: FailureAction)
    ensures
        a == match reason {
            FrameFailure::BufferConstraints => FailureAction::Renegotiate,
            FrameFailure::Stopped => FailureAction::Stop,
            FrameFailure::Unknown => FailureAction::Retry,
        },
{
    match reason {
        FrameFailure::BufferConstraints => FailureAction::Renegotiate,
        FrameFailure::Stopped => FailureAction::Stop,
        FrameFailure::Unknown => FailureAction::Retry,
    }
}

/// Size of the shared-memory buffer for a `width`×`height` capture:
/// 4 bytes per pixel, rows tightly packed (stride, length).
pub fn buffer_layout(width: u32, height: u32) -> (r: (u32, u32))
    requires
        4 * width <= u32::MAX,
        4 * width * height <= u32::MAX,
    ensures
        r.0 == 4 * width,
        r.1 == 4 * width * height,
{
    let stride = width * 4;
    proof {
        assert(stride * height == 4 * width * height) by (nonlinear_arith)
            requires
                stride == width * 4,
        ;
    }
    (stride, stride * height)
}

/// What the capture loop does next, once per turn of its event loop.
#[derive(Debug, Clone, Copy, PartialEq, Eq, Structural)]
pub enum CaptureStep {
    /// The session ended (the output went away, or a frame reported it):
    /// release the buffer and end capture.
    Stop,
    /// New buffer constraints (or a frame refused the buffer): release the
    /// buffer and negotiate again.
    Renegotiate,
    /// A frame failed for another reason: capture again.
    Retry,
    /// A frame is ready: hand it on, then capture the next one.
    Deliver,
    /// Nothing to do yet: wait for events.
    Wait,
}

/// One turn of the capture loop. A stopped session wins over new
/// constraints, which win over a failed frame, which wins over a ready one.
pub fn capture_step(
    stopped: bool,
    constraints_changed: bool,
    failed: Option<FrameFailure>,
    ready: bool,
) -> (s: CaptureStep)
    ensures
        s == if stopped {
            CaptureStep::Stop
        } else if constraints_changed {
            CaptureStep::Renegotiate
        } else if let Some(reason) = failed {
            match reason {
                FrameFailure::BufferConstraints => CaptureStep::Renegotiate,
                FrameFailure::Stopped => CaptureStep::Stop,
                FrameFailure::Unknown => CaptureStep::Retry,
            }
        } else if ready {
            CaptureStep::Deliver
        } else {
            CaptureStep::Wait
        },
{
    if stopped {
        return CaptureStep::Stop;
    }
    if constraints_changed {
        return CaptureStep::Renegotiate;
    }
    match failed {
        Some(reason) => match on_frame_failed(reason) {
            FailureAction::Renegotiate => CaptureStep::Renegotiate,
            FailureAction::Stop => CaptureStep::Stop,
            FailureAction::Retry => CaptureStep::Retry,
        },
        None => if ready {
            CaptureStep::Deliver
        } else {
            CaptureStep::Wait
        },
    }
}

/// Each shm format maps to its byte order in memory (little-endian
/// `wl_shm`): xrgb8888 and argb8888 are B,G,R,X; xbgr8888 and abgr8888 are
/// R,G,B,X. The preferred formats are tried in the order xrgb, argb, xbgr,
/// abgr, and only an offered one is ever chosen.
pub proof fn lemma_shm_byte_order(offered: Seq<ShmFormat>)
    ensures
        frame_format_spec(ShmFormat::Xrgb8888) == PixelFormat::Bgrx8888,
        frame_format_spec(ShmFormat::Argb8888) == PixelFormat::Bgrx8888,
        frame_format_spec(ShmFormat::Xbgr8888) == PixelFormat::Rgbx8888,
        frame_format_spec(ShmFormat::Abgr8888) == PixelFormat::Rgbx8888,
        pick_spec(offered) matches Some(f) ==> offered.contains(f) && f != ShmFormat::Other(
            0,
        ) && !(f is Other),
        offered.contains(ShmFormat::Xrgb8888) ==> pick_spec(offered) == Some(ShmFormat::Xrgb8888),
        !offered.contains(ShmFormat::Xrgb8888) && offered.contains(ShmFormat::Argb8888)
            ==> pick_spec(offered) == Some(ShmFormat::Argb8888),
        !offered.contains(ShmFormat::Xrgb8888) && !offered.contains(ShmFormat::Argb8888)
            && offered.contains(ShmFormat::Xbgr8888) ==> pick_spec(offered) == Some(
            ShmFormat::Xbgr8888,
        ),
        pick_spec(offered) is None <==> (!offered.contains(ShmFormat::Xrgb8888)
            && !offered.contains(ShmFormat::Argb8888) && !offered.contains(ShmFormat::Xbgr8888)
            && !offered.contains(ShmFormat::Abgr8888)),
{
}

} // verus!
