//! The control protocol's requests, answers and their handling.
//!
//! `papercast ctl ...` sends one request per line to the running mirror,
//! which answers each: switch the display mode, force a full refresh, or
//! report status. The socket, the JSON framing and the channels that carry
//! new settings to the pipeline are the program's; what a request does to
//! the mode state and what it is answered lives here.

use vstd::prelude::*;

use crate::dither::DitherMode;
use crate::eink::{config_eq, same_config, EinkConfig};
use crate::mode::{
    effective_spec, lists_mode_names, overlay_for_spec, views, ModeSettings, ModeState, UnknownMode,
};
use crate::transport::{opt_name, same_settings, settings_eq};

verus! {

/// A control request.
#[derive(Debug, Clone, PartialEq, Eq)]
pub enum Request {
    /// Switch the active display mode.
    Mode { name: String },
    /// Force one full-frame redraw now (the "clear ghosts" button).
    Refresh,
    /// Report the effective settings.
    Status,
}

/// The effective runtime state, for `ctl status`.
#[derive(Debug, PartialEq, Eq)]
pub struct Status {
    /// Active mode name, or `None` for plain base config.
    pub mode: Option<String>,
    pub fps: u32,
    pub levels: u8,
    pub dither: DitherMode,
    pub tile_size: u32,
    pub full_refresh_secs: u64,
    pub full_refresh_updates: u64,
    /// Output framebuffer size (width, height).
    pub framebuffer: (u32, u32),
    /// Captured output name, if one was selected.
    pub output: Option<String>,
}

/// A control response: success with an optional status, or an error.
#[derive(Debug, PartialEq, Eq)]
pub struct Response {
    pub ok: bool,
    pub error: Option<String>,
    pub status: Option<Status>,
}

/// What the program must do after answering a request.
#[derive(Debug, Clone, Copy, PartialEq)]
pub enum Effect {
    /// Nothing.
    Nothing,
    /// Force one full redraw.
    Refresh,
    /// Broadcast these new effective settings (fps first, so the source is
    /// re-paced by the time the serve loop redraws).
    Broadcast(ModeSettings),
}

/// Whether `s` reports `mode` and the settings `e` for this framebuffer and
/// output.
pub open spec fn status_matches(
    s: Status,
    mode: Option<Seq<char>>,
    e: ModeSettings,
    framebuffer: (u32, u32),
    output: Option<Seq<char>>,
) -> bool {
    &&& opt_name(s.mode) == mode
    &&& s.fps == e.fps
    &&& s.levels == e.eink.levels
    &&& s.dither == e.eink.dither
    &&& s.tile_size == e.tile_size
    &&& s.full_refresh_secs == e.full_refresh_secs
    &&& s.full_refresh_updates == e.full_refresh_updates
    &&& s.framebuffer == framebuffer
    &&& opt_name(s.output) == output
}

fn clone_name(n: &Option<String>) -> (r: Option<String>)
    ensures
        opt_name(r) == opt_name(*n),
{
    match n {
        Some(s) => Some(s.clone()),
        None => None,
    }
}

/// The status report for mode `mode` and effective settings `e`.
pub fn status_from(
    mode: Option<String>,
    e: &ModeSettings,
    framebuffer: (u32, u32),
    output: &Option<String>,
) -> (s: Status)
    ensures
        status_matches(s, opt_name(mode), *e, framebuffer, opt_name(*output)),
{
    Status {
        mode,
        fps: e.fps,
        levels: e.eink.levels,
        dither: e.eink.dither,
        tile_size: e.tile_size,
        full_refresh_secs: e.full_refresh_secs,
        full_refresh_updates: e.full_refresh_updates,
        framebuffer,
        output: clone_name(output),
    }
}

fn active_name(state: &ModeState) -> (r: Option<String>)
    ensures
        opt_name(r) == state.active_name(),
{
    match state.active() {
        Some(s) => Some(s.to_owned()),
        None => None,
    }
}

/// The current status of the mirror.
pub fn build_status(state: &ModeState, framebuffer: (u32, u32), output: &Option<String>) -> (s:
    Status)
    ensures
        status_matches(
            s,
            state.active_name(),
            effective_spec(state.base_settings(), state.active_name(), state.custom_modes()),
            framebuffer,
            opt_name(*output),
        ),
{
    let mode = active_name(state);
    let e = state.effective();
    status_from(mode, &e, framebuffer, output)
}

/// Switch mode: on success, the new status and the effective settings to
/// broadcast; an unknown name leaves the state as it was.
pub fn apply_mode(
    state: &mut ModeState,
    name: &str,
    framebuffer: (u32, u32),
    output: &Option<String>,
) -> (r: Result<(Status, ModeSettings), UnknownMode>)
    ensures
        r is Ok <==> overlay_for_spec(old(state).custom_modes(), name@) is Some,
        final(state).base_settings() == old(state).base_settings(),
        final(state).custom_modes() == old(state).custom_modes(),
        r is Ok ==> final(state).active_name() == Some(name@),
        r is Err ==> final(state).active_name() == old(state).active_name(),
        r matches Ok((s, e)) ==> {
            &&& e == effective_spec(
                old(state).base_settings(),
                Some(name@),
                old(state).custom_modes(),
            )
            &&& status_matches(s, Some(name@), e, framebuffer, opt_name(*output))
        },
        r matches Err(err) ==> err.name@ == name@ && lists_mode_names(
            views(err.valid@),
            old(state).custom_modes(),
        ),
{
    match state.set_mode(name) {
        Ok(()) => {},
        Err(e) => {
            return Err(e);
        },
    }
    let effective = state.effective();
    let mode = active_name(state);
    let status = status_from(mode, &effective, framebuffer, output);
    Ok((status, effective))
}

/// Answer one request. Mode and refresh change the running mirror; the
/// program performs the returned effect.
pub fn dispatch(
    req: Request,
    state: &mut ModeState,
    framebuffer: (u32, u32),
    output: &Option<String>,
) -> (r: (Response, Effect))
    ensures
        match req {
            Request::Status => {
                &&& *final(state) == *old(state)
                &&& r.0.ok
                &&& r.0.error is None
                &&& r.0.status matches Some(s) && status_matches(
                    s,
                    old(state).active_name(),
                    effective_spec(
                        old(state).base_settings(),
                        old(state).active_name(),
                        old(state).custom_modes(),
                    ),
                    framebuffer,
                    opt_name(*output),
                )
                &&& r.1 == Effect::Nothing
            },
            Request::Refresh => {
                &&& *final(state) == *old(state)
                &&& r.0.ok
                &&& r.0.error is None
                &&& r.0.status is None
                &&& r.1 == Effect::Refresh
            },
            Request::Mode { name } => {
                let known = overlay_for_spec(old(state).custom_modes(), name@) is Some;
                &&& r.0.ok == known
                &&& final(state).base_settings() == old(state).base_settings()
                &&& final(state).custom_modes() == old(state).custom_modes()
                &&& known ==> {
                    let e = effective_spec(
                        old(state).base_settings(),
                        Some(name@),
                        old(state).custom_modes(),
                    );
                    &&& final(state).active_name() == Some(name@)
                    &&& r.0.error is None
                    &&& r.0.status matches Some(s) && status_matches(
                        s,
                        Some(name@),
                        e,
                        framebuffer,
                        opt_name(*output),
                    )
                    &&& r.1 == Effect::Broadcast(e)
                }
                &&& !known ==> {
                    &&& final(state).active_name() == old(state).active_name()
                    &&& r.0.error is Some
                    &&& r.0.status is None
                    &&& r.1 == Effect::Nothing
                }
            },
        },
{
    match req {
        Request::Status => {
            let s = build_status(state, framebuffer, output);
            (Response { ok: true, error: None, status: Some(s) }, Effect::Nothing)
        },
        Request::Refresh => (Response { ok: true, error: None, status: None }, Effect::Refresh),
        Request::Mode { name } => match apply_mode(state, name.as_str(), framebuffer, output) {
            Ok((s, e)) => (Response { ok: true, error: None, status: Some(s) }, Effect::Broadcast(e)),
            Err(err) => (
                Response { ok: false, error: Some(err.message()), status: None },
                Effect::Nothing,
            ),
        },
    }
}

/// What a config-file edit does to the running mirror. The reloaded `[eink]`
/// is the new base; the active mode's overlay is re-applied on top, so an
/// edit never drops the active mode. Returns the effective settings to
/// broadcast and whether their fps differs from `broadcast_fps`, or `None`
/// when the base did not change or the result is what `broadcast` already
/// carries (the overlay masked the edit).
pub fn reload_base_eink(
    state: &mut ModeState,
    eink: EinkConfig,
    broadcast: &ModeSettings,
    broadcast_fps: u32,
) -> (r: Option<(ModeSettings, bool)>)
    ensures
        final(state).active_name() == old(state).active_name(),
        final(state).custom_modes() == old(state).custom_modes(),
        config_eq(eink, old(state).base_settings().eink) ==> {
            &&& final(state).base_settings() == old(state).base_settings()
            &&& r is None
        },
        !config_eq(eink, old(state).base_settings().eink) ==> {
            let base = ModeSettings { eink, ..old(state).base_settings() };
            let e = effective_spec(base, old(state).active_name(), old(state).custom_modes());
            &&& final(state).base_settings() == base
            &&& r == if settings_eq(e, *broadcast) {
                None
            } else {
                Some((e, e.fps != broadcast_fps))
            }
        },
{
    if same_config(&eink, state.base_eink()) {
        return None;
    }
    state.set_base_eink(eink);
    let effective = state.effective();
    if same_settings(&effective, broadcast) {
        None
    } else {
        Some((effective, effective.fps != broadcast_fps))
    }
}

} // verus!
