//! The decisions of the two output transports.
//!
//! The native transport speaks framed protocol messages with pull-based flow
//! control: it only sends an [`Update`] when the client has a `Ready`
//! pending, keeping just the newest frame otherwise, so a slow EPD never
//! builds a latency queue. [`Sink`] is that contract as a state machine; the
//! program around it owns the sockets, performs what [`Sink::take_send`]
//! hands out, and reports back with [`Sink::sent`].
//!
//! Both transports share the periodic full-refresh policy and the geometry
//! helpers that cut changed rects out of a processed frame.

use vstd::prelude::*;

use crate::frame::Rect as CoreRect;
use crate::mode::{same_name, ModeSettings};
use crate::pixel::{gray8_to_rgba, gray_rgba};
use crate::proto::{Message, Rect, RefreshHint, ServerHello, Update, UpdateRect, PROTO_VERSION};

verus! {

// ---------------------------------------------------------------------------
// Geometry
// ---------------------------------------------------------------------------

/// The wire rect of a framebuffer rect (each side truncated to 16 bits; the
/// framebuffer is validated to fit `u16` upstream).
pub open spec fn proto_rect(r: CoreRect) -> Rect {
    Rect { x: r.x as u16, y: r.y as u16, width: r.width as u16, height: r.height as u16 }
}

pub fn to_proto_rect(r: CoreRect) -> (p: Rect)
    ensures
        p == proto_rect(r),
{
    Rect { x: r.x as u16, y: r.y as u16, width: r.width as u16, height: r.height as u16 }
}

/// Whether every row of `r` lies inside a `len`-byte buffer of `stride`-wide
/// rows (the row walk itself must fit `u32`).
pub open spec fn rect_readable(len: int, stride: int, r: CoreRect) -> bool {
    &&& r.y + r.height <= u32::MAX
    &&& r.height > 0 ==> (r.y + r.height - 1) * stride + r.x + r.width <= len
}

/// The pixels of `r` cut from a `stride`-wide Gray8 frame, tightly packed,
/// row-major.
pub open spec fn gray_rect(frame: Seq<u8>, stride: int, r: CoreRect) -> Seq<u8> {
    Seq::new(
        (r.width * r.height) as nat,
        |i: int| frame[(r.y + i / (r.width as int)) * stride + r.x + i % (r.width as int)],
    )
}

/// Row `row` of `r` starts inside the buffer and fits it.
proof fn lemma_row_in_bounds(len: int, stride: int, r: CoreRect, row: int)
    requires
        rect_readable(len, stride, r),
        stride >= 0,
        0 <= row < r.height,
    ensures
        0 <= (r.y + row) * stride,
        (r.y + row) * stride + r.x + r.width <= len,
{
    assert((r.y + row) * stride <= (r.y + r.height - 1) * stride) by (nonlinear_arith)
        requires
            0 <= row < r.height,
            stride >= 0,
    ;
    assert(0 <= (r.y + row) * stride) by (nonlinear_arith)
        requires
            0 <= row,
            stride >= 0,
    ;
}

/// Pixel `col` of row `row` of a `w`-wide packed rect sits at `row * w + col`.
proof fn lemma_packed_index(w: int, row: int, col: int)
    requires
        w > 0,
        0 <= row,
        0 <= col < w,
    ensures
        (row * w + col) / w == row,
        (row * w + col) % w == col,
{
    vstd::arithmetic::div_mod::lemma_fundamental_div_mod_converse(row * w + col, w, row, col);
}

/// Copy a sub-rectangle out of a full-frame Gray8 buffer into a
/// tightly-packed, row-major buffer (what the wire format carries).
pub fn extract_gray(frame: &[u8], stride: u16, r: CoreRect) -> (out: Vec<u8>)
    requires
        rect_readable(frame@.len() as int, stride as int, r),
    ensures
        out@ == gray_rect(frame@, stride as int, r),
{
    let s = stride as usize;
    let flen = frame.len();
    let mut out: Vec<u8> = Vec::new();
    let mut row: u32 = 0;
    let ghost w = r.width as int;
    while row < r.height
        invariant
            flen == frame@.len(),
            rect_readable(frame@.len() as int, stride as int, r),
            s == stride,
            w == r.width,
            row <= r.height,
            out@.len() == row * w,
            forall|i: int| 0 <= i < row * w ==> #[trigger] out@[i] == gray_rect(frame@, s as int, r)[i],
        decreases r.height - row,
    {
        proof {
            lemma_row_in_bounds(frame@.len() as int, s as int, r, row as int);
        }
        let start = (r.y + row) as usize * s + r.x as usize;
        let mut col: u32 = 0;
        while col < r.width
            invariant
                flen == frame@.len(),
                rect_readable(frame@.len() as int, stride as int, r),
                s == stride,
                w == r.width,
                row < r.height,
                col <= r.width,
                start == (r.y + row) * s + r.x,
                start + r.width <= frame@.len(),
                out@.len() == row * w + col,
                forall|i: int|
                    0 <= i < row * w + col ==> #[trigger] out@[i] == gray_rect(frame@, s as int, r)[i],
            decreases r.width - col,
        {
            proof {
                lemma_packed_index(w, row as int, col as int);
                assert(row * w + col < (r.width * r.height)) by (nonlinear_arith)
                    requires
                        row < r.height,
                        col < w,
                        w == r.width,
                ;
            }
            out.push(frame[start + col as usize]);
            col = col + 1;
        }
        proof {
            assert((row + 1) * w == row * w + w) by (nonlinear_arith);
        }
        row = row + 1;
    }
    proof {
        assert(row * w == r.width * r.height) by (nonlinear_arith)
            requires
                row == r.height,
                w == r.width,
        ;
        assert(out@ =~= gray_rect(frame@, s as int, r));
    }
    out
}

/// Whether the row walk of `r` keeps its `u32` offsets in range.
pub open spec fn rect_offsets_fit(stride: int, r: CoreRect) -> bool {
    r.height > 0 ==> (r.y + r.height - 1) * stride + r.x <= u32::MAX
}

/// Cut `r` out of a `stride`-wide Gray8 frame as RGBA (each gray byte `g`
/// becomes `g, g, g, 255`), reusing `out`'s allocation.
pub fn extract_rect_rgba(gray: &[u8], stride: u32, rect: CoreRect, out: &mut Vec<u8>)
    requires
        stride <= u16::MAX,
        rect_readable(gray@.len() as int, stride as int, rect),
        rect_offsets_fit(stride as int, rect),
        4 * rect.width * rect.height <= usize::MAX,
    ensures
        final(out)@ == gray_rgba(gray_rect(gray@, stride as int, rect)),
{
    let packed = extract_gray(gray, stride as u16, rect);
    assert(4 * rect.width * rect.height == 4 * (rect.width * rect.height)) by (nonlinear_arith);
    gray8_to_rgba(packed.as_slice(), out);
}

// ---------------------------------------------------------------------------
// Refresh policy
// ---------------------------------------------------------------------------

/// Whether a full repaint is owed: periodically by time (every
/// `full_refresh_secs`, 0 = off) or by count (after `full_refresh_updates`
/// incremental updates, 0 = off).
pub open spec fn full_refresh_due_spec(
    full_refresh_secs: u64,
    full_refresh_updates: u64,
    elapsed_secs: u64,
    updates_since_full: u64,
) -> bool {
    (full_refresh_secs > 0 && elapsed_secs >= full_refresh_secs) || (full_refresh_updates > 0
        && updates_since_full >= full_refresh_updates)
}

pub fn full_refresh_due(
    full_refresh_secs: u64,
    full_refresh_updates: u64,
    elapsed_secs: u64,
    updates_since_full: u64,
) -> (due: bool)
    ensures
        due == full_refresh_due_spec(
            full_refresh_secs,
            full_refresh_updates,
            elapsed_secs,
            updates_since_full,
        ),
        full_refresh_secs > 0 && elapsed_secs >= full_refresh_secs ==> due,
        full_refresh_updates > 0 && updates_since_full >= full_refresh_updates ==> due,
        due ==> (full_refresh_secs > 0 && elapsed_secs >= full_refresh_secs) || (
        full_refresh_updates > 0 && updates_since_full >= full_refresh_updates),
{
    let due_time = full_refresh_secs > 0 && elapsed_secs >= full_refresh_secs;
    let due_count = full_refresh_updates > 0 && updates_since_full >= full_refresh_updates;
    due_time || due_count
}

/// Which EPD waveform intent to request for a partial update: writing/video
/// mode want the fast waveform; everything else lets the receiver decide.
/// (Forced full refreshes always request quality — see [`Sink::take_send`].)
/// The incremental-update count since the last full refresh, shared by both
/// transports' serve loops (the elapsed time is measured by the caller).
pub struct RefreshSchedule {
    pub updates_since_full: u64,
}

/// The count after one more processed frame (saturating; `changed` when the
/// frame produced a partial update).
pub open spec fn counted(n: u64, changed: bool) -> u64 {
    if changed && n < u64::MAX {
        (n + 1) as u64
    } else {
        n
    }
}

impl RefreshSchedule {
    pub fn new() -> (s: Self)
        ensures
            s.updates_since_full == 0,
    {
        RefreshSchedule { updates_since_full: 0 }
    }

    /// A full refresh happened (or was requested): start counting anew.
    pub fn restart(&mut self)
        ensures
            final(self).updates_since_full == 0,
    {
        self.updates_since_full = 0;
    }

    /// A frame was processed. Returns whether a full refresh is now due
    /// under `settings`, `elapsed_secs` after the last one; when it is, the
    /// count restarts (and the caller restarts its clock).
    pub fn on_frame(
        &mut self,
        changed: bool,
        full_refresh_secs: u64,
        full_refresh_updates: u64,
        elapsed_secs: u64,
    ) -> (due: bool)
        ensures
            due == full_refresh_due_spec(
                full_refresh_secs,
                full_refresh_updates,
                elapsed_secs,
                counted(old(self).updates_since_full, changed),
            ),
            final(self).updates_since_full == if due {
                0
            } else {
                counted(old(self).updates_since_full, changed)
            },
    {
        if changed && self.updates_since_full < u64::MAX {
            self.updates_since_full = self.updates_since_full + 1;
        }
        let due = full_refresh_due(
            full_refresh_secs,
            full_refresh_updates,
            elapsed_secs,
            self.updates_since_full,
        );
        if due {
            self.updates_since_full = 0;
        }
        due
    }
}

/// With the count policy at `n` and no time policy, a schedule that starts
/// from a full refresh and sees only changed frames owes the next full
/// refresh exactly at the `n`-th of them.
pub proof fn lemma_refresh_after_n_updates(n: u64, k: u64, elapsed_secs: u64)
    requires
        n > 0,
        k < u64::MAX,
    ensures
        full_refresh_due_spec(0, n, elapsed_secs, counted(k, true)) == (k + 1 >= n),
{
}

pub open spec fn hint_for_spec(active: Option<Seq<char>>) -> RefreshHint {
    match active {
        Some(n) => if n == "writing"@ || n == "video"@ {
            RefreshHint::Fast
        } else {
            RefreshHint::Auto
        },
        None => RefreshHint::Auto,
    }
}

pub fn hint_for(active: Option<&str>) -> (h: RefreshHint)
    ensures
        h == hint_for_spec(
            match active {
                Some(s) => Some(s@),
                None => None,
            },
        ),
{
    match active {
        Some(name) => if same_name(name, "writing") || same_name(name, "video") {
            RefreshHint::Fast
        } else {
            RefreshHint::Auto
        },
        None => RefreshHint::Auto,
    }
}

/// The rects of a partial update: each changed rect with its pixels.
pub open spec fn update_rects(frame: Seq<u8>, stride: int, rects: Seq<CoreRect>) -> Seq<
    (Rect, Seq<u8>),
> {
    Seq::new(rects.len(), |i: int| (proto_rect(rects[i]), gray_rect(frame, stride, rects[i])))
}

/// Package the changed rects of a processed frame as a partial update.
pub fn partial_update(frame: &[u8], stride: u16, rects: &Vec<CoreRect>, hint: RefreshHint) -> (u:
    Update)
    requires
        forall|i: int|
            0 <= i < rects@.len() ==> rect_readable(
                frame@.len() as int,
                stride as int,
                #[trigger] rects@[i],
            ),
    ensures
        u@ == (hint, update_rects(frame@, stride as int, rects@)),
{
    let mut out: Vec<UpdateRect> = Vec::new();
    let mut i: usize = 0;
    while i < rects.len()
        invariant
            forall|k: int|
                0 <= k < rects@.len() ==> rect_readable(
                    frame@.len() as int,
                    stride as int,
                    #[trigger] rects@[k],
                ),
            i <= rects@.len(),
            out@.len() == i,
            forall|k: int|
                0 <= k < i ==> (#[trigger] out@[k])@ == update_rects(
                    frame@,
                    stride as int,
                    rects@,
                )[k],
        decreases rects@.len() - i,
    {
        let r = rects[i];
        let gray8 = extract_gray(frame, stride, r);
        out.push(UpdateRect { rect: to_proto_rect(r), gray8 });
        i = i + 1;
    }
    let u = Update { refresh_hint: hint, rects: out };
    proof {
        assert(u@.1 =~= update_rects(frame@, stride as int, rects@));
    }
    u
}

// ---------------------------------------------------------------------------
// The pull contract
// ---------------------------------------------------------------------------

/// An update the client is owed, and whether it is the full repaint.
pub struct Outgoing {
    pub update: Update,
    pub full: bool,
}

/// The one connected client plus everything gating what it's owed.
pub struct Sink {
    /// A client is connected.
    pub connected: bool,
    /// A `Ready` is pending — the client will accept exactly one update.
    pub ready: bool,
    /// A full-quality repaint is owed (mode change, periodic ghost-clear, ctl
    /// refresh, or a fresh connection). Takes priority over `latest` and, once
    /// sent, supersedes it.
    pub pending_full: bool,
    /// Newest partial update, replaced on every frame (keep-newest).
    pub latest: Option<Update>,
    /// Last full processed frame, so a full repaint can be sent even when no
    /// new frame is arriving (idle screen).
    pub last_frame: Option<Vec<u8>>,
    /// Incremented on every reconnect; a `Ready` carrying an older generation
    /// belongs to a client since replaced and is ignored.
    pub generation: u64,
    pub fb_w: u16,
    pub fb_h: u16,
}

/// The view of an optional update.
pub open spec fn opt_update(u: Option<Update>) -> Option<(RefreshHint, Seq<(Rect, Seq<u8>)>)> {
    match u {
        Some(v) => Some(v@),
        None => None,
    }
}

/// The view of an optional frame.
pub open spec fn opt_frame(f: Option<Vec<u8>>) -> Option<Seq<u8>> {
    match f {
        Some(v) => Some(v@),
        None => None,
    }
}

/// The full repaint of `frame` on a `w`×`h` framebuffer.
pub open spec fn full_update(w: u16, h: u16, frame: Seq<u8>) -> (RefreshHint, Seq<(Rect, Seq<u8>)>) {
    (RefreshHint::Quality, seq![(Rect { x: 0, y: 0, width: w, height: h }, frame)])
}

impl Sink {
    /// What the sink owes: the full repaint when one is pending and a frame
    /// exists, else the newest partial, else nothing; never anything without
    /// a live client and a pending `Ready`.
    pub open spec fn owed(&self) -> Option<(RefreshHint, Seq<(Rect, Seq<u8>)>)> {
        if !self.ready || !self.connected {
            None
        } else if self.pending_full {
            match opt_frame(self.last_frame) {
                Some(f) => Some(full_update(self.fb_w, self.fb_h, f)),
                None => None,
            }
        } else {
            opt_update(self.latest)
        }
    }

    pub fn new(fb_w: u16, fb_h: u16) -> (s: Self)
        ensures
            !s.connected,
            !s.ready,
            !s.pending_full,
            s.latest is None,
            s.last_frame is None,
            s.generation == 0,
            s.fb_w == fb_w,
            s.fb_h == fb_h,
    {
        Sink {
            connected: false,
            ready: false,
            pending_full: false,
            latest: None,
            last_frame: None,
            generation: 0,
            fb_w,
            fb_h,
        }
    }

    /// Replace the current client (a second connection supersedes the
    /// first), bumping the generation so the old client's stray `Ready`s are
    /// ignored. Returns the hello to greet it with.
    pub fn attach(&mut self, levels: u8) -> (hello: Message)
        requires
            old(self).generation < u64::MAX,
        ensures
            final(self).connected,
            !final(self).ready,
            final(self).generation == old(self).generation + 1,
            final(self).pending_full == old(self).pending_full,
            opt_update(final(self).latest) == opt_update(old(self).latest),
            opt_frame(final(self).last_frame) == opt_frame(old(self).last_frame),
            final(self).fb_w == old(self).fb_w,
            final(self).fb_h == old(self).fb_h,
            hello == Message::ServerHello(
                ServerHello {
                    proto_version: PROTO_VERSION,
                    width: old(self).fb_w,
                    height: old(self).fb_h,
                    levels,
                },
            ),
    {
        self.connected = true;
        self.ready = false;
        self.generation = self.generation + 1;
        Message::ServerHello(
            ServerHello { proto_version: PROTO_VERSION, width: self.fb_w, height: self.fb_h, levels },
        )
    }

    /// A full-quality repaint is now owed.
    pub fn request_full(&mut self)
        ensures
            final(self).pending_full,
            final(self).connected == old(self).connected,
            final(self).ready == old(self).ready,
            final(self).generation == old(self).generation,
            opt_update(final(self).latest) == opt_update(old(self).latest),
            opt_frame(final(self).last_frame) == opt_frame(old(self).last_frame),
            final(self).fb_w == old(self).fb_w,
            final(self).fb_h == old(self).fb_h,
    {
        self.pending_full = true;
    }

    /// A `Ready` arrived, read under connection `generation`. One from a
    /// replaced client changes nothing; returns whether it counted.
    pub fn on_ready(&mut self, generation: u64) -> (counted: bool)
        ensures
            counted == (generation == old(self).generation),
            final(self).ready == (counted || old(self).ready),
            final(self).connected == old(self).connected,
            final(self).pending_full == old(self).pending_full,
            final(self).generation == old(self).generation,
            opt_update(final(self).latest) == opt_update(old(self).latest),
            opt_frame(final(self).last_frame) == opt_frame(old(self).last_frame),
            final(self).fb_w == old(self).fb_w,
            final(self).fb_h == old(self).fb_h,
    {
        if generation == self.generation {
            self.ready = true;
            true
        } else {
            false
        }
    }

    /// A processed frame arrived: keep it for full repaints, and make its
    /// partial update (if anything changed) the newest one.
    pub fn on_frame(&mut self, update: Option<Update>, frame: Vec<u8>)
        ensures
            opt_frame(final(self).last_frame) == Some(frame@),
            opt_update(final(self).latest) == match update {
                Some(u) => Some(u@),
                None => opt_update(old(self).latest),
            },
            final(self).connected == old(self).connected,
            final(self).ready == old(self).ready,
            final(self).pending_full == old(self).pending_full,
            final(self).generation == old(self).generation,
            final(self).fb_w == old(self).fb_w,
            final(self).fb_h == old(self).fb_h,
    {
        match update {
            Some(u) => {
                self.latest = Some(u);
            },
            None => {},
        }
        self.last_frame = Some(frame);
    }

    /// Hand out at most one update, honoring the pull contract: nothing
    /// without a pending `Ready` and a live client, and a full repaint wins
    /// over a partial. A partial is taken out of the sink; the full repaint
    /// stays owed until [`Sink::sent`] confirms it.
    pub fn take_send(&mut self) -> (out: Option<Outgoing>)
        ensures
            match out {
                Some(o) => old(self).owed() == Some(o.update@) && o.full == old(self).pending_full,
                None => old(self).owed() is None,
            },
            out is Some ==> old(self).ready && old(self).connected,
            final(self).connected == old(self).connected,
            final(self).ready == old(self).ready,
            final(self).pending_full == old(self).pending_full,
            final(self).generation == old(self).generation,
            opt_frame(final(self).last_frame) == opt_frame(old(self).last_frame),
            opt_update(final(self).latest) == if out matches Some(o) && !o.full {
                None
            } else {
                opt_update(old(self).latest)
            },
            final(self).fb_w == old(self).fb_w,
            final(self).fb_h == old(self).fb_h,
    {
        if !self.ready || !self.connected {
            return None;
        }
        if self.pending_full {
            match &self.last_frame {
                Some(frame) => {
                    let rect = Rect { x: 0, y: 0, width: self.fb_w, height: self.fb_h };
                    let pixels = frame.clone();
                    let update = Update {
                        refresh_hint: RefreshHint::Quality,
                        rects: vec![UpdateRect { rect, gray8: pixels }],
                    };
                    proof {
                        assert(update@.1 =~= full_update(self.fb_w, self.fb_h, frame@).1);
                    }
                    Some(Outgoing { update, full: true })
                },
                None => None,
            }
        } else {
            match self.latest.take() {
                Some(update) => Some(Outgoing { update, full: false }),
                None => None,
            }
        }
    }

    /// The outcome of writing what [`Sink::take_send`] handed out. On
    /// success the pending `Ready` is used up, and a full repaint is no
    /// longer owed and supersedes any pending partial. On failure the client
    /// is dropped; a dropped partial is not retried (the next client gets a
    /// full paint).
    pub fn sent(&mut self, full: bool, ok: bool)
        ensures
            ok ==> !final(self).ready && final(self).connected == old(self).connected,
            !ok ==> !final(self).connected && final(self).ready == old(self).ready,
            final(self).pending_full == (old(self).pending_full && !(ok && full)),
            opt_update(final(self).latest) == if ok && full {
                None
            } else {
                opt_update(old(self).latest)
            },
            final(self).generation == old(self).generation,
            opt_frame(final(self).last_frame) == opt_frame(old(self).last_frame),
            final(self).fb_w == old(self).fb_w,
            final(self).fb_h == old(self).fb_h,
    {
        if ok {
            if full {
                self.pending_full = false;
                self.latest = None;
            }
            self.ready = false;
        } else {
            self.connected = false;
        }
    }

    /// A write of some other message (hello, mode change) failed: drop the
    /// client.
    pub fn drop_client(&mut self)
        ensures
            !final(self).connected,
            final(self).ready == old(self).ready,
            final(self).pending_full == old(self).pending_full,
            final(self).generation == old(self).generation,
            opt_update(final(self).latest) == opt_update(old(self).latest),
            opt_frame(final(self).last_frame) == opt_frame(old(self).last_frame),
            final(self).fb_w == old(self).fb_w,
            final(self).fb_h == old(self).fb_h,
    {
        self.connected = false;
    }
}

/// Once an update went out, nothing more is owed until the next `Ready`:
/// at most one update is ever in flight.
pub proof fn lemma_one_update_in_flight(s: Sink)
    requires
        !s.ready,
    ensures
        s.owed() is None,
{
}

/// A full repaint is owed ahead of any partial, covers the whole
/// framebuffer and asks for the quality waveform.
pub proof fn lemma_full_repaint_first(s: Sink)
    requires
        s.ready,
        s.connected,
        s.pending_full,
        s.last_frame is Some,
    ensures
        s.owed() == Some(full_update(s.fb_w, s.fb_h, s.last_frame.unwrap()@)),
        s.owed().unwrap().0 == RefreshHint::Quality,
        s.owed().unwrap().1.len() == 1,
        s.owed().unwrap().1[0].0 == (Rect { x: 0, y: 0, width: s.fb_w, height: s.fb_h }),
{
}

// ---------------------------------------------------------------------------
// Mode announcements and settings changes
// ---------------------------------------------------------------------------

/// The view of an optional name.
pub open spec fn opt_name(n: Option<String>) -> Option<Seq<char>> {
    match n {
        Some(s) => Some(s@),
        None => None,
    }
}

/// Only announce actual mode-name changes: a config edit re-applies the
/// active mode's overlay without changing its name. Records `current` as
/// the last announced state when it differs, and returns the name to send,
/// if any (a switch to no mode is recorded but not sent).
pub fn announce_mode(last_sent: &mut Option<String>, current: Option<String>) -> (send: Option<
    String,
>)
    ensures
        opt_name(*old(last_sent)) == opt_name(current) ==> {
            &&& send is None
            &&& opt_name(*final(last_sent)) == opt_name(*old(last_sent))
        },
        opt_name(*old(last_sent)) != opt_name(current) ==> {
            &&& opt_name(*final(last_sent)) == opt_name(current)
            &&& opt_name(send) == opt_name(current)
        },
{
    let changed = match (&*last_sent, &current) {
        (Some(a), Some(b)) => !same_name(a.as_str(), b.as_str()),
        (None, None) => false,
        _ => true,
    };
    if !changed {
        return None;
    }
    let send = match &current {
        Some(n) => Some(n.clone()),
        None => None,
    };
    *last_sent = current;
    send
}

/// What the push (VNC) transport does when the settings change.
#[derive(Debug, Clone, Copy, PartialEq, Eq, Structural)]
pub enum SettingsReaction {
    /// The tile size changed: rebuild the differ (its first diff is a full
    /// frame anyway).
    RebuildTiler,
    /// Something else changed: mark the whole framebuffer dirty.
    MarkDirty,
    /// Nothing changed.
    Nothing,
}

/// Whether two settings are equal field by field, the real-valued knobs
/// compared as `f32`s.
pub open spec fn settings_eq(a: ModeSettings, b: ModeSettings) -> bool {
    &&& crate::eink::config_eq(a.eink, b.eink)
    &&& a.fps == b.fps
    &&& a.tile_size == b.tile_size
    &&& a.full_refresh_secs == b.full_refresh_secs
    &&& a.full_refresh_updates == b.full_refresh_updates
}

/// Whether two settings are equal, the real-valued knobs compared as `f32`s.
pub fn same_settings(a: &ModeSettings, b: &ModeSettings) -> (r: bool)
    ensures
        r == settings_eq(*a, *b),
{
    crate::eink::same_config(&a.eink, &b.eink) && a.fps == b.fps && a.tile_size == b.tile_size
        && a.full_refresh_secs == b.full_refresh_secs && a.full_refresh_updates
        == b.full_refresh_updates
}

pub fn settings_reaction(current: &ModeSettings, next: &ModeSettings) -> (r: SettingsReaction)
    ensures
        r == if next.tile_size != current.tile_size {
            SettingsReaction::RebuildTiler
        } else if !settings_eq(*next, *current) {
            SettingsReaction::MarkDirty
        } else {
            SettingsReaction::Nothing
        },
{
    if next.tile_size != current.tile_size {
        SettingsReaction::RebuildTiler
    } else if !same_settings(next, current) {
        SettingsReaction::MarkDirty
    } else {
        SettingsReaction::Nothing
    }
}

// ---------------------------------------------------------------------------
// What the receiver ends up showing
// ---------------------------------------------------------------------------

/// Cell `i` of a `w`-wide frame lies in one of `rects`.
pub open spec fn cell_covered(rects: Seq<CoreRect>, w: int, i: int) -> bool {
    crate::tiles::covered(rects, i % w, i / w)
}

/// A framebuffer rect of a frame whose sides fit `u16` is carried unchanged.
proof fn lemma_proto_rect_exact(r: CoreRect, w: int, h: int)
    requires
        crate::tiles::rect_in_bounds(r, w, h),
        w <= 0xffff,
        h <= 0xffff,
    ensures
        proto_rect(r).x == r.x,
        proto_rect(r).y == r.y,
        proto_rect(r).width == r.width,
        proto_rect(r).height == r.height,
{
}

/// Blitting a rect cut from `cur` writes `cur`'s own pixels.
proof fn lemma_blit_from_frame(q: Seq<u8>, cur: Seq<u8>, w: int, h: int, r: CoreRect)
    requires
        w > 0,
        w <= 0xffff,
        h <= 0xffff,
        q.len() == w * h,
        cur.len() == w * h,
        crate::tiles::rect_in_bounds(r, w, h),
    ensures
        ({
            let b = crate::recv::blit_spec(q, w, proto_rect(r), gray_rect(cur, w, r));
            &&& b.len() == q.len()
            &&& forall|i: int|
                0 <= i < q.len() ==> #[trigger] b[i] == if crate::tiles::rect_contains(
                    r,
                    i % w,
                    i / w,
                ) {
                    cur[i]
                } else {
                    q[i]
                }
        }),
{
    lemma_proto_rect_exact(r, w, h);
    let g = gray_rect(cur, w, r);
    let b = crate::recv::blit_spec(q, w, proto_rect(r), g);
    assert forall|i: int| 0 <= i < q.len() implies #[trigger] b[i] == if crate::tiles::rect_contains(
        r,
        i % w,
        i / w,
    ) {
        cur[i]
    } else {
        q[i]
    } by {
        let row = i / w;
        let col = i % w;
        let p = proto_rect(r);
        assert(crate::recv::covered_cell(p, row, col, p.height as int, 0)
            == crate::tiles::rect_contains(r, col, row));
        if crate::tiles::rect_contains(r, col, row) {
            let wr = r.width as int;
            let idx = (row - r.y) * wr + (col - r.x);
            lemma_packed_index(wr, row - r.y, col - r.x);
            assert(idx < wr * (r.height as int)) by (nonlinear_arith)
                requires
                    idx == (row - r.y) * wr + (col - r.x),
                    0 <= row - r.y < r.height,
                    0 <= col - r.x < wr,
            ;
            assert(0 <= idx) by (nonlinear_arith)
                requires
                    idx == (row - r.y) * wr + (col - r.x),
                    0 <= row - r.y,
                    0 <= col - r.x,
                    wr > 0,
            ;
            vstd::arithmetic::div_mod::lemma_fundamental_div_mod(i, w);
            assert(i == row * w + col) by (nonlinear_arith)
                requires
                    i == w * (i / w) + i % w,
                    row == i / w,
                    col == i % w,
            ;
            assert(g[idx] == cur[(r.y + idx / wr) * w + r.x + idx % wr]);
            assert(b[i] == g[idx]);
        }
    }
}

/// The framebuffer after the first `k` rects of the partial update for
/// `rects`: `cur` where those rects cover, `prev` elsewhere.
proof fn lemma_apply_partial(prev: Seq<u8>, cur: Seq<u8>, w: int, h: int, rects: Seq<CoreRect>, k: nat)
    requires
        0 < w <= 0xffff,
        h <= 0xffff,
        prev.len() == w * h,
        cur.len() == w * h,
        crate::tiles::all_in_bounds(rects, w, h),
        k <= rects.len(),
    ensures
        ({
            let (q, e) = crate::recv::apply_rects(prev, w, h, update_rects(cur, w, rects), k);
            &&& e is None
            &&& q.len() == w * h
            &&& forall|i: int|
                0 <= i < w * h ==> #[trigger] q[i] == if cell_covered(rects.take(k as int), w, i) {
                    cur[i]
                } else {
                    prev[i]
                }
        }),
    decreases k,
{
    let u = update_rects(cur, w, rects);
    if k == 0 {
        let (q, e) = crate::recv::apply_rects(prev, w, h, u, k);
        assert forall|i: int| 0 <= i < w * h implies #[trigger] q[i] == if cell_covered(
            rects.take(k as int),
            w,
            i,
        ) {
            cur[i]
        } else {
            prev[i]
        } by {
            assert(rects.take(0).len() == 0);
        }
    } else {
        lemma_apply_partial(prev, cur, w, h, rects, (k - 1) as nat);
        let (q, e) = crate::recv::apply_rects(prev, w, h, u, (k - 1) as nat);
        let r = rects[k - 1];
        lemma_proto_rect_exact(r, w, h);
        assert(u[k - 1] == (proto_rect(r), gray_rect(cur, w, r)));
        assert(crate::recv::rect_fits(proto_rect(r), w, h));
        lemma_blit_from_frame(q, cur, w, h, r);
        let (q2, e2) = crate::recv::apply_rects(prev, w, h, u, k);
        assert forall|i: int| 0 <= i < w * h implies #[trigger] q2[i] == if cell_covered(
            rects.take(k as int),
            w,
            i,
        ) {
            cur[i]
        } else {
            prev[i]
        } by {
            let before = rects.take(k - 1);
            let after = rects.take(k as int);
            assert(after =~= before.push(r));
            if cell_covered(after, w, i) {
                let j = choose|j: int|
                    0 <= j < after.len() && crate::tiles::rect_contains(
                        #[trigger] after[j],
                        i % w,
                        i / w,
                    );
                if j < k - 1 {
                    assert(before[j] == after[j]);
                    assert(cell_covered(before, w, i));
                }
            }
            if cell_covered(before, w, i) {
                let j = choose|j: int|
                    0 <= j < before.len() && crate::tiles::rect_contains(
                        #[trigger] before[j],
                        i % w,
                        i / w,
                    );
                assert(after[j] == before[j]);
            }
            if crate::tiles::rect_contains(r, i % w, i / w) {
                assert(after[k - 1] == r);
            }
        }
    }
}

/// The receiver reproduces the frame: a framebuffer showing the previous
/// frame, patched with the partial update built from the differ's rects,
/// shows the new frame exactly (for frames whose sides fit `u16`).
pub proof fn lemma_partial_update_reproduces_frame(
    prev: Seq<u8>,
    cur: Seq<u8>,
    w: int,
    h: int,
    tile: int,
    max_rects: int,
)
    requires
        tile >= 8,
        max_rects >= 1,
        0 < w <= 0xffff,
        0 <= h <= 0xffff,
        prev.len() == w * h,
        cur.len() == w * h,
    ensures
        ({
            let rects = crate::tiles::changed_rects(prev, cur, w, h, tile, max_rects);
            crate::recv::apply_rects(prev, w, h, update_rects(cur, w, rects), rects.len())
                == (cur, None::<crate::recv::FrameError>)
        }),
{
    let rects = crate::tiles::changed_rects(prev, cur, w, h, tile, max_rects);
    crate::tiles::lemma_rects_fit_frame(prev, cur, w, h, tile, max_rects);
    lemma_apply_partial(prev, cur, w, h, rects, rects.len());
    let (q, e) = crate::recv::apply_rects(prev, w, h, update_rects(cur, w, rects), rects.len());
    assert(rects.take(rects.len() as int) =~= rects);
    assert forall|i: int| 0 <= i < w * h implies q[i] == cur[i] by {
        let x = i % w;
        let y = i / w;
        vstd::arithmetic::div_mod::lemma_fundamental_div_mod(i, w);
        assert(0 <= y < h) by (nonlinear_arith)
            requires
                0 <= i < w * h,
                w > 0,
                y == i / w,
        ;
        assert(i == y * w + x) by (nonlinear_arith)
            requires
                i == w * (i / w) + i % w,
                y == i / w,
                x == i % w,
        ;
        if !cell_covered(rects, w, i) {
            if cur[i] != prev[i] {
                assert(crate::tiles::pixel_changed(prev, cur, w, x, y));
                crate::tiles::lemma_changed_pixels_covered(prev, cur, w, h, tile, max_rects, x, y);
            }
        }
    }
    assert(q =~= cur);
}

/// A full repaint replaces whatever the receiver showed with the frame.
pub proof fn lemma_full_repaint_reproduces_frame(old_fb: Seq<u8>, frame: Seq<u8>, w: u16, h: u16)
    requires
        w > 0,
        old_fb.len() == w * h,
        frame.len() == w * h,
    ensures
        crate::recv::apply_rects(old_fb, w as int, h as int, full_update(w, h, frame).1, 1)
            == (frame, None::<crate::recv::FrameError>),
{
    let r = CoreRect { x: 0, y: 0, width: w as u32, height: h as u32 };
    assert(crate::tiles::rect_in_bounds(r, w as int, h as int));
    lemma_proto_rect_exact(r, w as int, h as int);
    let u = full_update(w, h, frame).1;
    assert(gray_rect(frame, w as int, r) =~= frame) by {
        assert forall|i: int| 0 <= i < frame.len() implies #[trigger] gray_rect(frame, w as int, r)[i]
            == frame[i] by {
            vstd::arithmetic::div_mod::lemma_fundamental_div_mod(i, w as int);
            assert(i == (i / (w as int)) * (w as int) + i % (w as int)) by (nonlinear_arith)
                requires
                    i == (w as int) * (i / (w as int)) + i % (w as int),
            ;
        }
    }
    assert(u[0] == (proto_rect(r), gray_rect(frame, w as int, r)));
    lemma_blit_from_frame(old_fb, frame, w as int, h as int, r);
    assert(crate::recv::apply_rects(old_fb, w as int, h as int, u, 0) == (
        old_fb,
        None::<crate::recv::FrameError>,
    ));
    let (q, e) = crate::recv::apply_rects(old_fb, w as int, h as int, u, 1);
    assert(q == crate::recv::blit_spec(old_fb, w as int, proto_rect(r), gray_rect(frame, w as int, r)));
    assert forall|i: int| 0 <= i < old_fb.len() implies q[i] == frame[i] by {
        vstd::arithmetic::div_mod::lemma_fundamental_div_mod(i, w as int);
        assert(i / (w as int) < h) by (nonlinear_arith)
            requires
                0 <= i < (w as int) * (h as int),
                w > 0,
        ;
    }
    assert(q =~= frame);
}

/// The two refresh policies are independent: the time policy alone (when
/// on and its interval has passed) makes a full refresh due whatever the
/// count policy says, the count policy alone likewise, and with neither
/// satisfied none is due; a policy set to 0 never fires.
pub proof fn lemma_refresh_policies(secs: u64, updates: u64, elapsed: u64, since: u64)
    ensures
        secs > 0 && elapsed >= secs ==> full_refresh_due_spec(secs, updates, elapsed, since),
        updates > 0 && since >= updates ==> full_refresh_due_spec(secs, updates, elapsed, since),
        (secs == 0 || elapsed < secs) && (updates == 0 || since < updates)
            ==> !full_refresh_due_spec(secs, updates, elapsed, since),
        full_refresh_due_spec(0, 0, elapsed, since) == false,
{
}

/// The latency-sensitive modes, `writing` and `video`, ask the receiver
/// for the fast waveform; every other mode, and no mode, leaves the choice
/// to the device.
pub proof fn lemma_hint_per_mode(name: Seq<char>)
    ensures
        hint_for_spec(Some("writing"@)) == RefreshHint::Fast,
        hint_for_spec(Some("video"@)) == RefreshHint::Fast,
        hint_for_spec(Some("reading"@)) == RefreshHint::Auto,
        hint_for_spec(Some("browsing"@)) == RefreshHint::Auto,
        hint_for_spec(None) == RefreshHint::Auto,
        name != "writing"@ && name != "video"@ ==> hint_for_spec(Some(name)) == RefreshHint::Auto,
        hint_for_spec(Some(name)) != RefreshHint::Quality,
{
    reveal_strlit("writing");
    reveal_strlit("video");
    reveal_strlit("reading");
    reveal_strlit("browsing");
    assert("reading"@[0] != "writing"@[0]);
    assert("reading"@[0] != "video"@[0]);
    assert("browsing"@[0] != "writing"@[0]);
    assert("browsing"@[0] != "video"@[0]);
}

} // verus!
