//! Receiver core: everything below the screen on the tablet side that is not
//! a socket.
//!
//! The receiver holds one Gray8 framebuffer per connection, sized by the
//! sender's `ServerHello` and patched in place by each `Update`. It pulls:
//! one `Ready` out, one `Update` back, so a slow display throttles the
//! sender. The decisions of that loop live here as [`pull_step`]; the thread
//! that reads and writes the socket lives in the program around it.
//!
//! [`RefreshHint`] passes straight through to the sink as intent (Auto / Fast /
//! Quality). Mapping a hint to a concrete e-ink waveform is the display
//! shell's job, never this crate's.

use vstd::prelude::*;

use crate::proto::{decode, Message, ProtoError, RefreshHint, ServerHello, Update};
use crate::proto::{decoded, Rect};

verus! {

/// Reconnect backoff bounds, in milliseconds; reset to the minimum after a
/// successful handshake.
pub const BACKOFF_MIN_MS: u64 = 200;
pub const BACKOFF_MAX_MS: u64 = 5000;

/// A frame ready to draw. `pixels` borrows the receiver's reused framebuffer
/// for the duration of the [`FrameSink::on_frame`] call — copy out what you
/// need to keep.
pub struct FrameView<'a> {
    pub width: u16,
    pub height: u16,
    pub refresh_hint: RefreshHint,
    /// Tightly packed, row-major Gray8, `width * height` bytes.
    pub pixels: &'a [u8],
}

/// The consumer of decoded frames. The display shell implements it to blit
/// into its bitmap and drive the device's refresh backend. All callbacks run
/// on the receiver's own thread.
pub trait FrameSink {
    /// A decoded frame is ready. Returning promptly is what paces the stream:
    /// the receiver sends the next `Ready` only after this returns, so a slow
    /// draw naturally throttles the sender (one update in flight at a time).
    fn on_frame(&mut self, frame: FrameView<'_>);

    /// A connection was established; carries the framebuffer geometry and the
    /// sender's quantization level count. Default: ignore.
    fn on_connect(&mut self, width: u16, height: u16, levels: u8) {
    }

    /// The active display mode changed. Informational only — it never
    /// changes receiver behavior. Default: ignore.
    fn on_mode_changed(&mut self, name: &str) {
    }

    /// An established connection was lost; the receiver will reconnect.
    /// Default: ignore.
    fn on_disconnect(&mut self) {
    }
}

/// Why an update was refused.
#[derive(Debug, Clone, Copy, PartialEq, Eq, Structural)]
pub enum FrameError {
    /// A rect escapes the framebuffer.
    OutOfBounds,
    /// A rect's pixel count disagrees with its size.
    SizeMismatch,
}

/// Whether `r` lies inside a `w`×`h` framebuffer.
pub open spec fn rect_fits(r: Rect, w: int, h: int) -> bool {
    r.x + r.width <= w && r.y + r.height <= h
}

/// Whether framebuffer cell `(row, col)` is among the first `rows` rows of
/// `r`, or the first `cols` columns of the row after them.
pub open spec fn covered_cell(r: Rect, row: int, col: int, rows: int, cols: int) -> bool {
    &&& r.x <= col
    &&& (r.y <= row < r.y + rows && col < r.x + r.width) || (row == r.y + rows && col < r.x + cols)
}

/// `p` (a `stride`-wide framebuffer) with the first `rows` rows of rect `r`,
/// plus `cols` pixels of the next row, copied from `g`.
pub open spec fn blit_cells(p: Seq<u8>, stride: int, r: Rect, g: Seq<u8>, rows: int, cols: int) -> Seq<
    u8,
> {
    Seq::new(
        p.len(),
        |i: int|
            if covered_cell(r, i / stride, i % stride, rows, cols) {
                g[(i / stride - r.y) * r.width + (i % stride - r.x)]
            } else {
                p[i]
            },
    )
}

/// `p` with rect `r` replaced by the row-major pixels `g`.
pub open spec fn blit_spec(p: Seq<u8>, stride: int, r: Rect, g: Seq<u8>) -> Seq<u8> {
    blit_cells(p, stride, r, g, r.height as int, 0)
}

/// The framebuffer after the first `k` rects of an update, and the error
/// that stopped it, if any. Rects are applied in order; the first bad one
/// stops the update and leaves the rects before it applied.
pub open spec fn apply_rects(p: Seq<u8>, w: int, h: int, rects: Seq<(Rect, Seq<u8>)>, k: nat) -> (
    Seq<u8>,
    Option<FrameError>,
)
    decreases k,
{
    if k == 0 {
        (p, None)
    } else {
        let (q, e) = apply_rects(p, w, h, rects, (k - 1) as nat);
        let (r, g) = rects[k - 1];
        if e is Some {
            (q, e)
        } else if !rect_fits(r, w, h) {
            (q, Some(FrameError::OutOfBounds))
        } else if g.len() != r.width * r.height {
            (q, Some(FrameError::SizeMismatch))
        } else {
            (blit_spec(q, w, r, g), None)
        }
    }
}

/// The reused Gray8 framebuffer. Allocated once per connection at handshake
/// and mutated in place by each update, so steady-state delivery is
/// allocation-free.
pub struct Framebuffer {
    width: u16,
    height: u16,
    levels: u8,
    pixels: Vec<u8>,
}

impl Framebuffer {
    pub closed spec fn spec_width(&self) -> u16 {
        self.width
    }

    pub closed spec fn spec_height(&self) -> u16 {
        self.height
    }

    pub closed spec fn spec_levels(&self) -> u8 {
        self.levels
    }

    pub closed spec fn spec_pixels(&self) -> Seq<u8> {
        self.pixels@
    }

    /// The pixel buffer holds exactly `width * height` bytes.
    pub closed spec fn wf(&self) -> bool {
        self.pixels@.len() == self.width * self.height
    }

    /// A black framebuffer of the size the hello announces.
    pub fn new(h: &ServerHello) -> (fb: Self)
        ensures
            fb.wf(),
            fb.spec_width() == h.width,
            fb.spec_height() == h.height,
            fb.spec_levels() == h.levels,
            fb.spec_pixels() == Seq::new((h.width * h.height) as nat, |i: int| 0u8),
    {
        proof {
            lemma_u16_product(h.width, h.height);
        }
        let len = h.width as usize * h.height as usize;
        let pixels = zeroed(len);
        Framebuffer { width: h.width, height: h.height, levels: h.levels, pixels }
    }

    pub fn width(&self) -> (r: u16)
        ensures
            r == self.spec_width(),
    {
        self.width
    }

    pub fn height(&self) -> (r: u16)
        ensures
            r == self.spec_height(),
    {
        self.height
    }

    pub fn levels(&self) -> (r: u8)
        ensures
            r == self.spec_levels(),
    {
        self.levels
    }

    pub fn pixels(&self) -> (r: &[u8])
        requires
            self.wf(),
        ensures
            r@ == self.spec_pixels(),
            r@.len() == self.spec_width() * self.spec_height(),
    {
        self.pixels.as_slice()
    }

    /// Blit each update rect into the persistent framebuffer. A rect that
    /// escapes bounds or disagrees with its pixel count is a malformed frame:
    /// it is rejected (the caller drops the connection) rather than panicking,
    /// with the rects before it already applied.
    pub fn apply(&mut self, update: &Update) -> (r: Result<(), FrameError>)
        requires
            old(self).wf(),
        ensures
            final(self).wf(),
            final(self).spec_width() == old(self).spec_width(),
            final(self).spec_height() == old(self).spec_height(),
            final(self).spec_levels() == old(self).spec_levels(),
            ({
                let (p, e) = apply_rects(
                    old(self).spec_pixels(),
                    old(self).spec_width() as int,
                    old(self).spec_height() as int,
                    update@.1,
                    update@.1.len(),
                );
                &&& final(self).spec_pixels() == p
                &&& match e {
                    None => r is Ok,
                    Some(err) => r == Err::<(), FrameError>(err),
                }
            }),
    {
        let ghost p0 = self.pixels@;
        let ghost rects = update@.1;
        let ghost fw = self.width as int;
        let ghost fh = self.height as int;
        let ghost lv = self.levels;
        let ghost w0 = self.width;
        let ghost h0 = self.height;
        let mut k: usize = 0;
        while k < update.rects.len()
            invariant
                rects == update@.1,
                rects.len() == update.rects.len(),
                fw == self.width,
                fh == self.height,
                lv == self.levels,
                w0 == self.width,
                h0 == self.height,
                self.width == old(self).width,
                self.height == old(self).height,
                self.levels == old(self).levels,
                p0 == old(self).pixels@,
                self.pixels@.len() == self.width * self.height,
                k <= rects.len(),
                apply_rects(p0, fw, fh, rects, k as nat) == (self.pixels@, None::<FrameError>),
            decreases rects.len() - k,
        {
            let r = &update.rects[k];
            assert(r@ == rects[k as int]);
            let x = r.rect.x as usize;
            let y = r.rect.y as usize;
            let w = r.rect.width as usize;
            let h = r.rect.height as usize;
            let fits = x + w <= self.width as usize && y + h <= self.height as usize;
            if !fits {
                proof {
                    lemma_error_sticks(p0, fw, fh, rects, (k + 1) as nat, rects.len());
                }
                return Err(FrameError::OutOfBounds);
            }
            proof {
                lemma_u16_product(r.rect.width, r.rect.height);
            }
            if r.gray8.len() != w * h {
                proof {
                    lemma_error_sticks(p0, fw, fh, rects, (k + 1) as nat, rects.len());
                }
                return Err(FrameError::SizeMismatch);
            }
            blit(&mut self.pixels, self.width as usize, self.height as usize, r.rect, r.gray8.as_slice());
            k = k + 1;
        }
        Ok(())
    }
}

/// Once a rect is refused, the rest of the update is ignored.
proof fn lemma_error_sticks(
    p: Seq<u8>,
    w: int,
    h: int,
    rects: Seq<(Rect, Seq<u8>)>,
    k: nat,
    m: nat,
)
    requires
        k <= m <= rects.len(),
        apply_rects(p, w, h, rects, k).1 is Some,
    ensures
        apply_rects(p, w, h, rects, m) == apply_rects(p, w, h, rects, k),
    decreases m - k,
{
    if m > k {
        lemma_error_sticks(p, w, h, rects, k, (m - 1) as nat);
    }
}

/// `len` zero bytes.
fn zeroed(len: usize) -> (v: Vec<u8>)
    ensures
        v@ == Seq::new(len as nat, |i: int| 0u8),
{
    let mut v: Vec<u8> = Vec::with_capacity(len);
    let mut i: usize = 0;
    while i < len
        invariant
            i <= len,
            v@ == Seq::new(i as nat, |j: int| 0u8),
        decreases len - i,
    {
        v.push(0);
        i = i + 1;
    }
    v
}

/// The product of two `u16`s fits a `u32`.
proof fn lemma_u16_product(a: u16, b: u16)
    ensures
        a * b <= 0xfffe_0001,
{
    assert(a * b <= 0xffff * 0xffff) by (nonlinear_arith)
        requires
            a <= 0xffff,
            b <= 0xffff,
    ;
}

/// Copy the row-major pixels `g` into rect `r` of the `fw`×`fh` framebuffer.
fn blit(pixels: &mut Vec<u8>, fw: usize, fh: usize, r: Rect, g: &[u8])
    requires
        fw <= 0xffff,
        fh <= 0xffff,
        old(pixels)@.len() == fw * fh,
        rect_fits(r, fw as int, fh as int),
        g@.len() == r.width * r.height,
    ensures
        final(pixels)@ == blit_spec(old(pixels)@, fw as int, r, g@),
{
    let ghost p0 = pixels@;
    let ghost stride = fw as int;
    let x = r.x as usize;
    let y = r.y as usize;
    let w = r.width as usize;
    let h = r.height as usize;
    proof {
        lemma_u16_product(fw as u16, fh as u16);
        lemma_u16_product(r.width, r.height);
        assert(p0 =~= blit_cells(p0, stride, r, g@, 0, 0));
    }
    let mut row: usize = 0;
    while row < h
        invariant
            p0.len() == fw * fh,
            stride == fw,
            fw <= 0xffff,
            fh <= 0xffff,
            fw * fh <= 0xfffe_0001,
            r.width * r.height <= 0xfffe_0001,
            rect_fits(r, fw as int, fh as int),
            g@.len() == r.width * r.height,
            x == r.x,
            y == r.y,
            w == r.width,
            h == r.height,
            row <= h,
            pixels@ == blit_cells(p0, stride, r, g@, row as int, 0),
        decreases h - row,
    {
        let mut col: usize = 0;
        while col < w
            invariant
                p0.len() == fw * fh,
                stride == fw,
                fw <= 0xffff,
                fh <= 0xffff,
                fw * fh <= 0xfffe_0001,
                r.width * r.height <= 0xfffe_0001,
                rect_fits(r, fw as int, fh as int),
                g@.len() == r.width * r.height,
                x == r.x,
                y == r.y,
                w == r.width,
                h == r.height,
                row < h,
                col <= w,
                pixels@ == blit_cells(p0, stride, r, g@, row as int, col as int),
            decreases w - col,
        {
            proof {
                lemma_cell(fw as int, fh as int, (y + row) as int, (x + col) as int);
                lemma_cell(w as int, h as int, row as int, col as int);
            }
            let dst = (y + row) * fw + x + col;
            let src = row * w + col;
            let v = g[src];
            pixels.set(dst, v);
            proof {
                let before = blit_cells(p0, stride, r, g@, row as int, col as int);
                let after = blit_cells(p0, stride, r, g@, row as int, col + 1);
                vstd::arithmetic::div_mod::lemma_fundamental_div_mod_converse(
                    dst as int,
                    stride,
                    (y + row) as int,
                    (x + col) as int,
                );
                assert forall|i: int| 0 <= i < p0.len() implies #[trigger] pixels@[i] == after[i] by {
                    if i != dst {
                        let q = i / stride;
                        let m = i % stride;
                        vstd::arithmetic::div_mod::lemma_fundamental_div_mod(i, stride);
                        if q == y + row && m == x + col {
                            assert(stride * q == q * stride) by (nonlinear_arith);
                            assert(i == dst);
                        }
                    }
                }
                assert(pixels@ =~= after);
            }
            col = col + 1;
        }
        proof {
            assert(blit_cells(p0, stride, r, g@, row as int, w as int) =~= blit_cells(
                p0,
                stride,
                r,
                g@,
                row + 1,
                0,
            ));
        }
        row = row + 1;
    }
}

/// Cell `(row, col)` of a `w`×`h` grid lies inside its row-major buffer.
proof fn lemma_cell(w: int, h: int, row: int, col: int)
    requires
        0 <= row < h,
        0 <= col < w,
    ensures
        0 <= row * w + col < w * h,
        row * w + col + (w - col) <= w * h,
{
    assert(row * w + w <= h * w) by (nonlinear_arith)
        requires
            0 <= row < h,
            0 <= col < w,
    ;
    assert(0 <= row * w) by (nonlinear_arith)
        requires
            0 <= row,
            0 <= col < w,
    ;
    assert(h * w == w * h) by (nonlinear_arith);
}

// ---------------------------------------------------------------------------
// The receive loop's decisions
// ---------------------------------------------------------------------------

/// Why the receiver drops a connection mid-stream.
#[derive(Debug, Clone, Copy, PartialEq, Eq, Structural)]
pub enum PullError {
    /// An update did not fit the framebuffer.
    BadUpdate(FrameError),
    /// A client-to-server message arrived from the server.
    Unexpected,
}

/// What the receive loop does after a message arrives mid-stream.
#[derive(Debug, Clone, PartialEq, Eq)]
pub enum PullAction {
    /// The framebuffer was updated: deliver it with this hint, then send the
    /// next `Ready`.
    Deliver(RefreshHint),
    /// Tell the sink the active mode is now this one.
    ModeChanged(String),
    /// A new hello reset the framebuffer: tell the sink its geometry.
    Reset,
    /// Drop the connection.
    Drop(PullError),
}

/// Handle one message of the steady-state loop (`Ready` out, `Update` back).
/// A mid-stream `ServerHello` would mean a framebuffer resize; the host never
/// does this, so it is treated as a protocol reset. Client-to-server
/// messages arriving from the server are nonsense and drop the connection.
pub fn pull_step(fb: &mut Framebuffer, msg: Message) -> (act: PullAction)
    requires
        old(fb).wf(),
    ensures
        final(fb).wf(),
        match msg@ {
            crate::proto::MessageView::Update(hint, rects) => {
                let (p, e) = apply_rects(
                    old(fb).spec_pixels(),
                    old(fb).spec_width() as int,
                    old(fb).spec_height() as int,
                    rects,
                    rects.len(),
                );
                &&& final(fb).spec_pixels() == p
                &&& final(fb).spec_width() == old(fb).spec_width()
                &&& final(fb).spec_height() == old(fb).spec_height()
                &&& final(fb).spec_levels() == old(fb).spec_levels()
                &&& match e {
                    None => act == PullAction::Deliver(hint),
                    Some(err) => act == PullAction::Drop(PullError::BadUpdate(err)),
                }
            },
            crate::proto::MessageView::ModeChanged(name) => {
                &&& *final(fb) == *old(fb)
                &&& act matches PullAction::ModeChanged(n) && n@ == name
            },
            crate::proto::MessageView::ServerHello(h) => {
                &&& act == PullAction::Reset
                &&& final(fb).spec_width() == h.width
                &&& final(fb).spec_height() == h.height
                &&& final(fb).spec_levels() == h.levels
                &&& final(fb).spec_pixels() == Seq::new((h.width * h.height) as nat, |i: int| 0u8)
            },
            _ => {
                &&& *final(fb) == *old(fb)
                &&& act == PullAction::Drop(PullError::Unexpected)
            },
        },
{
    match msg {
        Message::Update(u) => match fb.apply(&u) {
            Ok(()) => PullAction::Deliver(u.refresh_hint),
            Err(e) => PullAction::Drop(PullError::BadUpdate(e)),
        },
        Message::ModeChanged(name) => PullAction::ModeChanged(name),
        Message::ServerHello(h) => {
            *fb = Framebuffer::new(&h);
            PullAction::Reset
        },
        _ => PullAction::Drop(PullError::Unexpected),
    }
}

/// Handle one message while waiting for the sender's hello: the hello sizes
/// the framebuffer; anything before it is skipped.
pub fn handshake_step(msg: &Message) -> (fb: Option<Framebuffer>)
    ensures
        match msg@ {
            crate::proto::MessageView::ServerHello(h) => fb matches Some(f) && {
                &&& f.wf()
                &&& f.spec_width() == h.width
                &&& f.spec_height() == h.height
                &&& f.spec_levels() == h.levels
                &&& f.spec_pixels() == Seq::new((h.width * h.height) as nat, |i: int| 0u8)
            },
            _ => fb is None,
        },
{
    match msg {
        Message::ServerHello(h) => Some(Framebuffer::new(h)),
        _ => None,
    }
}

/// Take one message off the front of the receive buffer: on a complete
/// frame the message is returned and its bytes drained; on a short buffer
/// nothing changes; malformed bytes are an error.
pub fn take_message(buf: &mut Vec<u8>) -> (r: Result<Option<Message>, ProtoError>)
    ensures
        match decoded(old(buf)@) {
            Ok(None) => r matches Ok(None) && final(buf)@ == old(buf)@,
            Ok(Some((m, n))) => r matches Ok(Some(msg)) && msg@ == m && final(buf)@ == old(
                buf,
            )@.subrange(n, old(buf)@.len() as int),
            Err(e) => r == Err::<Option<Message>, ProtoError>(e) && final(buf)@ == old(buf)@,
        },
{
    match decode(buf.as_slice()) {
        Ok(Some((msg, consumed))) => {
            let rest = buf.split_off(consumed);
            *buf = rest;
            Ok(Some(msg))
        },
        Ok(None) => Ok(None),
        Err(e) => Err(e),
    }
}

/// The next reconnect delay: double, capped at the maximum.
pub fn next_backoff(ms: u64) -> (r: u64)
    ensures
        r == if 2 * ms > BACKOFF_MAX_MS {
            BACKOFF_MAX_MS as int
        } else {
            2 * ms
        },
{
    if ms > BACKOFF_MAX_MS / 2 {
        BACKOFF_MAX_MS
    } else {
        2 * ms
    }
}

} // verus!
