//! PaperCast custom-transport wire protocol: framing + message types, with no
//! I/O and no async. Everything encodes to a `Vec<u8>` and decodes from a
//! `&[u8]`, so the receiver core and the host sender share one definition.
//!
//! # Frame envelope
//!
//! Every message on the wire is `[u32 BE payload_len][u8 type][payload]`, where
//! `payload_len` counts only the payload bytes — not the type byte. Types below
//! 128 flow server→client; types ≥ 128 flow client→server.
//!
//! # Flow control
//!
//! The transport is pull-based: the server sends an [`Message::Update`] only
//! when a client [`Message::Ready`] is pending, and keeps only the newest frame
//! otherwise, so a slow EPD never builds a latency queue. That policy lives in
//! the host sender's state machine; this module just defines the messages.

use vstd::prelude::*;
use vstd::utf8::{decode_utf8, encode_utf8, is_char_boundary, valid_utf8};
use vstd::string::StringSliceAdditionalSpecFns;

verus! {

/// Protocol version carried in the two hello messages.
pub const PROTO_VERSION: u8 = 1;

/// Upper bound on a single frame's payload, rejected by [`decode`] before it
/// allocates. Guards against a malformed/hostile length prefix; a legitimate
/// full-frame update compresses far below this.
pub const MAX_PAYLOAD: u32 = 67108864;

/// Wire message-type tags.
pub const TAG_SERVER_HELLO: u8 = 1;
pub const TAG_UPDATE: u8 = 2;
pub const TAG_MODE_CHANGED: u8 = 3;
pub const TAG_CLIENT_HELLO: u8 = 128;
pub const TAG_READY: u8 = 129;

/// The zstd level used for per-rect Gray8 compression (level 1 — fast,
/// the pixels are already dithered so entropy is high and higher levels buy
/// little).
pub const ZSTD_LEVEL: i32 = 1;

// --- message types ---

/// Server's opening message: the framebuffer geometry the client should expect.
#[derive(Debug, Clone, Copy, PartialEq, Eq, Structural)]
pub struct ServerHello {
    pub proto_version: u8,
    pub width: u16,
    pub height: u16,
    pub levels: u8,
}

/// How the receiver should drive the EPD for an update. The receiver maps these
/// to concrete waveforms; the host only expresses intent.
#[derive(Debug, Clone, Copy, PartialEq, Eq, Structural)]
pub enum RefreshHint {
    /// Receiver decides (wire value 0).
    Auto,
    /// Fast, low-quality waveform (e.g. A2) — motion, writing (wire value 1).
    Fast,
    /// Full-quality waveform (e.g. GC16) — clean redraw / ghost clear (value 2).
    Quality,
}

/// Wire value of a hint.
pub open spec fn hint_byte(h: RefreshHint) -> u8 {
    match h {
        RefreshHint::Auto => 0,
        RefreshHint::Fast => 1,
        RefreshHint::Quality => 2,
    }
}

impl RefreshHint {
    pub fn to_u8(self) -> (v: u8)
        ensures
            v == hint_byte(self),
    {
        match self {
            RefreshHint::Auto => 0,
            RefreshHint::Fast => 1,
            RefreshHint::Quality => 2,
        }
    }

    pub fn from_u8(v: u8) -> (res: Result<Self, ProtoError>)
        ensures
            v <= 2 ==> (res matches Ok(h) && hint_byte(h) == v),
            v > 2 ==> res == Err::<Self, ProtoError>(ProtoError::BadRefreshHint(v)),
    {
        match v {
            0 => Ok(RefreshHint::Auto),
            1 => Ok(RefreshHint::Fast),
            2 => Ok(RefreshHint::Quality),
            _ => Err(ProtoError::BadRefreshHint(v)),
        }
    }
}

/// A changed rectangle in framebuffer coordinates. `u16` because the RFB-era
/// framebuffer is already capped to `u16::MAX` per side upstream.
#[derive(Debug, Clone, Copy, PartialEq, Eq, Structural)]
pub struct Rect {
    pub x: u16,
    pub y: u16,
    pub width: u16,
    pub height: u16,
}

/// One rect plus its tightly-packed, row-major Gray8 pixels (`width * height`
/// bytes). Compression is a wire detail handled by [`encode`]/[`decode`]; in
/// memory these bytes are always raw Gray8.
#[derive(Debug, Clone, PartialEq, Eq)]
pub struct UpdateRect {
    pub rect: Rect,
    pub gray8: Vec<u8>,
}

/// A framebuffer update: a refresh intent plus the changed rects.
#[derive(Debug, Clone, PartialEq, Eq)]
pub struct Update {
    pub refresh_hint: RefreshHint,
    pub rects: Vec<UpdateRect>,
}

/// One decoded protocol message.
#[derive(Debug, Clone, PartialEq, Eq)]
pub enum Message {
    ServerHello(ServerHello),
    Update(Update),
    /// The active display mode changed; carries the new mode name.
    ModeChanged(String),
    ClientHello { proto_version: u8 },
    /// Client is ready for the next update (pull-based flow control).
    Ready,
}

/// A framing or decode error. Note that a *short* buffer is not an error —
/// [`decode`] returns `Ok(None)` for "need more bytes".
#[derive(Debug, Clone, PartialEq, Eq)]
pub enum ProtoError {
    UnknownType(u8),
    TooLarge(u32),
    BadRefreshHint(u8),
    Malformed { msg: &'static str, detail: &'static str },
    Decompress,
    Utf8,
}

// --- the abstract messages ---

/// What a message says, with its buffers as sequences.
pub enum MessageView {
    ServerHello(ServerHello),
    Update(RefreshHint, Seq<(Rect, Seq<u8>)>),
    ModeChanged(Seq<char>),
    ClientHello(u8),
    Ready,
}

impl View for UpdateRect {
    type V = (Rect, Seq<u8>);

    open spec fn view(&self) -> (Rect, Seq<u8>) {
        (self.rect, self.gray8@)
    }
}

impl View for Update {
    type V = (RefreshHint, Seq<(Rect, Seq<u8>)>);

    open spec fn view(&self) -> (RefreshHint, Seq<(Rect, Seq<u8>)>) {
        (self.refresh_hint, self.rects@.map_values(|r: UpdateRect| r@))
    }
}

impl View for Message {
    type V = MessageView;

    open spec fn view(&self) -> MessageView {
        match self {
            Message::ServerHello(h) => MessageView::ServerHello(*h),
            Message::Update(u) => MessageView::Update(u@.0, u@.1),
            Message::ModeChanged(name) => MessageView::ModeChanged(name@),
            Message::ClientHello { proto_version } => MessageView::ClientHello(*proto_version),
            Message::Ready => MessageView::Ready,
        }
    }
}

// --- zstd ---

/// The bytes zstd's one-shot compressor produces for `data` at `level`.
pub uninterp spec fn zstd_compressed(data: Seq<u8>, level: i32) -> Seq<u8>;

/// What zstd's one-shot decompressor yields for `comp` when at most
/// `capacity` bytes may come out: `None` when it reports an error.
pub uninterp spec fn zstd_decompressed(comp: Seq<u8>, capacity: usize) -> Option<Seq<u8>>;

/// zstd's documented worst-case compressed size of `n` input bytes
/// (`ZSTD_COMPRESSBOUND` in `zstd.h`, for inputs below `ZSTD_MAX_INPUT_SIZE`).
pub open spec fn zstd_compress_bound(n: int) -> int {
    n + n / 256 + if n < 131072 {
        (131072 - n) / 2048
    } else {
        0
    }
}

/// Calls `zstd::bulk::compress`. Claimed: the output is the compressor's
/// deterministic output for these arguments, no longer than
/// `ZSTD_compressBound` of the input (the one-shot compressor never
/// exceeds it), and decompressing it with room for at least the input's
/// length gives the input back (zstd is lossless). Claimed too: it does not
/// fail for a level in zstd's range, as it writes into a buffer of
/// `compress_bound` bytes; the body panics if it ever does.
#[verifier::external_body]
fn zstd_compress(data: &[u8], level: i32) -> (comp: Vec<u8>)
    requires
        1 <= level <= 19,
    ensures
        comp@ == zstd_compressed(data@, level),
        data@.len() < 0xFF00_FF00 ==> comp@.len() <= zstd_compress_bound(data@.len() as int),
        forall|cap: usize|
            cap >= data@.len() ==> #[trigger] zstd_decompressed(comp@, cap) == Some(data@),
{
    zstd::bulk::compress(data, level).expect("zstd one-shot compression into a bounded buffer")
}

/// Calls `zstd::bulk::decompress`. Claimed: the outcome is a function of the
/// compressed bytes and the capacity, and never more than `capacity` bytes.
#[verifier::external_body]
fn zstd_decompress(comp: &[u8], capacity: usize) -> (res: Option<Vec<u8>>)
    ensures
        res matches Some(v) ==> zstd_decompressed(comp@, capacity) == Some(v@),
        res is None ==> zstd_decompressed(comp@, capacity) is None,
{
    zstd::bulk::decompress(comp, capacity).ok()
}

/// Calls `std::str::from_utf8`. Claimed: it accepts exactly the valid UTF-8
/// encodings, and the string it returns decodes those bytes.
#[verifier::external_body]
fn utf8_str(bytes: &[u8]) -> (res: Option<&str>)
    ensures
        res is Some <==> valid_utf8(bytes@),
        res matches Some(s) ==> s@ == decode_utf8(bytes@),
{
    std::str::from_utf8(bytes).ok()
}

// --- byte-level helpers ---

/// Big-endian bytes of a `u16`.
pub open spec fn be16(v: u16) -> Seq<u8> {
    seq![(v / 256) as u8, (v % 256) as u8]
}

/// Big-endian bytes of a `u32`.
pub open spec fn be32(v: u32) -> Seq<u8> {
    seq![
        (v / 16777216) as u8,
        ((v / 65536) % 256) as u8,
        ((v / 256) % 256) as u8,
        (v % 256) as u8,
    ]
}

/// The big-endian `u16` at `p[i..i+2]`.
pub open spec fn read_be16(p: Seq<u8>, i: int) -> u16 {
    (p[i] * 256 + p[i + 1]) as u16
}

/// The big-endian `u32` at `p[i..i+4]`.
pub open spec fn read_be32(p: Seq<u8>, i: int) -> u32 {
    (p[i] * 16777216 + p[i + 1] * 65536 + p[i + 2] * 256 + p[i + 3]) as u32
}

// --- encoding, as a specification ---

/// Largest char boundary at or below `i` (0 is always one).
pub open spec fn boundary_at_or_below(bytes: Seq<u8>, i: nat) -> nat
    decreases i,
{
    if i == 0 || is_char_boundary(bytes, i as int) {
        i
    } else {
        boundary_at_or_below(bytes, (i - 1) as nat)
    }
}

/// How many bytes of a mode name go on the wire: the whole name when it fits
/// a `u8` length, else the longest prefix of at most 255 bytes that ends on a
/// character boundary.
pub open spec fn mode_name_len(bytes: Seq<u8>) -> nat {
    if bytes.len() <= 255 {
        bytes.len()
    } else {
        boundary_at_or_below(bytes, 255)
    }
}

/// Wire form of one update rect.
pub open spec fn rect_encoding(r: (Rect, Seq<u8>)) -> Seq<u8> {
    let comp = zstd_compressed(r.1, ZSTD_LEVEL);
    be16(r.0.x) + be16(r.0.y) + be16(r.0.width) + be16(r.0.height) + be32(comp.len() as u32)
        + comp
}

/// Wire forms of the rects, in order.
pub open spec fn rects_encoding(rs: Seq<(Rect, Seq<u8>)>) -> Seq<u8>
    decreases rs.len(),
{
    if rs.len() == 0 {
        Seq::empty()
    } else {
        rects_encoding(rs.drop_last()) + rect_encoding(rs.last())
    }
}

/// Number of rects an update carries on the wire (the count is a `u16`).
pub open spec fn wire_rect_count(n: nat) -> nat {
    if n <= 65535 {
        n
    } else {
        65535
    }
}

/// The payload of a message.
pub open spec fn payload_of(m: MessageView) -> Seq<u8> {
    match m {
        MessageView::ServerHello(h) => seq![h.proto_version] + be16(h.width) + be16(h.height)
            + seq![h.levels],
        MessageView::Update(hint, rs) => {
            let n = wire_rect_count(rs.len());
            seq![hint_byte(hint)] + be16(n as u16) + rects_encoding(rs.take(n as int))
        },
        MessageView::ModeChanged(name) => {
            let bytes = encode_utf8(name);
            let n = mode_name_len(bytes);
            seq![n as u8] + bytes.take(n as int)
        },
        MessageView::ClientHello(v) => seq![v],
        MessageView::Ready => Seq::empty(),
    }
}

/// The type tag of a message.
pub open spec fn tag_of(m: MessageView) -> u8 {
    match m {
        MessageView::ServerHello(_) => TAG_SERVER_HELLO,
        MessageView::Update(_, _) => TAG_UPDATE,
        MessageView::ModeChanged(_) => TAG_MODE_CHANGED,
        MessageView::ClientHello(_) => TAG_CLIENT_HELLO,
        MessageView::Ready => TAG_READY,
    }
}

/// A complete length-prefixed frame around `payload`.
pub open spec fn framed(tag: u8, payload: Seq<u8>) -> Seq<u8> {
    be32(payload.len() as u32) + seq![tag] + payload
}

/// The wire form of a message.
pub open spec fn encoded(m: MessageView) -> Seq<u8> {
    framed(tag_of(m), payload_of(m))
}

// --- decoding, as a specification ---

pub open spec fn truncated(msg: &'static str) -> ProtoError {
    ProtoError::Malformed { msg, detail: "truncated payload" }
}

pub open spec fn trailing(msg: &'static str) -> ProtoError {
    ProtoError::Malformed { msg, detail: "trailing payload bytes" }
}

/// Outcome of taking `n` bytes at `pos` from a payload.
pub open spec fn take_spec(p: Seq<u8>, pos: int, n: int, msg: &'static str) -> Result<
    (Seq<u8>, int),
    ProtoError,
> {
    if pos + n > usize::MAX {
        Err(ProtoError::Malformed { msg, detail: "length overflow" })
    } else if pos + n > p.len() {
        Err(truncated(msg))
    } else {
        Ok((p.subrange(pos, pos + n), pos + n))
    }
}

/// Outcome of parsing one update rect at `pos`.
pub open spec fn parse_rect(p: Seq<u8>, pos: int) -> Result<((Rect, Seq<u8>), int), ProtoError> {
    if pos + 12 > p.len() {
        Err(truncated("Update"))
    } else {
        let rect = Rect {
            x: read_be16(p, pos),
            y: read_be16(p, pos + 2),
            width: read_be16(p, pos + 4),
            height: read_be16(p, pos + 6),
        };
        match take_spec(p, pos + 12, read_be32(p, pos + 8) as int, "Update") {
            Err(e) => Err(e),
            Ok((comp, next)) => {
                let expected = rect.width * rect.height;
                if expected > MAX_PAYLOAD {
                    Err(
                        ProtoError::Malformed {
                            msg: "Update",
                            detail: "rect pixel count exceeds maximum",
                        },
                    )
                } else {
                    match zstd_decompressed(comp, expected as usize) {
                        None => Err(ProtoError::Decompress),
                        Some(g) => if g.len() != expected {
                            Err(
                                ProtoError::Malformed {
                                    msg: "Update",
                                    detail: "decompressed rect size does not match width*height",
                                },
                            )
                        } else {
                            Ok(((rect, g), next))
                        },
                    }
                }
            },
        }
    }
}

/// Outcome of parsing `n` update rects from `pos`, stopping at the first
/// error.
pub open spec fn parse_rects(p: Seq<u8>, pos: int, n: nat) -> Result<
    (Seq<(Rect, Seq<u8>)>, int),
    ProtoError,
>
    decreases n,
{
    if n == 0 {
        Ok((Seq::empty(), pos))
    } else {
        match parse_rect(p, pos) {
            Err(e) => Err(e),
            Ok((r, next)) => match parse_rects(p, next, (n - 1) as nat) {
                Err(e) => Err(e),
                Ok((rs, end)) => Ok((seq![r] + rs, end)),
            },
        }
    }
}

/// The message a complete payload of type `t` decodes to.
pub open spec fn payload_message(t: u8, p: Seq<u8>) -> Result<MessageView, ProtoError> {
    if t == TAG_SERVER_HELLO {
        if p.len() < 6 {
            Err(truncated("ServerHello"))
        } else if p.len() > 6 {
            Err(trailing("ServerHello"))
        } else {
            Ok(
                MessageView::ServerHello(
                    ServerHello {
                        proto_version: p[0],
                        width: read_be16(p, 1),
                        height: read_be16(p, 3),
                        levels: p[5],
                    },
                ),
            )
        }
    } else if t == TAG_UPDATE {
        if p.len() < 1 {
            Err(truncated("Update"))
        } else if p[0] > 2 {
            Err(ProtoError::BadRefreshHint(p[0]))
        } else if p.len() < 3 {
            Err(truncated("Update"))
        } else {
            let hint = if p[0] == 0 {
                RefreshHint::Auto
            } else if p[0] == 1 {
                RefreshHint::Fast
            } else {
                RefreshHint::Quality
            };
            match parse_rects(p, 3, read_be16(p, 1) as nat) {
                Err(e) => Err(e),
                Ok((rs, end)) => if end != p.len() {
                    Err(trailing("Update"))
                } else {
                    Ok(MessageView::Update(hint, rs))
                },
            }
        }
    } else if t == TAG_MODE_CHANGED {
        if p.len() < 1 || 1 + p[0] > p.len() {
            Err(truncated("ModeChanged"))
        } else if 1 + p[0] < p.len() {
            Err(trailing("ModeChanged"))
        } else if !valid_utf8(p.subrange(1, p.len() as int)) {
            Err(ProtoError::Utf8)
        } else {
            Ok(MessageView::ModeChanged(decode_utf8(p.subrange(1, p.len() as int))))
        }
    } else if t == TAG_CLIENT_HELLO {
        if p.len() < 1 {
            Err(truncated("ClientHello"))
        } else if p.len() > 1 {
            Err(trailing("ClientHello"))
        } else {
            Ok(MessageView::ClientHello(p[0]))
        }
    } else if t == TAG_READY {
        if p.len() > 0 {
            Err(trailing("Ready"))
        } else {
            Ok(MessageView::Ready)
        }
    } else {
        Err(ProtoError::UnknownType(t))
    }
}

/// What [`decode`] makes of a buffer: `Ok(None)` while the first frame is
/// incomplete, the message and the frame's length once it is whole.
pub open spec fn decoded(buf: Seq<u8>) -> Result<Option<(MessageView, int)>, ProtoError> {
    if buf.len() < 5 {
        Ok(None)
    } else {
        let len = read_be32(buf, 0);
        if len > MAX_PAYLOAD {
            Err(ProtoError::TooLarge(len))
        } else if buf.len() < 5 + len {
            Ok(None)
        } else {
            match payload_message(buf[4], buf.subrange(5, 5 + len)) {
                Err(e) => Err(e),
                Ok(m) => Ok(Some((m, 5 + len))),
            }
        }
    }
}


// --- encoding ---

/// Every encoded rect comes back out of zstd as it went in.
pub open spec fn rects_roundtrip(rs: Seq<(Rect, Seq<u8>)>) -> bool {
    forall|i: int, cap: usize|
        0 <= i < rs.len() && cap >= rs[i].1.len() ==> #[trigger] zstd_decompressed(
            zstd_compressed(rs[i].1, ZSTD_LEVEL),
            cap,
        ) == Some(rs[i].1)
}

/// Every encoded rect is no longer than zstd's worst case for its pixels.
pub open spec fn rects_bounded(rs: Seq<(Rect, Seq<u8>)>) -> bool {
    forall|i: int|
        0 <= i < rs.len() && rs[i].1.len() < 0xFF00_FF00 ==> (#[trigger] zstd_compressed(
            rs[i].1,
            ZSTD_LEVEL,
        )).len() <= zstd_compress_bound(rs[i].1.len() as int)
}

/// The rects an encoded message carries on the wire.
pub open spec fn wire_rects(m: MessageView) -> Seq<(Rect, Seq<u8>)> {
    match m {
        MessageView::Update(_, rs) => rs.take(wire_rect_count(rs.len()) as int),
        _ => Seq::empty(),
    }
}

fn push_be16(out: &mut Vec<u8>, v: u16)
    ensures
        final(out)@ == old(out)@ + be16(v),
{
    out.push((v / 256) as u8);
    out.push((v % 256) as u8);
    assert(final(out)@ =~= old(out)@ + be16(v));
}

fn push_be32(out: &mut Vec<u8>, v: u32)
    ensures
        final(out)@ == old(out)@ + be32(v),
{
    out.push((v / 16777216) as u8);
    out.push(((v / 65536) % 256) as u8);
    out.push(((v / 256) % 256) as u8);
    out.push((v % 256) as u8);
    assert(final(out)@ =~= old(out)@ + be32(v));
}

fn push_bytes(out: &mut Vec<u8>, s: &[u8], n: usize)
    requires
        n <= s@.len(),
    ensures
        final(out)@ == old(out)@ + s@.take(n as int),
{
    let mut i: usize = 0;
    while i < n
        invariant
            i <= n,
            n <= s@.len(),
            out@ == old(out)@ + s@.take(i as int),
        decreases n - i,
    {
        out.push(s[i]);
        i = i + 1;
        assert(out@ =~= old(out)@ + s@.take(i as int));
    }
}

/// Serialize one message into a complete length-prefixed frame.
pub fn encode(msg: &Message) -> (out: Vec<u8>)
    ensures
        out@ == encoded(msg@),
        rects_roundtrip(wire_rects(msg@)),
        rects_bounded(wire_rects(msg@)),
{
    let (msg_type, payload) = match msg {
        Message::ServerHello(h) => {
            let mut p: Vec<u8> = Vec::new();
            p.push(h.proto_version);
            push_be16(&mut p, h.width);
            push_be16(&mut p, h.height);
            p.push(h.levels);
            assert(p@ =~= payload_of(msg@));
            (TAG_SERVER_HELLO, p)
        },
        Message::Update(u) => (TAG_UPDATE, encode_update(u)),
        Message::ModeChanged(name) => {
            // name_len is a u8; mode names are short. If one somehow exceeds 255
            // bytes, truncate defensively — but to a char boundary, so we never
            // emit a split UTF-8 sequence the decoder would reject.
            let s = name.as_str();
            let bytes = s.as_bytes();
            let n: usize = if bytes.len() <= 255 {
                bytes.len()
            } else {
                let mut i: usize = 255;
                while i > 0 && !s.is_char_boundary(i)
                    invariant
                        i <= 255,
                        boundary_at_or_below(s.spec_bytes(), 255) == boundary_at_or_below(
                            s.spec_bytes(),
                            i as nat,
                        ),
                    decreases i,
                {
                    i = i - 1;
                }
                i
            };
            let mut p: Vec<u8> = Vec::new();
            p.push(n as u8);
            push_bytes(&mut p, bytes, n);
            assert(p@ =~= payload_of(msg@));
            (TAG_MODE_CHANGED, p)
        },
        Message::ClientHello { proto_version } => {
            let mut p: Vec<u8> = Vec::new();
            p.push(*proto_version);
            assert(p@ =~= payload_of(msg@));
            (TAG_CLIENT_HELLO, p)
        },
        Message::Ready => {
            let p: Vec<u8> = Vec::new();
            assert(p@ =~= payload_of(msg@));
            (TAG_READY, p)
        },
    };
    frame(msg_type, payload.as_slice())
}

fn encode_update(u: &Update) -> (p: Vec<u8>)
    ensures
        p@ == payload_of(MessageView::Update(u@.0, u@.1)),
        rects_roundtrip(u@.1.take(wire_rect_count(u@.1.len()) as int)),
        rects_bounded(u@.1.take(wire_rect_count(u@.1.len()) as int)),
{
    let ghost rs = u@.1;
    let n_rects: usize = if u.rects.len() <= 65535 {
        u.rects.len()
    } else {
        65535
    };
    let mut p: Vec<u8> = Vec::new();
    p.push(u.refresh_hint.to_u8());
    push_be16(&mut p, n_rects as u16);
    let ghost head = p@;
    let mut i: usize = 0;
    assert(rs.take(0) =~= Seq::<(Rect, Seq<u8>)>::empty());
    while i < n_rects
        invariant
            i <= n_rects,
            n_rects <= u.rects@.len(),
            rs == u@.1,
            rs.len() == u.rects@.len(),
            p@ == head + rects_encoding(rs.take(i as int)),
            rects_roundtrip(rs.take(i as int)),
            rects_bounded(rs.take(i as int)),
        decreases n_rects - i,
    {
        let r = &u.rects[i];
        assert(r@ == rs[i as int]);
        // zstd level-1 compression of an in-memory slice does not fail.
        let comp = zstd_compress(r.gray8.as_slice(), ZSTD_LEVEL);
        push_be16(&mut p, r.rect.x);
        push_be16(&mut p, r.rect.y);
        push_be16(&mut p, r.rect.width);
        push_be16(&mut p, r.rect.height);
        push_be32(&mut p, comp.len() as u32);
        push_bytes(&mut p, comp.as_slice(), comp.len());
        proof {
            assert(comp@.take(comp@.len() as int) =~= comp@);
            assert(rs.take(i + 1).drop_last() =~= rs.take(i as int));
            assert(rs.take(i + 1).last() == rs[i as int]);
            let t = rs.take(i + 1);
            assert forall|k: int, cap: usize|
                0 <= k < t.len() && cap >= t[k].1.len() implies #[trigger] zstd_decompressed(
                zstd_compressed(t[k].1, ZSTD_LEVEL),
                cap,
            ) == Some(t[k].1) by {
                if k < i {
                    assert(t[k] == rs.take(i as int)[k]);
                } else {
                    assert(t[k] == rs[i as int]);
                }
            }
            assert forall|k: int|
                0 <= k < t.len() && t[k].1.len() < 0xFF00_FF00 implies (#[trigger] zstd_compressed(
                t[k].1,
                ZSTD_LEVEL,
            )).len() <= zstd_compress_bound(t[k].1.len() as int) by {
                if k < i {
                    assert(t[k] == rs.take(i as int)[k]);
                } else {
                    assert(t[k] == rs[i as int]);
                }
            }
        }
        i = i + 1;
        assert(p@ =~= head + rects_encoding(rs.take(i as int)));
    }
    p
}

fn frame(msg_type: u8, payload: &[u8]) -> (out: Vec<u8>)
    ensures
        out@ == framed(msg_type, payload@),
{
    let mut out: Vec<u8> = Vec::new();
    push_be32(&mut out, payload.len() as u32);
    out.push(msg_type);
    push_bytes(&mut out, payload, payload.len());
    assert(payload@.take(payload@.len() as int) =~= payload@);
    assert(out@ =~= framed(msg_type, payload@));
    out
}

// --- decoding ---

/// Try to parse one frame from the front of `buf`.
///
/// - `Ok(Some((msg, consumed)))` — parsed a message; `consumed` bytes should be
///   drained from `buf` before the next call.
/// - `Ok(None)` — `buf` does not yet hold a complete frame; read more and retry.
/// - `Err(_)` — the bytes are malformed.
pub fn decode(buf: &[u8]) -> (res: Result<Option<(Message, usize)>, ProtoError>)
    ensures
        match decoded(buf@) {
            Ok(None) => res matches Ok(None),
            Ok(Some((m, n))) => res matches Ok(Some((msg, k))) && msg@ == m && k == n,
            Err(e) => res == Err::<Option<(Message, usize)>, ProtoError>(e),
        },
{
    if buf.len() < 5 {
        return Ok(None);
    }
    let payload_len: u32 = (buf[0] as u32) * 16777216 + (buf[1] as u32) * 65536 + (buf[2] as u32)
        * 256 + (buf[3] as u32);
    if payload_len > MAX_PAYLOAD {
        return Err(ProtoError::TooLarge(payload_len));
    }
    let total: usize = 5 + payload_len as usize;
    if buf.len() < total {
        return Ok(None);
    }
    let msg_type = buf[4];
    let payload = slice_range(buf, 5, total);
    match decode_payload(msg_type, payload) {
        Ok(msg) => Ok(Some((msg, total))),
        Err(e) => Err(e),
    }
}

/// `s[start..end]`.
fn slice_range(s: &[u8], start: usize, end: usize) -> (r: &[u8])
    requires
        start <= end <= s@.len(),
    ensures
        r@ == s@.subrange(start as int, end as int),
{
    &s[start..end]
}

fn decode_payload(msg_type: u8, payload: &[u8]) -> (res: Result<Message, ProtoError>)
    requires
        payload@.len() <= MAX_PAYLOAD,
    ensures
        match payload_message(msg_type, payload@) {
            Ok(m) => res matches Ok(msg) && msg@ == m,
            Err(e) => res == Err::<Message, ProtoError>(e),
        },
{
    if msg_type == TAG_SERVER_HELLO {
        let mut r = Reader::new(payload, "ServerHello");
        let proto_version = r.u8()?;
        let width = r.u16()?;
        let height = r.u16()?;
        let levels = r.u8()?;
        r.finish()?;
        Ok(Message::ServerHello(ServerHello { proto_version, width, height, levels }))
    } else if msg_type == TAG_UPDATE {
        decode_update(payload)
    } else if msg_type == TAG_MODE_CHANGED {
        let mut r = Reader::new(payload, "ModeChanged");
        let n = r.u8()? as usize;
        let bytes = r.take(n)?;
        r.finish()?;
        assert(bytes@ =~= payload@.subrange(1, payload@.len() as int));
        match utf8_str(bytes) {
            Some(name) => Ok(Message::ModeChanged(name.to_owned())),
            None => Err(ProtoError::Utf8),
        }
    } else if msg_type == TAG_CLIENT_HELLO {
        let mut r = Reader::new(payload, "ClientHello");
        let proto_version = r.u8()?;
        r.finish()?;
        Ok(Message::ClientHello { proto_version })
    } else if msg_type == TAG_READY {
        let r = Reader::new(payload, "Ready");
        r.finish()?;
        Ok(Message::Ready)
    } else {
        Err(ProtoError::UnknownType(msg_type))
    }
}

fn decode_update(payload: &[u8]) -> (res: Result<Message, ProtoError>)
    requires
        payload@.len() <= MAX_PAYLOAD,
    ensures
        match payload_message(TAG_UPDATE, payload@) {
            Ok(m) => res matches Ok(msg) && msg@ == m,
            Err(e) => res == Err::<Message, ProtoError>(e),
        },
{
    let ghost p = payload@;
    let mut r = Reader::new(payload, "Update");
    let hint_byte = r.u8()?;
    let refresh_hint = RefreshHint::from_u8(hint_byte)?;
    let n_rects = r.u16()? as usize;
    let mut rects: Vec<UpdateRect> = Vec::new();
    let mut i: usize = 0;
    while i < n_rects
        invariant
            p == payload@,
            p.len() <= MAX_PAYLOAD,
            r.b@ == p,
            r.msg == "Update",
            3 <= r.pos <= p.len(),
            p.len() >= 3,
            p[0] <= 2,
            n_rects == read_be16(p, 1),
            i <= n_rects,
            parse_rects(p, 3, n_rects as nat) == prepend_rects(
                rects@.map_values(|u: UpdateRect| u@),
                parse_rects(p, r.pos as int, (n_rects - i) as nat),
            ),
        decreases n_rects - i,
    {
        let ghost pos0 = r.pos as int;
        let ghost before = rects@.map_values(|u: UpdateRect| u@);
        match parse_one_rect(&mut r) {
            Ok(ur) => {
                let ghost item = ur@;
                rects.push(ur);
                proof {
                    assert(rects@.map_values(|u: UpdateRect| u@) =~= before.push(item));
                    lemma_prepend_step(p, pos0, (n_rects - i) as nat, before, item, r.pos as int);
                }
            },
            Err(e) => {
                proof {
                    assert(parse_rects(p, pos0, (n_rects - i) as nat) == Err::<
                        (Seq<(Rect, Seq<u8>)>, int),
                        ProtoError,
                    >(e));
                }
                return Err(e);
            },
        }
        i = i + 1;
    }
    r.finish()?;
    proof {
        assert(parse_rects(p, r.pos as int, 0) == Ok::<(Seq<(Rect, Seq<u8>)>, int), ProtoError>((Seq::empty(), r.pos as int)));
        assert(rects@.map_values(|u: UpdateRect| u@) + Seq::<(Rect, Seq<u8>)>::empty() =~= rects@.map_values(|u: UpdateRect| u@));
    }
    Ok(Message::Update(Update { refresh_hint, rects }))
}


/// Parse one update rect at the reader's position.
fn parse_one_rect(r: &mut Reader) -> (res: Result<UpdateRect, ProtoError>)
    requires
        old(r).b@.len() <= MAX_PAYLOAD,
        old(r).pos <= old(r).b@.len(),
        old(r).msg == "Update",
    ensures
        final(r).b == old(r).b,
        final(r).msg == old(r).msg,
        final(r).pos <= final(r).b@.len(),
        match parse_rect(old(r).b@, old(r).pos as int) {
            Ok((item, next)) => res matches Ok(u) && u@ == item && final(r).pos == next,
            Err(e) => res == Err::<UpdateRect, ProtoError>(e),
        },
{
    let x = r.u16()?;
    let y = r.u16()?;
    let width = r.u16()?;
    let height = r.u16()?;
    let comp_len = r.u32()? as usize;
    let comp = r.take(comp_len)?;
    let rect = Rect { x, y, width, height };
    assert(width * height <= 65535 * 65535) by (nonlinear_arith)
        requires
            width <= 65535,
            height <= 65535,
    ;
    let expected: usize = width as usize * height as usize;
    if expected > MAX_PAYLOAD as usize {
        return Err(
            ProtoError::Malformed { msg: "Update", detail: "rect pixel count exceeds maximum" },
        );
    }
    let gray8 = match zstd_decompress(comp, expected) {
        Some(g) => g,
        None => {
            return Err(ProtoError::Decompress);
        },
    };
    if gray8.len() != expected {
        return Err(
            ProtoError::Malformed {
                msg: "Update",
                detail: "decompressed rect size does not match width*height",
            },
        );
    }
    Ok(UpdateRect { rect, gray8 })
}

/// Put the already-parsed rects in front of the outcome of parsing the rest.
pub open spec fn prepend_rects(
    done: Seq<(Rect, Seq<u8>)>,
    rest: Result<(Seq<(Rect, Seq<u8>)>, int), ProtoError>,
) -> Result<(Seq<(Rect, Seq<u8>)>, int), ProtoError> {
    match rest {
        Err(e) => Err(e),
        Ok((rs, end)) => Ok((done + rs, end)),
    }
}

proof fn lemma_prepend_step(
    p: Seq<u8>,
    pos: int,
    k: nat,
    done: Seq<(Rect, Seq<u8>)>,
    item: (Rect, Seq<u8>),
    next: int,
)
    requires
        k >= 1,
        parse_rect(p, pos) == Ok::<((Rect, Seq<u8>), int), ProtoError>((item, next)),
    ensures
        prepend_rects(done, parse_rects(p, pos, k)) == prepend_rects(
            done.push(item),
            parse_rects(p, next, (k - 1) as nat),
        ),
{
    match parse_rects(p, next, (k - 1) as nat) {
        Err(e) => {},
        Ok((rs, end)) => {
            assert(done + (seq![item] + rs) =~= done.push(item) + rs);
        },
    }
}

/// A cursor over a fully-received payload. Because [`decode`] only calls this
/// once the whole frame is present, running short here means the payload's
/// declared length disagrees with its contents — a malformed frame, not a
/// need-more-bytes.
struct Reader<'a> {
    b: &'a [u8],
    pos: usize,
    msg: &'static str,
}

impl<'a> Reader<'a> {
    fn new(b: &'a [u8], msg: &'static str) -> (r: Self)
        ensures
            r.b == b,
            r.pos == 0,
            r.msg == msg,
    {
        Reader { b, pos: 0, msg }
    }

    fn take(&mut self, n: usize) -> (res: Result<&'a [u8], ProtoError>)
        requires
            old(self).b@.len() <= MAX_PAYLOAD,
            old(self).pos <= old(self).b@.len(),
        ensures
            final(self).b == old(self).b,
            final(self).msg == old(self).msg,
            final(self).pos <= final(self).b@.len(),
            match take_spec(old(self).b@, old(self).pos as int, n as int, old(self).msg) {
                Ok((bytes, end)) => res matches Ok(s) && s@ == bytes && final(self).pos == end,
                Err(e) => res == Err::<&'a [u8], ProtoError>(e),
            },
    {
        let end = match self.pos.checked_add(n) {
            Some(e) => e,
            None => {
                return Err(ProtoError::Malformed { msg: self.msg, detail: "length overflow" });
            },
        };
        if end > self.b.len() {
            return Err(ProtoError::Malformed { msg: self.msg, detail: "truncated payload" });
        }
        let out = slice_range(self.b, self.pos, end);
        self.pos = end;
        Ok(out)
    }

    fn u8(&mut self) -> (res: Result<u8, ProtoError>)
        requires
            old(self).b@.len() <= MAX_PAYLOAD,
            old(self).pos <= old(self).b@.len(),
        ensures
            final(self).b == old(self).b,
            final(self).msg == old(self).msg,
            final(self).pos <= final(self).b@.len(),
            old(self).pos + 1 <= old(self).b@.len() ==> res == Ok::<u8, ProtoError>(
                old(self).b@[old(self).pos as int],
            ) && final(self).pos == old(self).pos + 1,
            old(self).pos + 1 > old(self).b@.len() ==> res == Err::<u8, ProtoError>(
                truncated(old(self).msg),
            ),
    {
        let b = self.take(1)?;
        Ok(b[0])
    }

    fn u16(&mut self) -> (res: Result<u16, ProtoError>)
        requires
            old(self).b@.len() <= MAX_PAYLOAD,
            old(self).pos <= old(self).b@.len(),
        ensures
            final(self).b == old(self).b,
            final(self).msg == old(self).msg,
            final(self).pos <= final(self).b@.len(),
            old(self).pos + 2 <= old(self).b@.len() ==> res == Ok::<u16, ProtoError>(
                read_be16(old(self).b@, old(self).pos as int),
            ) && final(self).pos == old(self).pos + 2,
            old(self).pos + 2 > old(self).b@.len() ==> res == Err::<u16, ProtoError>(
                truncated(old(self).msg),
            ),
    {
        let b = self.take(2)?;
        Ok((b[0] as u16) * 256 + (b[1] as u16))
    }

    fn u32(&mut self) -> (res: Result<u32, ProtoError>)
        requires
            old(self).b@.len() <= MAX_PAYLOAD,
            old(self).pos <= old(self).b@.len(),
        ensures
            final(self).b == old(self).b,
            final(self).msg == old(self).msg,
            final(self).pos <= final(self).b@.len(),
            old(self).pos + 4 <= old(self).b@.len() ==> res == Ok::<u32, ProtoError>(
                read_be32(old(self).b@, old(self).pos as int),
            ) && final(self).pos == old(self).pos + 4,
            old(self).pos + 4 > old(self).b@.len() ==> res == Err::<u32, ProtoError>(
                truncated(old(self).msg),
            ),
    {
        let b = self.take(4)?;
        Ok((b[0] as u32) * 16777216 + (b[1] as u32) * 65536 + (b[2] as u32) * 256 + (b[3] as u32))
    }

    /// Assert the payload was fully consumed — trailing bytes mean the frame's
    /// length prefix disagrees with the message body.
    fn finish(&self) -> (res: Result<(), ProtoError>)
        ensures
            self.pos == self.b@.len() ==> res is Ok,
            self.pos != self.b@.len() ==> res == Err::<(), ProtoError>(trailing(self.msg)),
    {
        if self.pos != self.b.len() {
            return Err(ProtoError::Malformed { msg: self.msg, detail: "trailing payload bytes" });
        }
        Ok(())
    }
}

// --- laws ---

/// A rect whose pixels match its size and whose compressed form round-trips.
pub open spec fn rect_wire_ok(r: (Rect, Seq<u8>)) -> bool {
    &&& r.1.len() == r.0.width * r.0.height
    &&& r.0.width * r.0.height <= MAX_PAYLOAD
}

/// The messages that survive the wire unchanged: an update with at most
/// `u16::MAX` rects whose pixels fill their rects, and a mode name of at
/// most 255 bytes; every frame's payload within [`MAX_PAYLOAD`].
pub open spec fn encodable(m: MessageView) -> bool {
    &&& payload_of(m).len() <= MAX_PAYLOAD
    &&& match m {
        MessageView::Update(_, rs) => {
            &&& rs.len() <= 65535
            &&& forall|i: int| 0 <= i < rs.len() ==> #[trigger] rect_wire_ok(rs[i])
        },
        MessageView::ModeChanged(name) => encode_utf8(name).len() <= 255,
        _ => true,
    }
}

/// zstd's worst case for the wire forms of `rs`: each rect's 12-byte
/// header plus the compression bound of its pixels.
pub open spec fn rects_len_bound(rs: Seq<(Rect, Seq<u8>)>) -> int
    decreases rs.len(),
{
    if rs.len() == 0 {
        0
    } else {
        rects_len_bound(rs.drop_last()) + 12 + zstd_compress_bound(rs.last().1.len() as int)
    }
}

proof fn lemma_rects_encoding_len(rs: Seq<(Rect, Seq<u8>)>)
    requires
        rects_bounded(rs),
        forall|i: int| 0 <= i < rs.len() ==> #[trigger] rs[i].1.len() < 0xFF00_FF00,
    ensures
        rects_encoding(rs).len() <= rects_len_bound(rs),
    decreases rs.len(),
{
    if rs.len() > 0 {
        let t = rs.drop_last();
        assert forall|i: int|
            0 <= i < t.len() && t[i].1.len() < 0xFF00_FF00 implies (#[trigger] zstd_compressed(
            t[i].1,
            ZSTD_LEVEL,
        )).len() <= zstd_compress_bound(t[i].1.len() as int) by {
            assert(t[i] == rs[i]);
        }
        assert forall|i: int| 0 <= i < t.len() implies #[trigger] t[i].1.len() < 0xFF00_FF00 by {
            assert(t[i] == rs[i]);
        }
        lemma_rects_encoding_len(t);
        let last = rs.last();
        assert(last == rs[rs.len() - 1]);
        assert(last.1.len() < 0xFF00_FF00);
    }
}

/// An update whose rects fill their rects and fit the rect count is
/// encodable once zstd's worst case for it fits the payload limit; with the
/// compression bound [`encode`] reports for the rects it encoded, a caller
/// can discharge the round trip from sizes alone.
pub proof fn lemma_update_encodable(hint: RefreshHint, rs: Seq<(Rect, Seq<u8>)>)
    requires
        rs.len() <= 65535,
        forall|i: int| 0 <= i < rs.len() ==> #[trigger] rect_wire_ok(rs[i]),
        rects_bounded(rs),
        3 + rects_len_bound(rs) <= MAX_PAYLOAD,
    ensures
        encodable(MessageView::Update(hint, rs)),
{
    assert forall|i: int| 0 <= i < rs.len() implies #[trigger] rs[i].1.len() < 0xFF00_FF00 by {
        assert(rect_wire_ok(rs[i]));
    }
    assert(rs.take(rs.len() as int) =~= rs);
    lemma_rects_encoding_len(rs);
}

proof fn lemma_be16(v: u16)
    ensures
        read_be16(be16(v), 0) == v,
{
    assert((v / 256) * 256 + v % 256 == v);
}

proof fn lemma_be32(v: u32)
    ensures
        read_be32(be32(v), 0) == v,
{
    let b = be32(v);
    assert(b[0] * 16777216 + b[1] * 65536 + b[2] * 256 + b[3] == v) by (nonlinear_arith)
        requires
            b[0] == v / 16777216,
            b[1] == (v / 65536) % 256,
            b[2] == (v / 256) % 256,
            b[3] == v % 256,
            0 <= v <= 0xffff_ffff,
    {
        assert(v / 16777216 < 256);
    }
}

/// Reading at `pos` sees what was written there.
proof fn lemma_field16(p: Seq<u8>, i: int, v: u16)
    requires
        0 <= i,
        i + 2 <= p.len(),
        p[i] == be16(v)[0],
        p[i + 1] == be16(v)[1],
    ensures
        read_be16(p, i) == v,
{
    lemma_be16(v);
}

proof fn lemma_field32(p: Seq<u8>, i: int, v: u32)
    requires
        0 <= i,
        i + 4 <= p.len(),
        p[i] == be32(v)[0],
        p[i + 1] == be32(v)[1],
        p[i + 2] == be32(v)[2],
        p[i + 3] == be32(v)[3],
    ensures
        read_be32(p, i) == v,
{
    lemma_be32(v);
}

proof fn lemma_rects_encoding_cons(r: (Rect, Seq<u8>), rs: Seq<(Rect, Seq<u8>)>)
    ensures
        rects_encoding(seq![r] + rs) == rect_encoding(r) + rects_encoding(rs),
    decreases rs.len(),
{
    if rs.len() == 0 {
        assert(seq![r] + rs =~= seq![r]);
        assert(seq![r].drop_last() =~= Seq::<(Rect, Seq<u8>)>::empty());
        assert(rects_encoding(seq![r].drop_last()) == Seq::<u8>::empty());
        assert(rects_encoding(seq![r]) == rects_encoding(seq![r].drop_last()) + rect_encoding(
            r,
        ));
        assert(Seq::<u8>::empty() + rect_encoding(r) =~= rect_encoding(r));
        assert(rects_encoding(rs) == Seq::<u8>::empty());
        assert(rect_encoding(r) + Seq::<u8>::empty() =~= rect_encoding(r));
    } else {
        lemma_rects_encoding_cons(r, rs.drop_last());
        assert((seq![r] + rs).drop_last() =~= seq![r] + rs.drop_last());
        assert((seq![r] + rs).last() == rs.last());
        assert(rect_encoding(r) + rects_encoding(rs.drop_last()) + rect_encoding(rs.last())
            =~= rect_encoding(r) + (rects_encoding(rs.drop_last()) + rect_encoding(rs.last())));
    }
}

/// Parsing the wire forms of well-formed rects gives the rects back.
proof fn lemma_parse_rects_encoding(p: Seq<u8>, pos: int, rs: Seq<(Rect, Seq<u8>)>)
    requires
        0 <= pos,
        pos + rects_encoding(rs).len() <= p.len(),
        p.len() <= MAX_PAYLOAD,
        p.subrange(pos, pos + rects_encoding(rs).len()) == rects_encoding(rs),
        forall|i: int| 0 <= i < rs.len() ==> #[trigger] rect_wire_ok(rs[i]),
        rects_roundtrip(rs),
    ensures
        parse_rects(p, pos, rs.len()) == Ok::<(Seq<(Rect, Seq<u8>)>, int), ProtoError>(
            (rs, pos + rects_encoding(rs).len()),
        ),
    decreases rs.len(),
{
    if rs.len() > 0 {
        let r = rs[0];
        let tail = rs.drop_first();
        assert(rs =~= seq![r] + tail);
        lemma_rects_encoding_cons(r, tail);
        let enc = rect_encoding(r);
        let comp = zstd_compressed(r.1, ZSTD_LEVEL);
        let whole = rects_encoding(rs);
        assert(whole == enc + rects_encoding(tail));
        assert forall|i: int| 0 <= i < enc.len() implies p[pos + i] == #[trigger] enc[i] by {
            assert(p.subrange(pos, pos + whole.len())[i] == p[pos + i]);
            assert(whole[i] == enc[i]);
        }
        assert(p.subrange(pos + enc.len(), pos + enc.len() + rects_encoding(tail).len())
            =~= rects_encoding(tail)) by {
            assert forall|i: int| 0 <= i < rects_encoding(tail).len() implies p.subrange(
                pos + enc.len(),
                pos + enc.len() + rects_encoding(tail).len(),
            )[i] == rects_encoding(tail)[i] by {
                assert(p.subrange(pos, pos + whole.len())[enc.len() + i] == p[pos + enc.len() + i]);
                assert(whole[enc.len() + i] == rects_encoding(tail)[i]);
            }
        }
        // The header fields.
        assert(enc[0] == be16(r.0.x)[0] && enc[1] == be16(r.0.x)[1]);
        assert(enc[2] == be16(r.0.y)[0] && enc[3] == be16(r.0.y)[1]);
        assert(enc[4] == be16(r.0.width)[0] && enc[5] == be16(r.0.width)[1]);
        assert(enc[6] == be16(r.0.height)[0] && enc[7] == be16(r.0.height)[1]);
        assert(enc[8] == be32(comp.len() as u32)[0] && enc[9] == be32(comp.len() as u32)[1]);
        assert(enc[10] == be32(comp.len() as u32)[2] && enc[11] == be32(comp.len() as u32)[3]);
        assert(p[pos] == enc[0] && p[pos + 1] == enc[1] && p[pos + 2] == enc[2] && p[pos + 3]
            == enc[3]);
        assert(p[pos + 4] == enc[4] && p[pos + 5] == enc[5] && p[pos + 6] == enc[6] && p[pos + 7]
            == enc[7]);
        assert(p[pos + 8] == enc[8] && p[pos + 9] == enc[9] && p[pos + 10] == enc[10] && p[pos
            + 11] == enc[11]);
        lemma_field16(p, pos, r.0.x);
        lemma_field16(p, pos + 2, r.0.y);
        lemma_field16(p, pos + 4, r.0.width);
        lemma_field16(p, pos + 6, r.0.height);
        lemma_field32(p, pos + 8, comp.len() as u32);
        assert(comp.len() <= MAX_PAYLOAD);
        assert(p.subrange(pos + 12, pos + 12 + comp.len()) =~= comp) by {
            assert forall|i: int| 0 <= i < comp.len() implies p.subrange(
                pos + 12,
                pos + 12 + comp.len(),
            )[i] == comp[i] by {
                assert(enc[12 + i] == comp[i]);
                assert(p[pos + 12 + i] == enc[12 + i]);
            }
        }
        assert(rect_wire_ok(rs[0]));
        assert(zstd_decompressed(
            zstd_compressed(rs[0].1, ZSTD_LEVEL),
            (r.0.width * r.0.height) as usize,
        ) == Some(rs[0].1));
        assert(parse_rect(p, pos) == Ok::<((Rect, Seq<u8>), int), ProtoError>(
            (r, pos + enc.len()),
        ));
        assert forall|i: int| 0 <= i < tail.len() implies #[trigger] rect_wire_ok(tail[i]) by {
            assert(tail[i] == rs[i + 1]);
        }
        assert forall|i: int, cap: usize|
            0 <= i < tail.len() && cap >= tail[i].1.len() implies #[trigger] zstd_decompressed(
            zstd_compressed(tail[i].1, ZSTD_LEVEL),
            cap,
        ) == Some(tail[i].1) by {
            assert(tail[i] == rs[i + 1]);
        }
        lemma_parse_rects_encoding(p, pos + enc.len(), tail);
        assert(seq![r] + tail =~= rs);
        assert(tail.len() == (rs.len() - 1) as nat);
        assert(whole.len() == enc.len() + rects_encoding(tail).len());
        assert(parse_rects(p, pos, rs.len()) == match parse_rects(p, pos + enc.len(), tail.len()) {
            Err(e) => Err(e),
            Ok((rs2, end)) => Ok((seq![r] + rs2, end)),
        });
    } else {
        assert(rs =~= Seq::<(Rect, Seq<u8>)>::empty());
    }
}

/// A message survives the wire — decoding its encoding, even with more
/// bytes after it, gives the message back and consumes exactly its frame.
pub proof fn lemma_decode_encode(m: MessageView, rest: Seq<u8>)
    requires
        encodable(m),
        rects_roundtrip(wire_rects(m)),
    ensures
        decoded(encoded(m) + rest) == Ok::<Option<(MessageView, int)>, ProtoError>(
            Some((m, encoded(m).len() as int)),
        ),
{
    let p = payload_of(m);
    let buf = encoded(m) + rest;
    let hdr = be32(p.len() as u32);
    assert(encoded(m) == hdr + seq![tag_of(m)] + p);
    assert(buf[0] == hdr[0] && buf[1] == hdr[1] && buf[2] == hdr[2] && buf[3] == hdr[3]);
    lemma_field32(buf, 0, p.len() as u32);
    assert(buf[4] == tag_of(m));
    assert(buf.subrange(5, 5 + p.len() as int) =~= p);
    match m {
        MessageView::ServerHello(h) => {
            lemma_field16(p, 1, h.width);
            lemma_field16(p, 3, h.height);
        },
        MessageView::Update(hint, rs) => {
            let n = rs.len();
            assert(wire_rect_count(n) == n);
            assert(rs.take(n as int) =~= rs);
            lemma_field16(p, 1, n as u16);
            assert(p.subrange(3, 3 + rects_encoding(rs).len() as int) =~= rects_encoding(rs));
            lemma_parse_rects_encoding(p, 3, rs);
        },
        MessageView::ModeChanged(name) => {
            let bytes = encode_utf8(name);
            vstd::utf8::encode_utf8_valid_utf8(name);
            vstd::utf8::encode_utf8_decode_utf8(name);
            assert(bytes.take(bytes.len() as int) =~= bytes);
            assert(p.subrange(1, p.len() as int) =~= bytes);
        },
        MessageView::ClientHello(v) => {},
        MessageView::Ready => {},
    }
}

/// Every strict prefix of a frame is reported as incomplete, never as
/// an error.
pub proof fn lemma_prefix_needs_more(m: MessageView, k: int)
    requires
        payload_of(m).len() <= MAX_PAYLOAD,
        0 <= k < encoded(m).len(),
    ensures
        decoded(encoded(m).take(k)) == Ok::<Option<(MessageView, int)>, ProtoError>(None),
{
    let p = payload_of(m);
    let e = encoded(m);
    if k >= 5 {
        let buf = e.take(k);
        let hdr = be32(p.len() as u32);
        assert(buf[0] == hdr[0] && buf[1] == hdr[1] && buf[2] == hdr[2] && buf[3] == hdr[3]);
        lemma_field32(buf, 0, p.len() as u32);
    }
}

/// The wire layout, byte for byte: a big-endian `u32` payload length, the
/// type tag, then the payload. A hello is version, width and height
/// (big-endian `u16`s) and levels; `Ready` and the client hello are tags
/// 129 and 128; an update starts with its hint byte (0 Auto, 1 Fast,
/// 2 Quality) and a big-endian `u16` rect count.
pub proof fn lemma_wire_layout(h: ServerHello, v: u8, hint: RefreshHint, rs: Seq<(Rect, Seq<u8>)>)
    requires
        rs.len() <= 65535,
    ensures
        encoded(MessageView::ServerHello(h)) == seq![
            0u8,
            0u8,
            0u8,
            6u8,
            1u8,
            h.proto_version,
            (h.width / 256) as u8,
            (h.width % 256) as u8,
            (h.height / 256) as u8,
            (h.height % 256) as u8,
            h.levels,
        ],
        encoded(MessageView::Ready) == seq![0u8, 0u8, 0u8, 0u8, 129u8],
        encoded(MessageView::ClientHello(v)) == seq![0u8, 0u8, 0u8, 1u8, 128u8, v],
        hint_byte(RefreshHint::Auto) == 0,
        hint_byte(RefreshHint::Fast) == 1,
        hint_byte(RefreshHint::Quality) == 2,
        encoded(MessageView::Update(hint, rs))[4] == 2,
        encoded(MessageView::Update(hint, rs))[5] == hint_byte(hint),
        encoded(MessageView::Update(hint, rs))[6] == (rs.len() / 256) as u8,
        encoded(MessageView::Update(hint, rs))[7] == (rs.len() % 256) as u8,
{
    assert(encoded(MessageView::ServerHello(h)) =~= seq![
        0u8,
        0u8,
        0u8,
        6u8,
        1u8,
        h.proto_version,
        (h.width / 256) as u8,
        (h.width % 256) as u8,
        (h.height / 256) as u8,
        (h.height % 256) as u8,
        h.levels,
    ]);
    assert(encoded(MessageView::Ready) =~= seq![0u8, 0u8, 0u8, 0u8, 129u8]);
    assert(encoded(MessageView::ClientHello(v)) =~= seq![0u8, 0u8, 0u8, 1u8, 128u8, v]);
}

} // verus!
