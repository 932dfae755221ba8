//! Pixel format conversions between pipeline formats and what the VNC
//! framebuffer stores (RGBA, 4 bytes/pixel).

use vstd::prelude::*;

use crate::frame::{Frame, PixelFormat};

verus! {

/// RGBA expansion of a grayscale buffer: each gray byte `g` becomes
/// `g, g, g, 255`.
pub open spec fn gray_rgba(gray: Seq<u8>) -> Seq<u8> {
    Seq::new(4 * gray.len(), |i: int| if i % 4 == 3 { 255u8 } else { gray[i / 4] })
}

/// RGBA from 4-byte pixels whose channel `k` of the output comes from input
/// byte `pick(k)`; alpha is always opaque. Trailing bytes that do not form a
/// whole pixel are ignored.
pub open spec fn swizzle_rgba(src: Seq<u8>, r: int, g: int, b: int) -> Seq<u8> {
    Seq::new(
        4 * (src.len() / 4),
        |i: int|
            {
                let base = (i / 4) * 4;
                if i % 4 == 0 {
                    src[base + r]
                } else if i % 4 == 1 {
                    src[base + g]
                } else if i % 4 == 2 {
                    src[base + b]
                } else {
                    255u8
                }
            },
    )
}

/// B,G,R,X memory order → RGBA.
pub open spec fn bgrx_rgba(src: Seq<u8>) -> Seq<u8> {
    swizzle_rgba(src, 2, 1, 0)
}

/// R,G,B,X memory order → RGBA.
pub open spec fn rgbx_rgba(src: Seq<u8>) -> Seq<u8> {
    swizzle_rgba(src, 0, 1, 2)
}

/// RGBA layout of a frame, by its format.
pub open spec fn frame_rgba(format: PixelFormat, data: Seq<u8>) -> Seq<u8> {
    match format {
        PixelFormat::Gray8 => gray_rgba(data),
        PixelFormat::Bgrx8888 => bgrx_rgba(data),
        PixelFormat::Rgbx8888 => rgbx_rgba(data),
    }
}

/// Expand 8-bit grayscale into RGBA (R=G=B=gray, A=255), reusing `out`'s
/// allocation across frames. Gray is symmetric in R/G/B, so this is correct
/// regardless of the client's negotiated channel order.
pub fn gray8_to_rgba(gray: &[u8], out: &mut Vec<u8>)
    requires
        4 * gray@.len() <= usize::MAX,
    ensures
        final(out)@ == gray_rgba(gray@),
{
    out.clear();
    out.reserve(gray.len() * 4);
    let n = gray.len();
    let mut k: usize = 0;
    while k < n
        invariant
            k <= n,
            n == gray@.len(),
            out@.len() == 4 * k,
            forall|i: int| 0 <= i < 4 * k ==> out@[i] == gray_rgba(gray@)[i],
        decreases n - k,
    {
        let g = gray[k];
        out.push(g);
        out.push(g);
        out.push(g);
        out.push(255u8);
        k = k + 1;
    }
    assert(out@ =~= gray_rgba(gray@));
}

/// Shared body of the two 4-byte swizzles.
fn swizzle_to_rgba(src: &[u8], out: &mut Vec<u8>, r: usize, g: usize, b: usize)
    requires
        r < 4,
        g < 4,
        b < 4,
    ensures
        final(out)@ == swizzle_rgba(src@, r as int, g as int, b as int),
{
    out.clear();
    let len = src.len();
    out.reserve(len);
    let n = len / 4;
    let mut k: usize = 0;
    while k < n
        invariant
            k <= n,
            n == src@.len() / 4,
            4 * n <= len,
            len == src@.len(),
            r < 4,
            g < 4,
            b < 4,
            out@.len() == 4 * k,
            forall|i: int|
                0 <= i < 4 * k ==> out@[i] == swizzle_rgba(src@, r as int, g as int, b as int)[i],
        decreases n - k,
    {
        let base = 4 * k;
        out.push(src[base + r]);
        out.push(src[base + g]);
        out.push(src[base + b]);
        out.push(255u8);
        k = k + 1;
    }
    assert(out@ =~= swizzle_rgba(src@, r as int, g as int, b as int));
}

/// B,G,R,X memory order (wl_shm xrgb8888 on little-endian) → RGBA.
pub fn bgrx_to_rgba(src: &[u8], out: &mut Vec<u8>)
    ensures
        final(out)@ == bgrx_rgba(src@),
{
    swizzle_to_rgba(src, out, 2, 1, 0);
}

/// R,G,B,X memory order (wl_shm xbgr8888 on little-endian) → RGBA.
pub fn rgbx_to_rgba(src: &[u8], out: &mut Vec<u8>)
    ensures
        final(out)@ == rgbx_rgba(src@),
{
    swizzle_to_rgba(src, out, 0, 1, 2);
}

/// Convert any [`Frame`] to the RGBA layout the VNC framebuffer stores.
pub fn frame_to_rgba(frame: &Frame, out: &mut Vec<u8>)
    requires
        4 * frame.data@.len() <= usize::MAX,
    ensures
        final(out)@ == frame_rgba(frame.format, frame.data@),
{
    match frame.format {
        PixelFormat::Gray8 => gray8_to_rgba(frame.data.as_slice(), out),
        PixelFormat::Bgrx8888 => bgrx_to_rgba(frame.data.as_slice(), out),
        PixelFormat::Rgbx8888 => rgbx_to_rgba(frame.data.as_slice(), out),
    }
}

/// Each 4-byte pixel becomes one opaque RGBA pixel with its channels read
/// from their memory positions: B,G,R,X takes red from byte 2 and blue from
/// byte 0, R,G,B,X the other way round; a gray byte fills all three
/// channels.
pub proof fn lemma_channel_order(src: Seq<u8>, gray: Seq<u8>, p: int)
    requires
        0 <= p,
        4 * p + 4 <= src.len(),
    ensures
        bgrx_rgba(src)[4 * p] == src[4 * p + 2],
        bgrx_rgba(src)[4 * p + 1] == src[4 * p + 1],
        bgrx_rgba(src)[4 * p + 2] == src[4 * p],
        bgrx_rgba(src)[4 * p + 3] == 255,
        rgbx_rgba(src)[4 * p] == src[4 * p],
        rgbx_rgba(src)[4 * p + 1] == src[4 * p + 1],
        rgbx_rgba(src)[4 * p + 2] == src[4 * p + 2],
        rgbx_rgba(src)[4 * p + 3] == 255,
        p < gray.len() ==> gray_rgba(gray)[4 * p] == gray[p] && gray_rgba(gray)[4 * p + 1]
            == gray[p] && gray_rgba(gray)[4 * p + 2] == gray[p] && gray_rgba(gray)[4 * p + 3]
            == 255,
{
    assert(4 * p + 4 <= 4 * (src.len() / 4));
    assert((4 * p) / 4 == p && (4 * p + 1) / 4 == p && (4 * p + 2) / 4 == p && (4 * p + 3) / 4 == p);
    assert((4 * p) % 4 == 0 && (4 * p + 1) % 4 == 1 && (4 * p + 2) % 4 == 2 && (4 * p + 3) % 4 == 3);
}

} // verus!
