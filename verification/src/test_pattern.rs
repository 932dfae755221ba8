//! Synthetic animated test source — lets the whole mirror path be exercised
//! with no compositor and no tablet. Deliberately built to stress what e-ink
//! cares about:
//!
//! - static fine detail (1-px line gratings ≈ small text) to judge crispness
//! - a bouncing box → small sub-rect updates every frame
//! - a live millisecond seven-segment counter → localized churn + latency probe
//! - a full-frame inversion flash every 10 s → forces full-framebuffer updates
//!
//! The pacing loop that calls [`render`] lives in the program around it.

use vstd::prelude::*;

use crate::frame::{Frame, PixelFormat};
use crate::overlay::{counter_digits, counter_spec, draw_ms_counter, fill_rect, fill_spec};

verus! {

/// `max(v, 1)`.
pub open spec fn at_least_one(v: int) -> int {
    if v < 1 {
        1
    } else {
        v
    }
}

/// Background pixel `(x, y)` of a `w`×`h` pattern, by horizontal band:
/// a gradient, an 8-px checkerboard, line gratings of pitch 2/4/8, and a
/// flat mid-gray arena.
pub open spec fn background_pixel(x: int, y: int, w: int, h: int) -> u8 {
    let band = h / 4;
    let sel = y / at_least_one(band);
    if sel == 0 {
        ((x * 255) / at_least_one(w)) as u8
    } else if sel == 1 {
        if ((x / 8) + (y / 8)) % 2 == 0 {
            32
        } else {
            224
        }
    } else if sel == 2 {
        let k = (3 * x) / at_least_one(w);
        let pitch = if k == 0 {
            2int
        } else if k == 1 {
            4int
        } else {
            8int
        };
        if x % pitch == 0 {
            0
        } else {
            255
        }
    } else {
        160
    }
}

/// The whole static background, row-major.
pub open spec fn background_spec(w: int, h: int) -> Seq<u8> {
    Seq::new((w * h) as nat, |i: int| background_pixel(i % w, i / w, w, h))
}

/// Static parts, computed once: gradient, checkerboards, line gratings.
pub fn render_background(width: u32, height: u32) -> (px: Vec<u8>)
    requires
        width * height <= usize::MAX,
    ensures
        px@ == background_spec(width as int, height as int),
{
    let w = width as usize;
    let h = height as usize;
    let band = h / 4;
    let band1 = if band < 1 {
        1
    } else {
        band
    };
    let w1 = if w < 1 {
        1
    } else {
        w
    };
    let mut px: Vec<u8> = Vec::new();
    let mut y: usize = 0;
    while y < h
        invariant
            w == width,
            h == height,
            band == h / 4,
            band1 == at_least_one(band as int),
            w1 == at_least_one(w as int),
            w * h <= usize::MAX,
            y <= h,
            px@.len() == y * w,
            forall|i: int|
                0 <= i < y * w ==> #[trigger] px@[i] == background_pixel(i % (w as int), i / (w as int), w as int, h as int),
        decreases h - y,
    {
        let mut x: usize = 0;
        while x < w
            invariant
                w == width,
                h == height,
                band == h / 4,
                band1 == at_least_one(band as int),
                w1 == at_least_one(w as int),
                w * h <= usize::MAX,
                y < h,
                x <= w,
                px@.len() == y * w + x,
                forall|i: int|
                    0 <= i < y * w + x ==> #[trigger] px@[i] == background_pixel(i % (w as int), i / (w as int), w as int, h as int),
            decreases w - x,
        {
            let sel = y / band1;
            let v: u8 = if sel == 0 {
                ((x as u64 * 255) / w1 as u64) as u8
            } else if sel == 1 {
                if ((x / 8) + (y / 8)) % 2 == 0 {
                    32
                } else {
                    224
                }
            } else if sel == 2 {
                let k = (3 * x as u64) / w1 as u64;
                let pitch: usize = if k == 0 {
                    2
                } else if k == 1 {
                    4
                } else {
                    8
                };
                if x % pitch == 0 {
                    0
                } else {
                    255
                }
            } else {
                160
            };
            proof {
                vstd::arithmetic::div_mod::lemma_fundamental_div_mod_converse(
                    (y * w + x) as int,
                    w as int,
                    y as int,
                    x as int,
                );
            }
            px.push(v);
            x = x + 1;
        }
        proof {
            assert((y + 1) * w == y * w + w) by (nonlinear_arith);
        }
        y = y + 1;
    }
    proof {
        assert(y * w == w * h) by (nonlinear_arith)
            requires
                y == h,
        ;
        assert(px@ =~= background_spec(width as int, height as int));
    }
    px
}

/// Bounce `t` back and forth over `0..=len`.
pub open spec fn ping_pong_spec(t: int, len: int) -> int {
    let m = t % (2 * len);
    if m < len {
        m
    } else {
        2 * len - m
    }
}

pub fn ping_pong(t: u64, len: u64) -> (r: u64)
    requires
        0 < len <= u64::MAX / 2,
    ensures
        r == ping_pong_spec(t as int, len as int),
        r <= len,
{
    let period = 2 * len;
    let m = t % period;
    if m < len {
        m
    } else {
        period - m
    }
}

/// `v` clamped into `lo..=hi`.
pub open spec fn clamp(v: int, lo: int, hi: int) -> int {
    if v < lo {
        lo
    } else if v > hi {
        hi
    } else {
        v
    }
}

/// Side of the bouncing box in a `w`×`h` frame: half the bottom band, kept
/// within 16..=96, shrunk to fit the frame's width and the band, and never
/// below 8 (small frames still render; the box is clipped).
pub open spec fn box_side(w: int, h: int) -> int {
    let side = clamp((h / 4) / 2, 16, 96);
    let fit = if side > w {
        w
    } else {
        side
    };
    let fit = if fit > h / 4 {
        h / 4
    } else {
        fit
    };
    if fit < 8 {
        8
    } else {
        fit
    }
}

/// Every byte inverted when `flash`.
pub open spec fn inverted_if(px: Seq<u8>, flash: bool) -> Seq<u8> {
    if flash {
        Seq::new(px.len(), |i: int| (255 - px[i]) as u8)
    } else {
        px
    }
}

/// One animated frame at `ms` milliseconds: the background, the bouncing
/// box (black square with a white inside), the counter, and the inversion
/// flash during the last second of every ten.
pub open spec fn render_spec(bg: Seq<u8>, w: int, h: int, ms: u64) -> Seq<u8> {
    let band = h / 4;
    let side = box_side(w, h);
    let bx = ping_pong_spec((ms / 4) as int, at_least_one(w - side));
    let by = 3 * band + ping_pong_spec((ms / 7) as int, at_least_one(band - side));
    let p1 = fill_spec(bg, w, bx, by, side, side, 0);
    let p2 = fill_spec(p1, w, bx + 4, by + 4, side - 8, side - 8, 255);
    let scale = clamp(w / 160, 2, 8);
    let p3 = counter_spec(p2, w, counter_digits(ms), scale, counter_digits(ms).len());
    inverted_if(p3, ms % 10_000 >= 9_000)
}

/// Render the frame shown `ms` milliseconds after the source started.
pub fn render(background: &[u8], width: u32, height: u32, ms: u64) -> (f: Frame)
    requires
        width > 0,
    ensures
        f.width == width,
        f.height == height,
        f.format == PixelFormat::Gray8,
        f.data@ == render_spec(background@, width as int, height as int, ms),
{
    let w = width as usize;
    let h = height as usize;
    let mut px = vstd::slice::slice_to_vec(background);
    let band = h / 4;
    let half = band / 2;
    let mut side: usize = if half < 16 {
        16
    } else if half > 96 {
        96
    } else {
        half
    };
    if side > w {
        side = w;
    }
    if side > band {
        side = band;
    }
    if side < 8 {
        side = 8;
    }
    let track_w: u64 = if w <= side + 1 {
        1
    } else {
        (w - side) as u64
    };
    let track_h: u64 = if band <= side + 1 {
        1
    } else {
        (band - side) as u64
    };
    let bx = ping_pong(ms / 4, track_w) as usize;
    let by = 3 * band + ping_pong(ms / 7, track_h) as usize;
    fill_rect(px.as_mut_slice(), w, bx, by, side, side, 0);
    fill_rect(px.as_mut_slice(), w, bx + 4, by + 4, side - 8, side - 8, 255);
    let s = w / 160;
    let scale: usize = if s < 2 {
        2
    } else if s > 8 {
        8
    } else {
        s
    };
    draw_ms_counter(px.as_mut_slice(), w, ms, scale);
    if ms % 10_000 >= 9_000 {
        let ghost before = px@;
        let n = px.len();
        let mut i: usize = 0;
        while i < n
            invariant
                n == px@.len(),
                n == before.len(),
                i <= n,
                forall|k: int| 0 <= k < i ==> #[trigger] px@[k] == (255 - before[k]) as u8,
                forall|k: int| i <= k < n ==> #[trigger] px@[k] == before[k],
            decreases n - i,
        {
            let v = px[i];
            px.set(i, 255 - v);
            i = i + 1;
        }
        proof {
            assert(px@ =~= inverted_if(before, true));
        }
    }
    Frame { width, height, format: PixelFormat::Gray8, data: px }
}

} // verus!
