//! Grayscale resizing with aspect-ratio fit modes (desktop is ~16:9/16:10,
//! e-ink tablets are 4:3 — something has to give).
//!
//! The resampling itself is done by `fast_image_resize`; this module decides
//! where the resampled image goes and what surrounds it.

use fast_image_resize as fir;
use vstd::prelude::*;
use vstd::string::StringExecFns;

verus! {

/// The resampler of `fast_image_resize`, carried through opaquely.
#[verifier::external_type_specification]
#[verifier::external_body]
pub struct ExResizer(fir::Resizer);

#[derive(Debug, Clone, Copy, PartialEq, Eq, Structural)]
pub enum FitMode {
    /// Scale to fit entirely, pad the rest with white (paper-like margins).
    Letterbox,
    /// Scale to fill, cropping source edges symmetrically.
    Crop,
    /// Ignore aspect ratio.
    Stretch,
}

impl FitMode {
    /// The default fit, letterboxing.
    pub fn default_mode() -> (m: Self)
        ensures
            m == FitMode::Letterbox,
    {
        FitMode::Letterbox
    }
}

// ---------------------------------------------------------------------------
// Letterbox placement, rounded as `f64` arithmetic rounds it
// ---------------------------------------------------------------------------

/// `2^k`.
pub open spec fn p2(k: nat) -> int
    decreases k,
{
    if k == 0 {
        1
    } else {
        2 * p2((k - 1) as nat)
    }
}

/// `n / d` rounded to nearest, ties to even (`d > 0`, `n >= 0`).
pub open spec fn rne(n: int, d: int) -> int {
    let q = n / d;
    let r = n % d;
    if 2 * r > d {
        q + 1
    } else if 2 * r < d {
        q
    } else if q % 2 == 0 {
        q
    } else {
        q + 1
    }
}

/// The least `e`, from `e` on, with `n·2^e >= d·2^52`: the scale at which
/// `n / d` has 53 significant bits.
pub open spec fn quot_exp(n: int, d: int, e: nat) -> nat
    decreases 100 - e,
{
    if e >= 100 || n * p2(e) >= d * p2(52) {
        e
    } else {
        quot_exp(n, d, e + 1)
    }
}

/// The `f64` nearest `n / d` (ties to even), as `(m, e)` meaning `m / 2^e`,
/// for `1 <= n, d < 2^32` (no overflow or subnormals arise there).
pub open spec fn f64_quot(n: int, d: int) -> (int, nat) {
    let e = quot_exp(n, d, 0);
    (rne(n * p2(e), d), e)
}

/// The least `t`, from `t` on, with `n < 2^53·2^t`: how many low bits of
/// `n` a 53-bit significand drops.
pub open spec fn mul_shift(n: int, t: nat) -> nat
    decreases 100 - t,
{
    if t >= 100 || n < p2(53) * p2(t) {
        t
    } else {
        mul_shift(n, t + 1)
    }
}

/// `c · (m / 2^e)` computed in `f64` (the product rounded to 53 significant
/// bits, ties to even), then rounded to the nearest integer, halves up.
pub open spec fn f64_mul_round(c: int, m: int, e: nat) -> int {
    let n = c * m;
    let t = mul_shift(n, 0);
    let a = rne(n, p2(t)) * p2(t);
    (2 * a + p2(e)) / (2 * p2(e))
}

/// `v` kept within `1..=hi`.
pub open spec fn clamp_side(v: int, hi: int) -> int {
    if v < 1 {
        1
    } else if v > hi {
        hi
    } else {
        v
    }
}

/// The placement `(width, height, x, y)` of a `sw`×`sh` image scaled by
/// `s = min(dw / sw, dh / sh)` and centered in `dw`×`dh`, computed as `f64`
/// arithmetic computes it: `s` is the correctly rounded quotient (rounding
/// is monotone, so the smaller rounded quotient is the rounded smaller
/// one; an empty source side gives an infinite quotient), each side is
/// `round(side · s)` with the product rounded to `f64`, kept within
/// `1..=` its destination side (both sides empty give `1`).
pub open spec fn letterbox_spec(sw: int, sh: int, dw: int, dh: int) -> (int, int, int, int) {
    let (pw, ph) = if sw == 0 && sh == 0 {
        (1int, 1int)
    } else {
        let (m, e) = if sw > 0 && dw * sh <= dh * sw {
            f64_quot(dw, sw)
        } else {
            f64_quot(dh, sh)
        };
        (clamp_side(f64_mul_round(sw, m, e), dw), clamp_side(f64_mul_round(sh, m, e), dh))
    };
    (pw, ph, (dw - pw) / 2, (dh - ph) / 2)
}

proof fn lemma_p2_mono(a: nat, b: nat)
    requires
        a <= b,
    ensures
        1 <= p2(a) <= p2(b),
    decreases b,
{
    if b == 0 {
    } else if a == b {
        lemma_p2_mono(0, (b - 1) as nat);
    } else {
        lemma_p2_mono(a, (b - 1) as nat);
    }
}

proof fn lemma_p2_values()
    ensures
        p2(32) == 0x1_0000_0000,
        p2(52) == 0x10_0000_0000_0000,
        p2(53) == 0x20_0000_0000_0000,
        p2(84) == 0x10_0000_0000_0000_0000_0000,
{
    reveal_with_fuel(p2, 86);
}

proof fn lemma_p2_add(a: nat, b: nat)
    ensures
        p2(a + b) == p2(a) * p2(b),
    decreases b,
{
    if b > 0 {
        lemma_p2_add(a, (b - 1) as nat);
        assert(p2(a + b) == 2 * p2((a + b - 1) as nat));
        assert(p2(a) * (2 * p2((b - 1) as nat)) == 2 * (p2(a) * p2((b - 1) as nat))) by (nonlinear_arith);
    }
}

proof fn lemma_quot_exp_same(n: int, e: nat)
    requires
        n >= 1,
        e <= 52,
    ensures
        quot_exp(n, n, e) == 52,
    decreases 52 - e,
{
    if e < 52 {
        lemma_p2_mono(e, 51);
        assert(p2(52) == 2 * p2(51));
        assert(n * p2(e) < n * p2(52)) by (nonlinear_arith)
            requires
                n >= 1,
                p2(e) <= p2(51),
                p2(52) == 2 * p2(51),
                p2(e) >= 1,
        ;
        lemma_quot_exp_same(n, e + 1);
    }
}

proof fn lemma_mul_shift_le(n: int, t: nat, u: nat)
    requires
        t <= u,
        u < 100,
        n < p2(53) * p2(u),
    ensures
        t <= mul_shift(n, t) <= u,
    decreases u - t,
{
    if t < u && !(n < p2(53) * p2(t)) {
        lemma_mul_shift_le(n, t + 1, u);
    }
}

/// An image placed at its own size fills the destination exactly.
proof fn lemma_letterbox_same_size(w: int, h: int)
    requires
        1 <= w < 0x1_0000_0000,
        1 <= h < 0x1_0000_0000,
    ensures
        letterbox_spec(w, h, w, h) == (w, h, 0int, 0int),
{
    lemma_p2_values();
    assert(w * h <= h * w) by (nonlinear_arith);
    lemma_quot_exp_same(w, 0);
    let big = w * p2(52);
    assert(big / w == p2(52) && big % w == 0) by (nonlinear_arith)
        requires
            big == w * p2(52),
            w >= 1,
    ;
    let (m, e) = f64_quot(w, w);
    assert(m == p2(52) && e == 52);
    lemma_side_same_size(w);
    lemma_side_same_size(h);
}

/// `side · 1.0` rounds back to `side`.
proof fn lemma_side_same_size(c: int)
    requires
        1 <= c < 0x1_0000_0000,
    ensures
        f64_mul_round(c, p2(52), 52) == c,
{
    lemma_p2_values();
    let n = c * p2(52);
    assert(n < p2(53) * p2(52)) by (nonlinear_arith)
        requires
            n == c * p2(52),
            c < 0x1_0000_0000,
            p2(53) == 0x20_0000_0000_0000,
            p2(52) == 0x10_0000_0000_0000,
    ;
    lemma_mul_shift_le(n, 0, 52);
    let t = mul_shift(n, 0);
    lemma_p2_add(t, (52 - t) as nat);
    let k = c * p2((52 - t) as nat);
    lemma_p2_mono(t, 52);
    lemma_p2_mono(0, (52 - t) as nat);
    assert(k >= 0) by (nonlinear_arith)
        requires
            k == c * p2((52 - t) as nat),
            c >= 1,
            p2((52 - t) as nat) >= 1,
    ;
    assert(n == k * p2(t)) by (nonlinear_arith)
        requires
            n == c * p2(52),
            k == c * p2((52 - t) as nat),
            p2(52) == p2(t) * p2((52 - t) as nat),
    ;
    assert(n / p2(t) == k && n % p2(t) == 0) by (nonlinear_arith)
        requires
            n == k * p2(t),
            p2(t) >= 1,
            k >= 0,
    ;
    assert(rne(n, p2(t)) == k);
    assert(rne(n, p2(t)) * p2(t) == n);
    assert((2 * n + p2(52)) / (2 * p2(52)) == c);
}

/// A region as large as the canvas is the whole canvas.
proof fn lemma_canvas_full(w: int, h: int, region: Seq<u8>)
    requires
        w >= 1,
        h >= 1,
        region.len() == w * h,
    ensures
        letterbox_canvas(w, h, w, h, 0, 0, region) == region,
{
    let c = letterbox_canvas(w, h, w, h, 0, 0, region);
    assert forall|i: int| 0 <= i < region.len() implies #[trigger] c[i] == region[i] by {
        let row = i / w;
        let col = i % w;
        assert(0 <= row < h && 0 <= col < w && row * w + col == i) by (nonlinear_arith)
            requires
                0 <= i < w * h,
                w >= 1,
                row == i / w,
                col == i % w,
        ;
    }
    assert(c =~= region);
}

/// `rne` on machine integers.
fn rne_exec(x: u128, d: u128) -> (r: u128)
    requires
        d > 0,
        d <= 0x1_0000_0000_0000_0000,
        x <= 0x100_0000_0000_0000_0000_0000_0000,
    ensures
        r == rne(x as int, d as int),
        r <= x / d + 1,
{
    let q = x / d;
    let r = x % d;
    if 2 * r > d {
        q + 1
    } else if 2 * r < d {
        q
    } else if q % 2 == 0 {
        q
    } else {
        q + 1
    }
}

/// [`f64_quot`] of `n / d`, with `2^e`.
fn f64_quot_exec(n: u32, d: u32) -> (r: (u128, u32, u128))
    requires
        n >= 1,
        d >= 1,
    ensures
        r.0 == f64_quot(n as int, d as int).0,
        r.1 == f64_quot(n as int, d as int).1,
        r.2 == p2(r.1 as nat),
        r.0 <= p2(53),
        r.1 <= 84,
{
    proof {
        lemma_p2_values();
    }
    let big: u128 = (d as u128) * 0x10_0000_0000_0000u128;
    let mut p: u128 = 1;
    let mut e: u32 = 0;
    assert(n * p2(0) < d * p2(53)) by (nonlinear_arith)
        requires
            n < 0x1_0000_0000,
            d >= 1,
            p2(0) == 1,
            p2(53) == 0x20_0000_0000_0000,
    ;
    while (n as u128) * p < big
        invariant
            n >= 1,
            d >= 1,
            n < 0x1_0000_0000,
            d < 0x1_0000_0000,
            big == d * p2(52),
            p == p2(e as nat),
            e <= 84,
            p <= 0x10_0000_0000_0000_0000_0000,
            n * p2(e as nat) < d * p2(53),
            quot_exp(n as int, d as int, 0) == quot_exp(n as int, d as int, e as nat),
            p2(52) == 0x10_0000_0000_0000,
            p2(53) == 0x20_0000_0000_0000,
            p2(84) == 0x10_0000_0000_0000_0000_0000,
        decreases 84 - e,
    {
        assert(p < 0x10_0000_0000_0000_0000_0000) by (nonlinear_arith)
            requires
                n * p < d * 0x10_0000_0000_0000,
                n >= 1,
                d < 0x1_0000_0000,
        ;
        proof {
            if e >= 84 {
                lemma_p2_mono(84, e as nat);
            }
        }
        assert(n * (2 * p) < d * p2(53)) by (nonlinear_arith)
            requires
                n * p < d * 0x10_0000_0000_0000,
                p2(53) == 0x20_0000_0000_0000,
        ;
        p = p * 2;
        e = e + 1;
        proof {
            lemma_p2_mono(e as nat, 84);
        }
    }
    let x = (n as u128) * p;
    assert(x < d * 0x20_0000_0000_0000);
    assert(x <= 0x100_0000_0000_0000_0000_0000_0000) by (nonlinear_arith)
        requires
            x < d * 0x20_0000_0000_0000,
            d < 0x1_0000_0000,
    ;
    let m = rne_exec(x, d as u128);
    assert(x / (d as u128) < 0x20_0000_0000_0000) by (nonlinear_arith)
        requires
            x < d * 0x20_0000_0000_0000,
            d >= 1,
    ;
    (m, e, p)
}

/// [`f64_mul_round`] of `c · (m / 2^e)`, given `pe == 2^e`.
fn f64_mul_round_exec(c: u32, m: u128, e: u32, pe: u128) -> (r: u128)
    requires
        m <= p2(53),
        e <= 84,
        pe == p2(e as nat),
    ensures
        r == f64_mul_round(c as int, m as int, e as nat),
{
    proof {
        lemma_p2_values();
        lemma_p2_mono(e as nat, 84);
        lemma_p2_mono(0, e as nat);
    }
    assert((c as int) * (m as int) < 0x20_0000_0000_0000_0000_0000) by (nonlinear_arith)
        requires
            c < 0x1_0000_0000,
            m <= 0x20_0000_0000_0000,
    ;
    let n = (c as u128) * m;
    let mut pt: u128 = 1;
    let mut t: u32 = 0;
    while n >= 0x20_0000_0000_0000u128 * pt
        invariant
            p2(53) == 0x20_0000_0000_0000,
            n < 0x20_0000_0000_0000_0000_0000,
            pt == p2(t as nat),
            t <= 32,
            pt <= 0x1_0000_0000,
            mul_shift(n as int, 0) == mul_shift(n as int, t as nat),
            p2(32) == 0x1_0000_0000,
        decreases 32 - t,
    {
        assert(pt < 0x1_0000_0000) by (nonlinear_arith)
            requires
                n >= 0x20_0000_0000_0000 * pt,
                n < 0x20_0000_0000_0000_0000_0000,
        ;
        proof {
            if t >= 32 {
                lemma_p2_mono(32, t as nat);
            }
        }
        pt = pt * 2;
        t = t + 1;
        proof {
            lemma_p2_mono(t as nat, 32);
        }
    }
    let q = rne_exec(n, pt);
    assert(q * pt <= n + pt) by (nonlinear_arith)
        requires
            q <= n / pt + 1,
            pt >= 1,
    ;
    let a = q * pt;
    let r = (2 * a + pe) / (2 * pe);
    r
}

/// Scaled size and top-left placement that centers `src` in `dst`
/// preserving aspect ratio: (width, height, x, y).
pub fn letterbox_placement(src: (u32, u32), dst: (u32, u32)) -> (r: (u32, u32, u32, u32))
    requires
        dst.0 >= 1,
        dst.1 >= 1,
    ensures
        (r.0 as int, r.1 as int, r.2 as int, r.3 as int) == letterbox_spec(
            src.0 as int,
            src.1 as int,
            dst.0 as int,
            dst.1 as int,
        ),
        1 <= r.0 <= dst.0,
        1 <= r.1 <= dst.1,
        r.2 + r.0 <= dst.0,
        r.3 + r.1 <= dst.1,
{
    let (sw, sh) = src;
    let (dw, dh) = dst;
    proof {
        lemma_u32_product(dw, sh);
        lemma_u32_product(dh, sw);
    }
    let (pw, ph): (u32, u32) = if sw == 0 && sh == 0 {
        (1, 1)
    } else {
        let wide = sw > 0 && (dw as u64) * (sh as u64) <= (dh as u64) * (sw as u64);
        proof {
            if !wide && sw > 0 && sh == 0 {
                assert((dw as int) * (sh as int) == 0) by (nonlinear_arith)
                    requires
                        sh == 0,
                ;
                assert((dh as int) * (sw as int) >= 0) by (nonlinear_arith);
            }
        }
        let (m, e, pe) = if wide {
            f64_quot_exec(dw, sw)
        } else {
            f64_quot_exec(dh, sh)
        };
        let w = f64_mul_round_exec(sw, m, e, pe);
        let h = f64_mul_round_exec(sh, m, e, pe);
        let pw: u32 = if w < 1 {
            1
        } else if w > dw as u128 {
            dw
        } else {
            w as u32
        };
        let ph: u32 = if h < 1 {
            1
        } else if h > dh as u128 {
            dh
        } else {
            h as u32
        };
        (pw, ph)
    };
    (pw, ph, (dw - pw) / 2, (dh - ph) / 2)
}

/// The product of two `u32`s fits a `u64`.
proof fn lemma_u32_product(a: u32, b: u32)
    ensures
        a * b <= 0xffff_fffe_0000_0001,
{
    assert(a * b <= 0xffff_ffff * 0xffff_ffff) by (nonlinear_arith)
        requires
            a <= 0xffff_ffff,
            b <= 0xffff_ffff,
    ;
}

// ---------------------------------------------------------------------------
// Resampling
// ---------------------------------------------------------------------------

/// A failed resize, with the resampler's message.
#[derive(Debug, Clone)]
pub struct ScaleError(pub String);

/// `fast_image_resize::Resizer::new`: a resampler using the best CPU
/// extensions available (nothing is promised of it beyond its type).
#[verifier::external_body]
fn new_resizer() -> fir::Resizer {
    fir::Resizer::new()
}

/// The Gray8 image `fast_image_resize::Resizer::resize` makes of the
/// `sw`×`sh` image `src` at `dw`×`dh` with Lanczos3 convolution, after
/// cropping `src` to the destination's aspect ratio (centered) when `crop`.
pub uninterp spec fn resized_gray8(src: Seq<u8>, sw: u32, sh: u32, dw: u32, dh: u32, crop: bool) -> Seq<u8>;

/// `Resizer::resize` with default options (Lanczos3 convolution, no crop)
/// from an `ImageRef` over `src` (`sw`×`sh`) into an `Image` over `dst`
/// (`dw`×`dh`), both Gray8 and exactly sized.
///
/// Claimed, from the crate's source: on exactly sized Gray8 buffers neither
/// view nor the resize fails; with an empty source or destination side
/// nothing is written; otherwise every destination pixel is written with a
/// value that depends on the source pixels and the four sides alone (the
/// crate's tests expect one checksum on every CPU extension), and equal
/// sizes copy the source unchanged.
#[verifier::external_body]
fn resize_gray8(resizer: &mut fir::Resizer, src: &[u8], sw: u32, sh: u32, dst: &mut [u8], dw: u32, dh: u32) -> (r: Result<(), String>)
    requires
        src@.len() == sw * sh,
        old(dst)@.len() == dw * dh,
    ensures
        r is Ok,
        final(dst)@.len() == old(dst)@.len(),
        sw > 0 && sh > 0 && dw > 0 && dh > 0 ==> final(dst)@ == resized_gray8(src@, sw, sh, dw, dh, false),
        sw == 0 || sh == 0 || dw == 0 || dh == 0 ==> final(dst)@ == old(dst)@,
        sw == dw && sh == dh ==> final(dst)@ == src@,
{
    let src_img = fir::images::ImageRef::new(sw, sh, src, fir::PixelType::U8).map_err(|e| e.to_string())?;
    let mut dst_img = fir::images::Image::from_slice_u8(dw, dh, dst, fir::PixelType::U8).map_err(|e| e.to_string())?;
    resizer.resize(&src_img, &mut dst_img, None).map_err(|e| e.to_string())
}

/// Whether `fast_image_resize` accepts the crop box it computes in `f64` for
/// fitting a `sw`×`sh` source to the aspect ratio of `dw`×`dh`
/// (`CropBox::fit_src_into_dst_size`, checked by `CroppedSrcImageView::crop`
/// inside `Resizer::resize`).
pub uninterp spec fn crop_box_fits(sw: u32, sh: u32, dw: u32, dh: u32) -> bool;

/// `Resizer::resize` with `ResizeOptions::fit_into_destination(None)`
/// (crop `src` to the destination's aspect ratio, centered, then Lanczos3)
/// on the same exactly sized Gray8 views as [`resize_gray8`].
///
/// Claimed, from the crate's source: with no empty side, the resize
/// succeeds exactly when the crop box, computed from the four sides alone,
/// fits the source (named, not described), and then writes every
/// destination pixel with the named result; when it fails it has written
/// nothing. With an empty side it succeeds and writes nothing.
#[verifier::external_body]
fn resize_gray8_crop(resizer: &mut fir::Resizer, src: &[u8], sw: u32, sh: u32, dst: &mut [u8], dw: u32, dh: u32) -> (r: Result<(), String>)
    requires
        src@.len() == sw * sh,
        old(dst)@.len() == dw * dh,
    ensures
        final(dst)@.len() == old(dst)@.len(),
        r is Err ==> final(dst)@ == old(dst)@,
        r is Ok && sw > 0 && sh > 0 && dw > 0 && dh > 0 ==> final(dst)@ == resized_gray8(src@, sw, sh, dw, dh, true),
        sw > 0 && sh > 0 && dw > 0 && dh > 0 ==> (r is Ok <==> crop_box_fits(sw, sh, dw, dh)),
        sw == 0 || sh == 0 || dw == 0 || dh == 0 ==> r is Ok && final(dst)@ == old(dst)@,
{
    let src_img = fir::images::ImageRef::new(sw, sh, src, fir::PixelType::U8).map_err(|e| e.to_string())?;
    let mut dst_img = fir::images::Image::from_slice_u8(dw, dh, dst, fir::PixelType::U8).map_err(|e| e.to_string())?;
    let opts = fir::ResizeOptions::new().fit_into_destination(None);
    resizer.resize(&src_img, &mut dst_img, &opts).map_err(|e| e.to_string())
}

/// Whether a crop from `src` to `dst` goes through: always when a side is
/// empty, else when the resampler accepts its crop box.
pub open spec fn crop_accepted(src: (u32, u32), dst: (u32, u32)) -> bool {
    src.0 == 0 || src.1 == 0 || dst.0 == 0 || dst.1 == 0 || crop_box_fits(src.0, src.1, dst.0, dst.1)
}

/// What [`Scaler::scale_gray`] makes of the `sw`×`sh` gray image at the
/// front of `src` at `dw`×`dh` under `fit`: the resampled image (white where
/// a side is empty); for letterboxing, the resampled image (black where the
/// source is empty) centered on white.
pub open spec fn scaled_spec(src: Seq<u8>, sw: u32, sh: u32, dw: u32, dh: u32, fit: FitMode) -> Seq<u8> {
    let s = src.subrange(0, sw * sh);
    match fit {
        FitMode::Letterbox => {
            let (pw, ph, px, py) = letterbox_spec(sw as int, sh as int, dw as int, dh as int);
            let region = if sw > 0 && sh > 0 && pw > 0 && ph > 0 {
                resized_gray8(s, sw, sh, pw as u32, ph as u32, false)
            } else {
                Seq::new((pw * ph) as nat, |i: int| 0u8)
            };
            letterbox_canvas(dw as int, dh as int, pw, ph, px, py, region)
        },
        _ => if sw > 0 && sh > 0 && dw > 0 && dh > 0 {
            resized_gray8(s, sw, sh, dw, dh, fit == FitMode::Crop)
        } else {
            white(dw * dh)
        },
    }
}

/// A `w`×`h` white canvas with the `pw`×`ph` image `region` placed at
/// `(px, py)`.
pub open spec fn letterbox_canvas(
    w: int,
    h: int,
    pw: int,
    ph: int,
    px: int,
    py: int,
    region: Seq<u8>,
) -> Seq<u8> {
    Seq::new(
        (w * h) as nat,
        |i: int|
            {
                let row = i / w;
                let col = i % w;
                if py <= row < py + ph && px <= col < px + pw {
                    region[(row - py) * pw + (col - px)]
                } else {
                    255u8
                }
            },
    )
}

/// A `w`×`h` white canvas.
pub open spec fn white(n: int) -> Seq<u8> {
    Seq::new(n as nat, |i: int| 255u8)
}

/// `n` bytes of `v`.
fn filled(n: usize, v: u8) -> (out: Vec<u8>)
    ensures
        out@ == Seq::new(n as nat, |i: int| v),
{
    let mut out: Vec<u8> = Vec::with_capacity(n);
    let mut i: usize = 0;
    while i < n
        invariant
            i <= n,
            out@ == Seq::new(i as nat, |k: int| v),
        decreases n - i,
    {
        out.push(v);
        i = i + 1;
    }
    out
}

/// Put the `pw`×`ph` image `region` at `(px, py)` of the white `w`×`h`
/// canvas `dst`.
pub fn place_region(
    dst: &mut Vec<u8>,
    w: u32,
    h: u32,
    region: &[u8],
    pw: u32,
    ph: u32,
    px: u32,
    py: u32,
)
    requires
        old(dst)@ == white(w * h),
        w * h <= usize::MAX,
        region@.len() == pw * ph,
        px + pw <= w,
        py + ph <= h,
    ensures
        final(dst)@ == letterbox_canvas(
            w as int,
            h as int,
            pw as int,
            ph as int,
            px as int,
            py as int,
            region@,
        ),
{
    let ghost target = letterbox_canvas(
        w as int,
        h as int,
        pw as int,
        ph as int,
        px as int,
        py as int,
        region@,
    );
    let stride = w as usize;
    let rlen = region.len();
    let mut row: usize = 0;
    proof {
        lemma_mul_le(ph as int, pw as int, h as int, w as int);
    }
    while row < ph as usize
        invariant
            target == letterbox_canvas(
                w as int,
                h as int,
                pw as int,
                ph as int,
                px as int,
                py as int,
                region@,
            ),
            rlen == region@.len(),
            dst@.len() == w * h,
            w * h <= usize::MAX,
            stride == w,
            region@.len() == pw * ph,
            px + pw <= w,
            py + ph <= h,
            row <= ph,
            forall|i: int|
                0 <= i < w * h ==> #[trigger] dst@[i] == if i / (w as int) < py + row {
                    target[i]
                } else {
                    255u8
                },
        decreases ph - row,
    {
        let mut col: usize = 0;
        while col < pw as usize
            invariant
                target == letterbox_canvas(
                    w as int,
                    h as int,
                    pw as int,
                    ph as int,
                    px as int,
                    py as int,
                    region@,
                ),
                rlen == region@.len(),
                dst@.len() == w * h,
                w * h <= usize::MAX,
                stride == w,
                region@.len() == pw * ph,
                px + pw <= w,
                py + ph <= h,
                row < ph,
                col <= pw,
                forall|i: int|
                    0 <= i < w * h ==> #[trigger] dst@[i] == if i / (w as int) < py + row || (i
                        / (w as int) == py + row && i % (w as int) < px + col) {
                        target[i]
                    } else {
                        255u8
                    },
            decreases pw - col,
        {
            proof {
                lemma_cell_in(w as int, h as int, (py + row) as int, (px + col) as int);
                lemma_cell_in(pw as int, ph as int, row as int, col as int);
            }
            let d = (py as usize + row) * stride + px as usize + col;
            let s = row * (pw as usize) + col;
            let v = region[s];
            dst.set(d, v);
            proof {
                vstd::arithmetic::div_mod::lemma_fundamental_div_mod_converse(
                    d as int,
                    w as int,
                    (py + row) as int,
                    (px + col) as int,
                );
                assert forall|i: int| 0 <= i < w * h implies #[trigger] dst@[i] == if i / (w as int)
                    < py + row || (i / (w as int) == py + row && i % (w as int) < px + col + 1) {
                    target[i]
                } else {
                    255u8
                } by {
                    if i != d {
                        vstd::arithmetic::div_mod::lemma_fundamental_div_mod(i, w as int);
                        if i / (w as int) == py + row && i % (w as int) == px + col {
                            assert((w as int) * (i / (w as int)) == (py + row) * (w as int))
                                by (nonlinear_arith)
                                requires
                                    i / (w as int) == py + row,
                            ;
                        }
                    }
                }
            }
            col = col + 1;
        }
        proof {
            assert forall|i: int| 0 <= i < w * h implies #[trigger] dst@[i] == if i / (w as int)
                < py + row + 1 {
                target[i]
            } else {
                255u8
            } by {
                if i / (w as int) == py + row && i % (w as int) >= px + pw {
                    vstd::arithmetic::div_mod::lemma_fundamental_div_mod(i, w as int);
                }
            }
        }
        row = row + 1;
    }
    proof {
        assert forall|i: int| 0 <= i < w * h implies #[trigger] dst@[i] == target[i] by {
            if i / (w as int) >= py + ph {
            }
        }
        assert(dst@ =~= target);
    }
}

/// `a * b <= c * d` for `a <= c`, `b <= d`.
proof fn lemma_mul_le(a: int, b: int, c: int, d: int)
    requires
        0 <= a <= c,
        0 <= b <= d,
    ensures
        a * b <= c * d,
{
    assert(a * b <= c * d) by (nonlinear_arith)
        requires
            0 <= a <= c,
            0 <= b <= d,
    ;
}

/// Cell `(row, col)` of a `w`×`h` grid lies inside its row-major buffer.
proof fn lemma_cell_in(w: int, h: int, row: int, col: int)
    requires
        0 <= row < h,
        0 <= col < w,
    ensures
        0 <= row * w + col < w * h,
{
    assert(row * w + col < w * h) by (nonlinear_arith)
        requires
            0 <= row < h,
            0 <= col < w,
    ;
    assert(0 <= row * w) by (nonlinear_arith)
        requires
            0 <= row,
            0 <= col < w,
    ;
}

/// Grayscale resizing into a fresh destination, honoring the fit mode.
pub struct Scaler {
    resizer: fir::Resizer,
}

impl Scaler {
    pub fn new() -> (s: Self) {
        Scaler { resizer: new_resizer() }
    }

    /// Resize gray `src` (sw×sh) into `dst` (dw×dh) honoring `fit`.
    /// `dst` is fully rewritten: white where no image lands (letterbox
    /// bars), and white throughout when the resize fails. Cropping uses the
    /// resampler's own centered fit box (`fit_into_destination`), computed
    /// in `f64` as `(dw / dh) · sh` or `sw / (dw / dh)`; a box computed as
    /// `dw / max(dw / sw, dh / sh)` is the same box up to the last bits of
    /// its `f64` rounding.
    pub fn scale_gray(
        &mut self,
        src: &mut [u8],
        src_size: (u32, u32),
        dst: &mut Vec<u8>,
        dst_size: (u32, u32),
        fit: FitMode,
    ) -> (r: Result<(), ScaleError>)
        requires
            src_size.0 * src_size.1 <= usize::MAX,
            dst_size.0 * dst_size.1 <= usize::MAX,
            fit == FitMode::Letterbox ==> dst_size.0 >= 1 && dst_size.1 >= 1,
        ensures
            final(src)@ == old(src)@,
            final(dst)@.len() == dst_size.0 * dst_size.1,
            r is Err ==> final(dst)@ == white(dst_size.0 * dst_size.1),
            old(src)@.len() < src_size.0 * src_size.1 ==> r is Err,
            fit != FitMode::Crop && old(src)@.len() >= src_size.0 * src_size.1 ==> r is Ok,
            fit == FitMode::Crop && old(src)@.len() >= src_size.0 * src_size.1 ==> (r is Ok <==> crop_accepted(src_size, dst_size)),
            fit != FitMode::Crop && r is Ok && src_size == dst_size ==> final(dst)@
                == old(src)@.subrange(0, src_size.0 * src_size.1),
            r is Ok ==> final(dst)@ == scaled_spec(
                old(src)@,
                src_size.0,
                src_size.1,
                dst_size.0,
                dst_size.1,
                fit,
            ),
    {
        let (sw, sh) = src_size;
        let (dw, dh) = dst_size;
        let n = dw as usize * dh as usize;
        *dst = filled(n, 255);
        let m = sw as usize * sh as usize;
        if src.len() < m {
            return Err(ScaleError(String::from_str("source buffer is smaller than its image")));
        }
        let image = vstd::slice::slice_subrange(&*src, 0, m);
        match fit {
            FitMode::Stretch => {
                match resize_gray8(&mut self.resizer, image, sw, sh, dst.as_mut_slice(), dw, dh) {
                    Ok(()) => Ok(()),
                    Err(e) => Err(ScaleError(e)),
                }
            },
            FitMode::Crop => {
                match resize_gray8_crop(&mut self.resizer, image, sw, sh, dst.as_mut_slice(), dw, dh) {
                    Ok(()) => Ok(()),
                    Err(e) => Err(ScaleError(e)),
                }
            },
            FitMode::Letterbox => {
                let (pw, ph, px, py) = letterbox_placement((sw, sh), (dw, dh));
                proof {
                    lemma_mul_le(pw as int, ph as int, dw as int, dh as int);
                }
                let mut region = filled(pw as usize * ph as usize, 0);
                match resize_gray8(&mut self.resizer, image, sw, sh, region.as_mut_slice(), pw, ph) {
                    Ok(()) => {},
                    Err(e) => {
                        return Err(ScaleError(e));
                    },
                }
                place_region(dst, dw, dh, region.as_slice(), pw, ph, px, py);
                proof {
                    if sw == dw && sh == dh {
                        lemma_letterbox_same_size(sw as int, sh as int);
                        lemma_canvas_full(dw as int, dh as int, region@);
                    }
                }
                Ok(())
            },
        }
    }
}

} // verus!
