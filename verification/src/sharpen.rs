//! Unsharp-mask sharpening: `out = in + amount * (in - blur(in))`.
//!
//! Small text is the whole point of an e-ink monitor, and EPD panels plus
//! scaling soften strokes; boosting local contrast around edges keeps glyphs
//! legible. The blur is a separable box filter — two O(n) running-sum passes —
//! which at radius 1–2 is visually close enough to gaussian and very cheap.
//! The strength is fixed-point: `amount_fp` is the amount times 256.

use vstd::prelude::*;

verus! {

/// Largest radius whose running sums fit a `u32`.
pub const MAX_RADIUS: usize = 8421503;

/// Largest fixed-point amount whose products fit an `i32`.
pub const MAX_AMOUNT_FP: i32 = 8421504;

/// `k` clamped to `0..n` (edge replication).
pub open spec fn clamp_index(k: int, n: int) -> int {
    if k < 0 {
        0
    } else if k > n - 1 {
        n - 1
    } else {
        k
    }
}

/// Sum of `n` edge-replicated pixels of row `y` starting at column `lo`.
pub open spec fn row_window(src: Seq<u8>, w: int, y: int, lo: int, n: nat) -> int
    decreases n,
{
    if n == 0 {
        0
    } else {
        row_window(src, w, y, lo, (n - 1) as nat) + src[y * w + clamp_index(lo + n - 1, w)]
    }
}

/// Sum of `n` edge-replicated pixels of column `x` starting at row `lo`.
pub open spec fn col_window(src: Seq<u8>, w: int, h: int, x: int, lo: int, n: nat) -> int
    decreases n,
{
    if n == 0 {
        0
    } else {
        col_window(src, w, h, x, lo, (n - 1) as nat) + src[clamp_index(lo + n - 1, h) * w + x]
    }
}

/// Horizontal box blur of radius `r` over a `w`-wide image.
pub open spec fn hblurred(src: Seq<u8>, w: int, r: int) -> Seq<u8> {
    Seq::new(
        src.len(),
        |i: int| (row_window(src, w, i / w, i % w - r, (2 * r + 1) as nat) / (2 * r + 1)) as u8,
    )
}

/// Vertical box blur of radius `r` over a `w`-wide image of `h` rows.
pub open spec fn vblurred(src: Seq<u8>, w: int, h: int, r: int) -> Seq<u8> {
    Seq::new(
        src.len(),
        |i: int|
            (col_window(src, w, h, i % w, i / w - r, (2 * r + 1) as nat) / (2 * r + 1)) as u8,
    )
}

/// One sharpened pixel: `orig + amount * (orig - blur)`, clamped to a byte.
pub open spec fn sharpen_pixel(orig: int, blur: int, amount_fp: int) -> u8 {
    let v = orig + (amount_fp * (orig - blur)) / 256;
    if v < 0 {
        0
    } else if v > 255 {
        255
    } else {
        v as u8
    }
}

/// The whole image after unsharp masking with radius `r`.
pub open spec fn sharpened(src: Seq<u8>, w: int, amount_fp: int, r: int) -> Seq<u8> {
    let blur = vblurred(hblurred(src, w, r), w, (src.len() as int) / w, r);
    Seq::new(src.len(), |i: int| sharpen_pixel(src[i] as int, blur[i] as int, amount_fp))
}

/// Whether [`unsharp`] does anything for these settings.
pub open spec fn unsharp_active(len: int, amount_fp: int, radius: int) -> bool {
    amount_fp > 0 && radius > 0 && len > 0
}

/// Sharpen `buf` (grayscale, `width`-stride) in place. `amount_fp` ≤ 0 is a
/// no-op, typical range 128–384. `radius` is the box half-width in pixels.
/// `scratch` buffers are caller-owned so repeated frames don't reallocate;
/// they are left holding the horizontal and the full blur.
pub fn unsharp(
    buf: &mut [u8],
    width: usize,
    amount_fp: i32,
    radius: usize,
    scratch_h: &mut Vec<u8>,
    scratch_v: &mut Vec<u8>,
)
    requires
        unsharp_active(old(buf)@.len() as int, amount_fp as int, radius as int) ==> {
            &&& width > 0
            &&& (old(buf)@.len() as int) % (width as int) == 0
            &&& radius <= MAX_RADIUS
            &&& amount_fp <= MAX_AMOUNT_FP
        },
    ensures
        !unsharp_active(old(buf)@.len() as int, amount_fp as int, radius as int) ==> {
            &&& final(buf)@ == old(buf)@
            &&& final(scratch_h)@ == old(scratch_h)@
            &&& final(scratch_v)@ == old(scratch_v)@
        },
        unsharp_active(old(buf)@.len() as int, amount_fp as int, radius as int) ==> {
            &&& final(buf)@ == sharpened(old(buf)@, width as int, amount_fp as int, radius as int)
            &&& final(scratch_h)@ == hblurred(old(buf)@, width as int, radius as int)
            &&& final(scratch_v)@ == vblurred(
                hblurred(old(buf)@, width as int, radius as int),
                width as int,
                (old(buf)@.len() as int) / (width as int),
                radius as int,
            )
        },
{
    if amount_fp <= 0 || radius == 0 || buf.len() == 0 {
        return;
    }
    let n = buf.len();
    let height = n / width;
    let ghost src = buf@;
    proof {
        vstd::arithmetic::div_mod::lemma_fundamental_div_mod(n as int, width as int);
        assert(n == width * height);
        assert(height > 0) by (nonlinear_arith)
            requires
                n == width * height,
                n > 0,
        ;
    }
    blur_horizontal(buf, scratch_h, width, radius);
    blur_vertical(scratch_h.as_slice(), scratch_v, width, height, radius);
    let ghost blur = scratch_v@;
    let a = amount_fp as i64;
    let mut i: usize = 0;
    while i < n
        invariant
            n == buf@.len(),
            n == src.len(),
            blur.len() == n,
            blur == scratch_v@,
            width > 0,
            i <= n,
            0 < a <= MAX_AMOUNT_FP,
            forall|j: int| i <= j < n ==> buf@[j] == src[j],
            forall|j: int|
                0 <= j < i ==> #[trigger] buf@[j] == sharpen_pixel(
                    src[j] as int,
                    blur[j] as int,
                    a as int,
                ),
        decreases n - i,
    {
        let orig = buf[i] as i64;
        let diff = orig - scratch_v[i] as i64;
        assert(-4294967296 <= a * diff <= 4294967296) by (nonlinear_arith)
            requires
                0 < a <= MAX_AMOUNT_FP,
                -255 <= diff <= 255,
        ;
        let scaled = floor_div256(a * diff);
        let v = orig + scaled;
        buf[i] = if v < 0 {
            0
        } else if v > 255 {
            255
        } else {
            v as u8
        };
        i = i + 1;
    }
    proof {
        vstd::arithmetic::div_mod::lemma_fundamental_div_mod(n as int, width as int);
        assert(height == n as int / width as int);
        assert(buf@ =~= sharpened(src, width as int, amount_fp as int, radius as int));
    }
}

/// `n / 256` rounded toward negative infinity.
fn floor_div256(n: i64) -> (r: i64)
    requires
        -4294967296 <= n <= 4294967296,
    ensures
        r == n / 256,
{
    if n >= 0 {
        n / 256
    } else {
        -((-n + 255) / 256)
    }
}

/// Shifting a window one step right drops its first pixel and adds the next.
proof fn lemma_row_window_shift(src: Seq<u8>, w: int, y: int, lo: int, n: nat)
    ensures
        row_window(src, w, y, lo + 1, n) == row_window(src, w, y, lo, n) - src[y * w
            + clamp_index(lo, w)] + src[y * w + clamp_index(lo + n, w)],
    decreases n,
{
    if n > 0 {
        lemma_row_window_shift(src, w, y, lo, (n - 1) as nat);
    }
}

proof fn lemma_col_window_shift(src: Seq<u8>, w: int, h: int, x: int, lo: int, n: nat)
    ensures
        col_window(src, w, h, x, lo + 1, n) == col_window(src, w, h, x, lo, n) - src[clamp_index(
            lo,
            h,
        ) * w + x] + src[clamp_index(lo + n, h) * w + x],
    decreases n,
{
    if n > 0 {
        lemma_col_window_shift(src, w, h, x, lo, (n - 1) as nat);
    }
}

/// A window of `n` bytes sums to at most `255 n`.
proof fn lemma_row_window_bounds(src: Seq<u8>, w: int, y: int, lo: int, n: nat)
    requires
        w > 0,
        0 <= y,
        (y + 1) * w <= src.len(),
    ensures
        0 <= row_window(src, w, y, lo, n) <= 255 * n,
    decreases n,
{
    if n > 0 {
        lemma_row_window_bounds(src, w, y, lo, (n - 1) as nat);
        lemma_row_index(w, y, clamp_index(lo + n - 1, w), src.len() as int);
    }
}

proof fn lemma_col_window_bounds(src: Seq<u8>, w: int, h: int, x: int, lo: int, n: nat)
    requires
        w > 0,
        h > 0,
        0 <= x < w,
        h * w <= src.len(),
    ensures
        0 <= col_window(src, w, h, x, lo, n) <= 255 * n,
    decreases n,
{
    if n > 0 {
        lemma_col_window_bounds(src, w, h, x, lo, (n - 1) as nat);
        let yy = clamp_index(lo + n - 1, h);
        assert((yy + 1) * w <= h * w) by (nonlinear_arith)
            requires
                yy + 1 <= h,
                w > 0,
        ;
        lemma_row_index(w, yy, x, src.len() as int);
    }
}

/// Pixel `x` of row `y` lies inside a buffer holding that row.
proof fn lemma_row_index(w: int, y: int, x: int, len: int)
    requires
        w > 0,
        0 <= y,
        0 <= x < w,
        (y + 1) * w <= len,
    ensures
        0 <= y * w + x < len,
        (y + 1) * w == y * w + w,
{
    assert((y + 1) * w == y * w + w) by (nonlinear_arith);
    assert(0 <= y * w) by (nonlinear_arith)
        requires
            0 <= y,
            w > 0,
    ;
}

/// Box blur along rows with edge-replicated borders, one running sum per row.
fn blur_horizontal(src: &[u8], dst: &mut Vec<u8>, width: usize, radius: usize)
    requires
        width > 0,
        0 < radius <= MAX_RADIUS,
        (src@.len() as int) % (width as int) == 0,
    ensures
        final(dst)@ == hblurred(src@, width as int, radius as int),
{
    let n = src.len();
    dst.clear();
    let height = n / width;
    let window: u32 = (2 * radius + 1) as u32;
    let ghost r = radius as int;
    let ghost w = width as int;
    proof {
        vstd::arithmetic::div_mod::lemma_fundamental_div_mod(n as int, width as int);
        assert(n == height * width) by (nonlinear_arith)
            requires
                n == width * height + n % width,
                n % width == 0,
        ;
    }
    let mut y: usize = 0;
    while y < height
        invariant
            n == src@.len(),
            n == height * width,
            width > 0,
            0 < radius <= MAX_RADIUS,
            r == radius,
            w == width,
            window == 2 * r + 1,
            y <= height,
            dst@.len() == y * width,
            forall|i: int|
                0 <= i < y * width ==> #[trigger] dst@[i] == hblurred(src@, w, r)[i],
        decreases height - y,
    {
        proof {
            assert((y + 1) * width <= height * width) by (nonlinear_arith)
                requires
                    y + 1 <= height,
                    width > 0,
            ;
            lemma_row_index(w, y as int, 0, n as int);
        }
        let row: usize = y * width;
        // Initial window centered on column 0.
        let mut sum: u32 = 0;
        let mut k: usize = 0;
        while k < 2 * radius + 1
            invariant
                n == src@.len(),
                (y + 1) * width <= n,
                row == y * width,
                width > 0,
                0 < radius <= MAX_RADIUS,
                r == radius,
                w == width,
                k <= 2 * radius + 1,
                sum == row_window(src@, w, y as int, -r, k as nat),
                sum <= 255 * k,
            decreases 2 * radius + 1 - k,
        {
            let c = clamp_col(k as i128 - radius as i128, width);
            proof {
                lemma_row_index(w, y as int, c as int, n as int);
            }
            sum = sum + src[row + c] as u32;
            k = k + 1;
        }
        let mut x: usize = 0;
        while x < width
            invariant
                n == src@.len(),
                (y + 1) * width <= n,
                row == y * width,
                width > 0,
                0 < radius <= MAX_RADIUS,
                r == radius,
                w == width,
                window == 2 * r + 1,
                x <= width,
                y < height,
                dst@.len() == y * width + x,
                sum == row_window(src@, w, y as int, x - r, (2 * r + 1) as nat),
                forall|i: int|
                    0 <= i < y * width + x ==> #[trigger] dst@[i] == hblurred(src@, w, r)[i],
            decreases width - x,
        {
            proof {
                lemma_row_window_bounds(src@, w, y as int, x - r, (2 * r + 1) as nat);
                lemma_row_window_bounds(src@, w, y as int, x + 1 - r, (2 * r + 1) as nat);
                lemma_row_window_shift(src@, w, y as int, x - r, (2 * r + 1) as nat);
                lemma_row_index(w, y as int, x as int, n as int);
                let i = y * width + x;
                vstd::arithmetic::div_mod::lemma_fundamental_div_mod_converse(
                    i as int,
                    w,
                    y as int,
                    x as int,
                );
            }
            assert(sum / window <= 255) by (nonlinear_arith)
                requires
                    sum <= 255 * window,
                    window > 0,
            ;
            dst.push((sum / window) as u8);
            let add_c = clamp_col(x as i128 + radius as i128 + 1, width);
            let sub_c = clamp_col(x as i128 - radius as i128, width);
            proof {
                lemma_row_index(w, y as int, add_c as int, n as int);
                lemma_row_index(w, y as int, sub_c as int, n as int);
            }
            sum = sum + src[row + add_c] as u32;
            sum = sum - src[row + sub_c] as u32;
            x = x + 1;
        }
        y = y + 1;
        assert((y as int) * width == (y - 1) * width + width) by (nonlinear_arith);
    }
    assert(dst@ =~= hblurred(src@, width as int, radius as int));
}

/// Column index `k` clamped into `0..width`.
fn clamp_col(k: i128, width: usize) -> (c: usize)
    requires
        width > 0,
    ensures
        c == clamp_index(k as int, width as int),
        c < width,
{
    if k < 0 {
        0
    } else if k > (width - 1) as i128 {
        width - 1
    } else {
        k as usize
    }
}

/// Box blur along columns: one running sum per column, swept top to bottom.
fn blur_vertical(src: &[u8], dst: &mut Vec<u8>, width: usize, height: usize, radius: usize)
    requires
        width > 0,
        height > 0,
        0 < radius <= MAX_RADIUS,
        src@.len() == width * height,
    ensures
        final(dst)@ == vblurred(src@, width as int, height as int, radius as int),
{
    let n = src.len();
    let window: u32 = (2 * radius + 1) as u32;
    let ghost r = radius as int;
    let ghost w = width as int;
    let ghost h = height as int;
    // Per-column window sums centered on row 0.
    let mut sums: Vec<u32> = Vec::with_capacity(width);
    let mut x: usize = 0;
    while x < width
        invariant
            n == src@.len(),
            n == width * height,
            width > 0,
            height > 0,
            0 < radius <= MAX_RADIUS,
            r == radius,
            w == width,
            h == height,
            x <= width,
            sums@.len() == x,
            forall|j: int|
                0 <= j < x ==> #[trigger] sums@[j] == col_window(src@, w, h, j, -r, (2 * r + 1) as nat),
        decreases width - x,
    {
        let mut s: u32 = 0;
        let mut k: usize = 0;
        while k < 2 * radius + 1
            invariant
                n == src@.len(),
                n == width * height,
                width > 0,
                height > 0,
                0 < radius <= MAX_RADIUS,
                r == radius,
                w == width,
                h == height,
                x < width,
                k <= 2 * radius + 1,
                s == col_window(src@, w, h, x as int, -r, k as nat),
                s <= 255 * k,
            decreases 2 * radius + 1 - k,
        {
            let yy = clamp_row(k as i128 - radius as i128, height);
            proof {
                lemma_cell_index(w, h, yy as int, x as int);
            }
            s = s + src[yy * width + x] as u32;
            k = k + 1;
        }
        sums.push(s);
        x = x + 1;
    }
    dst.clear();
    let mut y: usize = 0;
    while y < height
        invariant
            n == src@.len(),
            n == width * height,
            width > 0,
            height > 0,
            0 < radius <= MAX_RADIUS,
            r == radius,
            w == width,
            h == height,
            window == 2 * r + 1,
            y <= height,
            sums@.len() == width,
            forall|j: int|
                0 <= j < width ==> #[trigger] sums@[j] == col_window(
                    src@,
                    w,
                    h,
                    j,
                    y - r,
                    (2 * r + 1) as nat,
                ),
            dst@.len() == y * width,
            forall|i: int|
                0 <= i < y * width ==> #[trigger] dst@[i] == vblurred(src@, w, h, r)[i],
        decreases height - y,
    {
        let mut x: usize = 0;
        while x < width
            invariant
                n == src@.len(),
                n == width * height,
                width > 0,
                height > 0,
                0 < radius <= MAX_RADIUS,
                r == radius,
                w == width,
                h == height,
                window == 2 * r + 1,
                y < height,
                x <= width,
                sums@.len() == width,
                forall|j: int|
                    0 <= j < width ==> #[trigger] sums@[j] == col_window(
                        src@,
                        w,
                        h,
                        j,
                        y - r,
                        (2 * r + 1) as nat,
                    ),
                dst@.len() == y * width + x,
                forall|i: int|
                    0 <= i < y * width + x ==> #[trigger] dst@[i] == vblurred(src@, w, h, r)[i],
            decreases width - x,
        {
            let s = sums[x];
            proof {
                lemma_col_window_bounds(src@, w, h, x as int, y - r, (2 * r + 1) as nat);
                lemma_cell_index(w, h, y as int, x as int);
                let i = y * width + x;
                vstd::arithmetic::div_mod::lemma_fundamental_div_mod_converse(
                    i as int,
                    w,
                    y as int,
                    x as int,
                );
            }
            assert(s / window <= 255) by (nonlinear_arith)
                requires
                    s <= 255 * window,
                    window > 0,
            ;
            dst.push((s / window) as u8);
            x = x + 1;
        }
        // Slide every column's window down one row.
        let add_y = clamp_row(y as i128 + radius as i128 + 1, height);
        let sub_y = clamp_row(y as i128 - radius as i128, height);
        let mut x: usize = 0;
        while x < width
            invariant
                n == src@.len(),
                n == width * height,
                width > 0,
                height > 0,
                0 < radius <= MAX_RADIUS,
                r == radius,
                w == width,
                h == height,
                y < height,
                x <= width,
                add_y == clamp_index(y + r + 1, h),
                sub_y == clamp_index(y - r, h),
                add_y < height,
                sub_y < height,
                sums@.len() == width,
                forall|j: int|
                    0 <= j < x ==> #[trigger] sums@[j] == col_window(
                        src@,
                        w,
                        h,
                        j,
                        y + 1 - r,
                        (2 * r + 1) as nat,
                    ),
                forall|j: int|
                    x <= j < width ==> #[trigger] sums@[j] == col_window(
                        src@,
                        w,
                        h,
                        j,
                        y - r,
                        (2 * r + 1) as nat,
                    ),
            decreases width - x,
        {
            let s = sums[x];
            proof {
                lemma_col_window_bounds(src@, w, h, x as int, y - r, (2 * r + 1) as nat);
                lemma_col_window_bounds(src@, w, h, x as int, y + 1 - r, (2 * r + 1) as nat);
                lemma_col_window_shift(src@, w, h, x as int, y - r, (2 * r + 1) as nat);
                lemma_cell_index(w, h, add_y as int, x as int);
                lemma_cell_index(w, h, sub_y as int, x as int);
            }
            let s2 = s + src[add_y * width + x] as u32 - src[sub_y * width + x] as u32;
            sums.set(x, s2);
            x = x + 1;
        }
        y = y + 1;
        assert((y as int) * width == (y - 1) * width + width) by (nonlinear_arith);
    }
    assert(height * width == width * height) by (nonlinear_arith);
    assert(dst@ =~= vblurred(src@, width as int, height as int, radius as int));
}

/// Cell `(x, y)` of a `w`×`h` image lies inside its buffer.
proof fn lemma_cell_index(w: int, h: int, y: int, x: int)
    requires
        w > 0,
        0 <= y < h,
        0 <= x < w,
    ensures
        0 <= y * w + x < w * h,
{
    assert(y * w + x < w * h) by (nonlinear_arith)
        requires
            0 <= y < h,
            0 <= x < w,
    ;
    assert(0 <= y * w) by (nonlinear_arith)
        requires
            0 <= y,
            w > 0,
    ;
}

/// Row index `k` clamped into `0..height`.
fn clamp_row(k: i128, height: usize) -> (c: usize)
    requires
        height > 0,
    ensures
        c == clamp_index(k as int, height as int),
        c < height,
{
    if k < 0 {
        0
    } else if k > (height - 1) as i128 {
        height - 1
    } else {
        k as usize
    }
}

/// Whether every pixel of `s` is `c`.
pub open spec fn flat(s: Seq<u8>, c: u8) -> bool {
    forall|i: int| 0 <= i < s.len() ==> #[trigger] s[i] == c
}

proof fn lemma_row_window_flat(src: Seq<u8>, c: u8, w: int, y: int, lo: int, n: nat)
    requires
        flat(src, c),
        w > 0,
        0 <= y,
        (y + 1) * w <= src.len(),
    ensures
        row_window(src, w, y, lo, n) == n * c,
    decreases n,
{
    if n == 0 {
        assert(n * c == 0) by (nonlinear_arith)
            requires
                n == 0,
        ;
    }
    if n > 0 {
        lemma_row_window_flat(src, c, w, y, lo, (n - 1) as nat);
        let x = clamp_index(lo + n - 1, w);
        lemma_row_index(w, y, x, src.len() as int);
        assert(src[y * w + x] == c);
        assert(row_window(src, w, y, lo, n) == row_window(src, w, y, lo, (n - 1) as nat) + src[y
            * w + x]);
        assert(((n - 1) as nat) * c + c == n * c) by (nonlinear_arith)
            requires
                n > 0,
        ;
    }
}

proof fn lemma_col_window_flat(src: Seq<u8>, c: u8, w: int, h: int, x: int, lo: int, n: nat)
    requires
        flat(src, c),
        w > 0,
        h > 0,
        0 <= x < w,
        h * w <= src.len(),
    ensures
        col_window(src, w, h, x, lo, n) == n * c,
    decreases n,
{
    if n == 0 {
        assert(n * c == 0) by (nonlinear_arith)
            requires
                n == 0,
        ;
    }
    if n > 0 {
        lemma_col_window_flat(src, c, w, h, x, lo, (n - 1) as nat);
        let yy = clamp_index(lo + n - 1, h);
        assert((yy + 1) * w <= h * w) by (nonlinear_arith)
            requires
                yy + 1 <= h,
                w > 0,
        ;
        lemma_row_index(w, yy, x, src.len() as int);
        assert(src[yy * w + x] == c);
        assert(col_window(src, w, h, x, lo, n) == col_window(src, w, h, x, lo, (n - 1) as nat)
            + src[yy * w + x]);
        assert(((n - 1) as nat) * c + c == n * c) by (nonlinear_arith)
            requires
                n > 0,
        ;
    }
}

/// A flat image has nothing to sharpen: unsharp masking leaves it as it
/// was, whatever the strength and radius.
pub proof fn lemma_flat_image_unchanged(src: Seq<u8>, c: u8, w: int, amount_fp: int, r: int)
    requires
        flat(src, c),
        w > 0,
        r > 0,
        (src.len() as int) % w == 0,
    ensures
        sharpened(src, w, amount_fp, r) == src,
{
    let n = src.len() as int;
    let h = n / w;
    vstd::arithmetic::div_mod::lemma_fundamental_div_mod(n, w);
    assert(n == h * w) by (nonlinear_arith)
        requires
            n == w * h + n % w,
            n % w == 0,
    ;
    let k = (2 * r + 1) as nat;
    let hb = hblurred(src, w, r);
    assert forall|i: int| 0 <= i < n implies #[trigger] hb[i] == c by {
        let y = i / w;
        vstd::arithmetic::div_mod::lemma_fundamental_div_mod(i, w);
        assert(0 <= y < h) by (nonlinear_arith)
            requires
                0 <= i < h * w,
                w > 0,
                y == i / w,
        ;
        assert((y + 1) * w <= n) by (nonlinear_arith)
            requires
                y + 1 <= h,
                n == h * w,
                w > 0,
        ;
        lemma_row_window_flat(src, c, w, y, i % w - r, k);
        vstd::arithmetic::div_mod::lemma_div_multiples_vanish(c as int, k as int);
        assert((k * c) / (k as int) == c) by (nonlinear_arith)
            requires
                k > 0,
                ((k as int) * (c as int)) / (k as int) == c,
        ;
    }
    assert(flat(hb, c));
    let vb = vblurred(hb, w, h, r);
    if h > 0 {
        assert forall|i: int| 0 <= i < n implies #[trigger] vb[i] == c by {
            assert(hb.len() == n);
            assert(h * w <= hb.len());
            lemma_col_window_flat(hb, c, w, h, i % w, i / w - r, k);
            vstd::arithmetic::div_mod::lemma_div_multiples_vanish(c as int, k as int);
            assert((k * c) / (k as int) == c) by (nonlinear_arith)
                requires
                    k > 0,
                    ((k as int) * (c as int)) / (k as int) == c,
            ;
        }
    }
    assert(amount_fp * 0 == 0);
    assert forall|i: int| 0 <= i < n implies #[trigger] sharpened(src, w, amount_fp, r)[i] == src[i] by {
        assert(h > 0) by (nonlinear_arith)
            requires
                0 <= i < n,
                n == h * w,
                w > 0,
        ;
        assert(vb[i] == c);
        assert(src[i] == c);
        assert(amount_fp * ((c as int) - (c as int)) == 0);
    }
    assert(sharpened(src, w, amount_fp, r) =~= src);
}

/// Unsharp masking pushes a pixel away from its blurred surroundings: a
/// pixel brighter than its blur never gets darker, one darker never gets
/// brighter, one equal to its blur (or any pixel at zero strength) stays,
/// and the result stays a byte.
pub proof fn lemma_sharpen_direction(orig: int, blur: int, amount_fp: int)
    requires
        0 <= orig <= 255,
        0 <= blur <= 255,
        amount_fp >= 0,
    ensures
        orig >= blur ==> sharpen_pixel(orig, blur, amount_fp) >= orig,
        orig <= blur ==> sharpen_pixel(orig, blur, amount_fp) <= orig,
        orig == blur ==> sharpen_pixel(orig, blur, amount_fp) == orig,
        sharpen_pixel(orig, blur, 0) == orig,
{
    assert(orig >= blur ==> (amount_fp * (orig - blur)) / 256 >= 0) by (nonlinear_arith)
        requires
            amount_fp >= 0,
    ;
    assert(orig <= blur ==> (amount_fp * (orig - blur)) / 256 <= 0) by (nonlinear_arith)
        requires
            amount_fp >= 0,
    ;
    assert((0 * (orig - blur)) / 256 == 0);
}

} // verus!
