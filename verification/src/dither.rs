//! Quantization to N gray levels, with optional dithering.
//!
//! E-ink panels render a limited set of gray levels (16 on most EPDs), so we
//! quantize explicitly and use dithering to trade banding for high-frequency
//! noise the eye integrates away.

use vstd::prelude::*;

verus! {

#[derive(Debug, Clone, Copy, PartialEq, Eq, Structural)]
pub enum DitherMode {
    /// Plain quantization: cheapest, visible banding on gradients.
    Plain,
    /// Ordered/Bayer 8×8: deterministic per pixel position, stable
    /// across frames (no shimmer on video). The default.
    Bayer,
    /// Error diffusion: nicest stills, but serial and unstable across
    /// frames — small input changes ripple the whole dither pattern.
    FloydSteinberg,
}

impl DitherMode {
    /// The default mode, Bayer.
    pub fn default_mode() -> (m: Self)
        ensures
            m == DitherMode::Bayer,
    {
        DitherMode::Bayer
    }
}

// ---------------------------------------------------------------------------
// The level table
// ---------------------------------------------------------------------------

/// `n / d` rounded to nearest, halves up (`d > 0`, `n >= 0`).
pub open spec fn round_div(n: int, d: int) -> int {
    (2 * n + d) / (2 * d)
}

/// The level count a quantizer actually uses: clamped to `2..=255`.
pub open spec fn effective_levels(levels: int) -> int {
    if levels < 2 {
        2
    } else if levels > 255 {
        255
    } else {
        levels
    }
}

/// Index of the level nearest to `v` among `levels` evenly spaced levels.
pub open spec fn level_of(levels: int, v: int) -> int {
    round_div(v * (levels - 1), 255)
}

/// The gray value of level `k` among `levels` evenly spaced levels.
pub open spec fn level_value(levels: int, k: int) -> int {
    round_div(k * 255, levels - 1)
}

/// `v` snapped to its nearest level.
pub open spec fn quantized(levels: int, v: int) -> int {
    level_value(levels, level_of(levels, v))
}

/// `v` is the gray value of one of the levels.
pub open spec fn is_level(levels: int, v: int) -> bool {
    exists|k: int| 0 <= k < levels && v == #[trigger] level_value(levels, k)
}

/// Standard 8×8 Bayer threshold matrix, values 0..=63, row-major.
pub open spec fn bayer_table() -> Seq<u8> {
    seq![
        0u8, 32, 8, 40, 2, 34, 10, 42,
        48, 16, 56, 24, 50, 18, 58, 26,
        12, 44, 4, 36, 14, 46, 6, 38,
        60, 28, 52, 20, 62, 30, 54, 22,
        3, 35, 11, 43, 1, 33, 9, 41,
        51, 19, 59, 27, 49, 17, 57, 25,
        15, 47, 7, 39, 13, 45, 5, 37,
        63, 31, 55, 23, 61, 29, 53, 21,
    ]
}

/// Bayer threshold for absolute framebuffer position `(x, y)`.
pub open spec fn bayer_threshold(x: int, y: int) -> int {
    bayer_table()[(y % 8) * 8 + x % 8] as int
}

/// Table index for `v` biased by threshold `t`: `v + ((t + 0.5) / 64 - 0.5)`
/// steps, one step being `255 / (levels - 1)`, floored and clamped to
/// `0..=255`.
pub open spec fn bayer_index(levels: int, v: int, t: int) -> int {
    let d = 128 * (levels - 1);
    let n = v * d + (2 * t - 63) * 255;
    if n < 0 {
        0
    } else if n / d > 255 {
        255
    } else {
        n / d
    }
}

/// Bayer output for input `v` at absolute position `(x, y)`.
pub open spec fn bayer_pixel(lut: Seq<u8>, levels: int, v: int, x: int, y: int) -> u8 {
    lut[bayer_index(levels, v, bayer_threshold(x, y))]
}

// ---------------------------------------------------------------------------
// Error diffusion
// ---------------------------------------------------------------------------

/// Fixed-point scale of diffused error: one gray step is `FS_ONE` units.
pub open spec fn fs_one() -> int {
    65536
}

/// State of a Floyd–Steinberg sweep: pixels written so far, error carried to
/// the current row and to the next one.
pub struct FsState {
    pub out: Seq<u8>,
    pub cur: Seq<int>,
    pub next: Seq<int>,
}

/// Add `d` to cell `j` when it exists.
pub open spec fn bump(s: Seq<int>, j: int, d: int) -> Seq<int> {
    if 0 <= j < s.len() {
        s.update(j, s[j] + d)
    } else {
        s
    }
}

/// One Floyd–Steinberg step at pixel `i`: the pixel plus its carried error is
/// clamped and snapped to a level, and the residue is spread 7/16 right,
/// 3/16 down-left, 5/16 down and 1/16 down-right. At a row's end the next
/// row's error becomes current.
///
/// The error is carried in fixed point (units of 1/65536 of a gray step,
/// each share rounded down), not in `f32`; individual pixels can therefore
/// come out differently from an `f32` error-diffusion pass on the same
/// input, while the pattern and its average brightness stay those of
/// Floyd–Steinberg.
pub open spec fn fs_step(lut: Seq<u8>, input: Seq<u8>, width: int, s: FsState, i: int) -> FsState {
    let x = i % width;
    let raw = s.out[i] * fs_one() + s.cur[x];
    let v = if raw < 0 {
        0
    } else if raw > 255 * fs_one() {
        255 * fs_one()
    } else {
        raw
    };
    let q = lut[v / fs_one()];
    let e = v - q * fs_one();
    let cur = if x + 1 < width {
        bump(s.cur, x + 1, (e * 7) / 16)
    } else {
        s.cur
    };
    let next0 = if x + 1 < width {
        bump(s.next, x + 1, e / 16)
    } else {
        s.next
    };
    let next1 = if x > 0 {
        bump(next0, x - 1, (e * 3) / 16)
    } else {
        next0
    };
    let next = bump(next1, x, (e * 5) / 16);
    let out = s.out.update(i, q);
    if x + 1 == width {
        FsState { out, cur: next, next: Seq::new(width as nat, |j: int| 0) }
    } else {
        FsState { out, cur, next }
    }
}

/// The sweep after its first `k` pixels.
pub open spec fn fs_run(lut: Seq<u8>, input: Seq<u8>, width: int, k: nat) -> FsState
    decreases k,
{
    if k == 0 {
        FsState {
            out: input,
            cur: Seq::new(width as nat, |j: int| 0),
            next: Seq::new(width as nat, |j: int| 0),
        }
    } else {
        fs_step(lut, input, width, fs_run(lut, input, width, (k - 1) as nat), k - 1)
    }
}

/// Floyd–Steinberg over the whole rows of `input`; a trailing partial row
/// is left as it is.
pub open spec fn floyd_steinberg_spec(lut: Seq<u8>, input: Seq<u8>, width: int) -> Seq<u8> {
    fs_run(lut, input, width, ((input.len() as int / width) * width) as nat).out
}

// ---------------------------------------------------------------------------
// Executable
// ---------------------------------------------------------------------------

/// Precomputed value→quantized-value table for a given level count.
pub struct Quantizer {
    levels: u8,
    lut: Vec<u8>,
}

impl Quantizer {
    /// Level count in use.
    pub closed spec fn level_count(&self) -> int {
        self.levels as int
    }

    /// The value→level table.
    pub closed spec fn table(&self) -> Seq<u8> {
        self.lut@
    }

    pub closed spec fn wf(&self) -> bool {
        &&& 2 <= self.levels <= 255
        &&& self.lut@.len() == 256
        &&& forall|v: int|
            0 <= v < 256 ==> #[trigger] self.lut@[v] == quantized(self.levels as int, v)
    }

    pub fn new(levels: u8) -> (q: Self)
        ensures
            q.wf(),
            q.level_count() == effective_levels(levels as int),
            forall|v: int| 0 <= v < 256 ==> #[trigger] q.table()[v] == quantized(q.level_count(), v),
    {
        let levels: u8 = if levels < 2 {
            2
        } else if levels > 255 {
            255
        } else {
            levels
        };
        let max: u32 = (levels - 1) as u32;
        let mut lut: Vec<u8> = Vec::with_capacity(256);
        let mut v: u32 = 0;
        while v < 256
            invariant
                2 <= levels <= 255,
                max == levels - 1,
                v <= 256,
                lut@.len() == v,
                forall|u: int| 0 <= u < v ==> #[trigger] lut@[u] == quantized(levels as int, u),
            decreases 256 - v,
        {
            proof {
                lemma_level_bounds(levels as int, v as int);
            }
            let level: u32 = (2 * v * max + 255) / 510;
            let out: u32 = (2 * level * 255 + max) / (2 * max);
            lut.push(out as u8);
            v = v + 1;
        }
        Quantizer { levels, lut }
    }

    /// Quantize `buf` (a `width`-stride image region) in place.
    ///
    /// `origin` is the region's top-left in *final framebuffer* coordinates:
    /// the Bayer matrix is indexed by absolute position so that processing a
    /// sub-region (dirty tile) yields byte-identical results to processing
    /// the whole frame — otherwise tile seams crawl.
    pub fn quantize(&self, buf: &mut [u8], width: usize, origin: (u32, u32), mode: DitherMode)
        requires
            self.wf(),
            mode != DitherMode::Plain ==> width > 0,
        ensures
            final(buf)@.len() == old(buf)@.len(),
            mode == DitherMode::Plain ==> forall|i: int|
                0 <= i < old(buf)@.len() ==> #[trigger] final(buf)@[i] == self.table()[old(
                    buf,
                )@[i] as int],
            mode == DitherMode::Bayer ==> forall|i: int|
                0 <= i < old(buf)@.len() ==> #[trigger] final(buf)@[i] == bayer_pixel(
                    self.table(),
                    self.level_count(),
                    old(buf)@[i] as int,
                    origin.0 + i % (width as int),
                    origin.1 + i / (width as int),
                ),
            mode == DitherMode::FloydSteinberg ==> final(buf)@ == floyd_steinberg_spec(
                self.table(),
                old(buf)@,
                width as int,
            ),
    {
        match mode {
            DitherMode::Plain => {
                self.quantize_plain(buf);
            },
            DitherMode::Bayer => {
                self.quantize_bayer(buf, width, origin);
            },
            DitherMode::FloydSteinberg => {
                self.floyd_steinberg(buf, width);
            },
        }
    }

    fn quantize_plain(&self, buf: &mut [u8])
        requires
            self.wf(),
        ensures
            final(buf)@.len() == old(buf)@.len(),
            forall|i: int|
                0 <= i < old(buf)@.len() ==> #[trigger] final(buf)@[i] == self.table()[old(
                    buf,
                )@[i] as int],
    {
        let n = buf.len();
        let mut i: usize = 0;
        while i < n
            invariant
                n == buf@.len(),
                buf@.len() == old(buf)@.len(),
                i <= n,
                self.wf(),
                forall|j: int| i <= j < n ==> buf@[j] == old(buf)@[j],
                forall|j: int| 0 <= j < i ==> #[trigger] buf@[j] == self.lut@[old(buf)@[j] as int],
            decreases n - i,
        {
            let v = buf[i];
            buf[i] = self.lut[v as usize];
            i = i + 1;
        }
    }

    fn quantize_bayer(&self, buf: &mut [u8], width: usize, origin: (u32, u32))
        requires
            self.wf(),
            width > 0,
        ensures
            final(buf)@.len() == old(buf)@.len(),
            forall|i: int|
                0 <= i < old(buf)@.len() ==> #[trigger] final(buf)@[i] == bayer_pixel(
                    self.table(),
                    self.level_count(),
                    old(buf)@[i] as int,
                    origin.0 + i % (width as int),
                    origin.1 + i / (width as int),
                ),
    {
        let n = buf.len();
        let max: u64 = (self.levels - 1) as u64;
        let d: u64 = 128 * max;
        let mut i: usize = 0;
        while i < n
            invariant
                n == buf@.len(),
                buf@.len() == old(buf)@.len(),
                i <= n,
                width > 0,
                self.wf(),
                max == self.levels - 1,
                d == 128 * max,
                forall|j: int| i <= j < n ==> buf@[j] == old(buf)@[j],
                forall|j: int|
                    0 <= j < i ==> #[trigger] buf@[j] == bayer_pixel(
                        self.lut@,
                        self.levels as int,
                        old(buf)@[j] as int,
                        origin.0 + j % (width as int),
                        origin.1 + j / (width as int),
                    ),
            decreases n - i,
        {
            let cx: usize = ((origin.0 % 8) as usize + (i % width) % 8) % 8;
            let cy: usize = ((origin.1 % 8) as usize + (i / width) % 8) % 8;
            proof {
                vstd::arithmetic::div_mod::lemma_add_mod_noop(
                    origin.0 as int,
                    (i % width) as int,
                    8,
                );
                vstd::arithmetic::div_mod::lemma_add_mod_noop(
                    origin.1 as int,
                    (i / width) as int,
                    8,
                );
            }
            let t = bayer_at(cx, cy);
            let v = buf[i];
            proof {
                assert(v * d <= 255 * (128 * 254)) by (nonlinear_arith)
                    requires
                        v <= 255,
                        d == 128 * max,
                        max <= 254,
                ;
            }
            // v * d + (2t - 63) * 255, kept non-negative by splitting the sign.
            let pos: u64 = (v as u64) * d + (2 * t as u64) * 255;
            let idx: u64 = if pos < 63 * 255 {
                0
            } else if (pos - 63 * 255) / d > 255 {
                255
            } else {
                (pos - 63 * 255) / d
            };
            buf[i] = self.lut[idx as usize];
            i = i + 1;
        }
    }

    fn floyd_steinberg(&self, buf: &mut [u8], width: usize)
        requires
            self.wf(),
            width > 0,
        ensures
            final(buf)@.len() == old(buf)@.len(),
            final(buf)@ == floyd_steinberg_spec(self.table(), old(buf)@, width as int),
    {
        let n = buf.len();
        let height = n / width;
        proof {
            vstd::arithmetic::div_mod::lemma_fundamental_div_mod(n as int, width as int);
            assert(height * width <= n) by (nonlinear_arith)
                requires
                    n == width * height + n % width,
                    0 <= n % width,
            ;
        }
        let total = height * width;
        let ghost input = old(buf)@;
        // Error carried to the current and next row, per column.
        let mut err_cur: Vec<i64> = zeros(width);
        let mut err_next: Vec<i64> = zeros(width);
        proof {
            assert(ints(err_cur@) =~= Seq::new(width as nat, |j: int| 0int));
            assert(ints(err_next@) =~= Seq::new(width as nat, |j: int| 0int));
        }
        let mut i: usize = 0;
        while i < total
            invariant
                self.wf(),
                width > 0,
                n == buf@.len(),
                input == old(buf)@,
                input.len() == n,
                total == (n as int / width as int) * width,
                total <= n,
                i <= total,
                err_cur@.len() == width,
                err_next@.len() == width,
                fs_run(self.lut@, input, width as int, i as nat) == (FsState {
                    out: buf@,
                    cur: ints(err_cur@),
                    next: ints(err_next@),
                }),
                err_bounded(ints(err_cur@), ints(err_next@), (i % width) as int),
            decreases total - i,
        {
            self.fs_pixel(buf, &mut err_cur, &mut err_next, i, width);
            proof {
                vstd::arithmetic::div_mod::lemma_fundamental_div_mod(i as int, width as int);
                vstd::arithmetic::div_mod::lemma_fundamental_div_mod((i + 1) as int, width as int);
                lemma_mod_step(i as int, width as int);
            }
            i = i + 1;
        }
    }

    /// One error-diffusion step at pixel `i`, swapping rows at a row's end.
    fn fs_pixel(
        &self,
        buf: &mut [u8],
        cur: &mut Vec<i64>,
        next: &mut Vec<i64>,
        i: usize,
        width: usize,
    )
        requires
            self.wf(),
            width > 0,
            i < old(buf)@.len(),
            old(cur)@.len() == width,
            old(next)@.len() == width,
            err_bounded(ints(old(cur)@), ints(old(next)@), (i % width) as int),
        ensures
            final(buf)@.len() == old(buf)@.len(),
            final(cur)@.len() == width,
            final(next)@.len() == width,
            fs_step(
                self.lut@,
                old(buf)@,
                width as int,
                FsState { out: old(buf)@, cur: ints(old(cur)@), next: ints(old(next)@) },
                i as int,
            ) == (FsState { out: final(buf)@, cur: ints(final(cur)@), next: ints(final(next)@) }),
            (i % width) + 1 < width ==> err_bounded(
                ints(final(cur)@),
                ints(final(next)@),
                (i % width) as int + 1,
            ),
            (i % width) + 1 == width ==> err_bounded(ints(final(cur)@), ints(final(next)@), 0),
    {
        let ghost cur0 = ints(cur@);
        let ghost next0 = ints(next@);
        let x = i % width;
        assert(cur@[x as int] as int == cur0[x as int]);
        let raw: i64 = (buf[i] as i64) * 65536 + cur[x];
        let v: i64 = if raw < 0 {
            0
        } else if raw > 255 * 65536 {
            255 * 65536
        } else {
            raw
        };
        let q: u8 = self.lut[(v / 65536) as usize];
        let e: i64 = v - (q as i64) * 65536;
        buf[i] = q;
        if x + 1 < width {
            let c = cur[x + 1];
            assert(cur@[x + 1] as int == cur0[x + 1]);
            cur.set(x + 1, c + floor_div16(e * 7));
            let nx = next[x + 1];
            assert(next@[x + 1] as int == next0[x + 1]);
            next.set(x + 1, nx + floor_div16(e));
        }
        if x > 0 {
            let nl = next[x - 1];
            assert(next@[x - 1] as int == next0[x - 1]);
            next.set(x - 1, nl + floor_div16(e * 3));
        }
        let nc = next[x];
        assert(next@[x as int] as int == next0[x as int]);
        next.set(x, nc + floor_div16(e * 5));
        let ghost cur1 = ints(cur@);
        let ghost next1 = ints(next@);
        proof {
            assert(cur1 =~= (if x + 1 < width {
                bump(cur0, x + 1, (e * 7) / 16)
            } else {
                cur0
            }));
            let n0 = if x + 1 < width {
                bump(next0, x + 1, e / 16)
            } else {
                next0
            };
            let n1 = if x > 0 {
                bump(n0, x - 1, (e * 3) / 16)
            } else {
                n0
            };
            assert(next1 =~= bump(n1, x as int, (e * 5) / 16));
            lemma_fs_bounds_step(cur0, next0, cur1, next1, x as int, width as int, e as int);
        }
        if x + 1 == width {
            std::mem::swap(cur, next);
            *next = zeros(width);
            proof {
                assert(ints(next@) =~= Seq::new(width as nat, |j: int| 0int));
            }
        }
    }
}

/// Moving one pixel right advances the column, or wraps to column 0.
proof fn lemma_mod_step(i: int, w: int)
    requires
        0 <= i,
        w > 0,
    ensures
        i % w + 1 < w ==> (i + 1) % w == i % w + 1,
        i % w + 1 == w ==> (i + 1) % w == 0,
        i % w + 1 <= w,
{
    vstd::arithmetic::div_mod::lemma_fundamental_div_mod(i, w);
    vstd::arithmetic::div_mod::lemma_fundamental_div_mod(i + 1, w);
    if i % w + 1 < w {
        vstd::arithmetic::div_mod::lemma_mod_add_multiples_vanish(i % w + 1, w);
        assert(i + 1 == w * (i / w) + (i % w + 1));
        vstd::arithmetic::div_mod::lemma_mod_multiples_vanish(i / w, i % w + 1, w);
        vstd::arithmetic::div_mod::lemma_small_mod((i % w + 1) as nat, w as nat);
    } else {
        assert(i + 1 == w * (i / w + 1)) by (nonlinear_arith)
            requires
                i == w * (i / w) + i % w,
                i % w + 1 == w,
        ;
        vstd::arithmetic::div_mod::lemma_mod_multiples_basic(i / w + 1, w);
    }
}

/// The integers a row of carried error holds.
pub open spec fn ints(s: Seq<i64>) -> Seq<int> {
    s.map_values(|e: i64| e as int)
}

/// Cells of carried error stay small enough that every sum fits an `i64`.
/// At column `x` of a row: current-row cells not yet reached hold at most
/// 9/16 of a full step (plus rounding), reached ones at most a full step;
/// next-row cells hold 9/16 behind `x - 1`, 6/16 at `x - 1`, 1/16 at `x`,
/// and nothing beyond.
pub open spec fn err_bounded(cur: Seq<int>, next: Seq<int>, x: int) -> bool {
    &&& forall|j: int| 0 <= j < cur.len() ==> -16711684 <= #[trigger] cur[j] <= 16711684
    &&& forall|j: int| x < j < cur.len() ==> -9400323 <= #[trigger] cur[j] <= 9400323
    &&& forall|j: int| 0 <= j < x - 1 && j < next.len() ==> -9400323 <= #[trigger] next[j] <= 9400323
    &&& (0 <= x - 1 < next.len() ==> -6266882 <= next[x - 1] <= 6266882)
    &&& (0 <= x < next.len() ==> -1044481 <= next[x] <= 1044481)
    &&& forall|j: int| x < j < next.len() ==> #[trigger] next[j] == 0
}

proof fn lemma_fs_bounds_step(
    cur0: Seq<int>,
    next0: Seq<int>,
    cur1: Seq<int>,
    next1: Seq<int>,
    x: int,
    width: int,
    e: int,
)
    requires
        err_bounded(cur0, next0, x),
        0 <= x < width,
        cur0.len() == width,
        next0.len() == width,
        -16711680 <= e <= 16711680,
        cur1 == (if x + 1 < width {
            bump(cur0, x + 1, (e * 7) / 16)
        } else {
            cur0
        }),
        next1 == bump(
            if x > 0 {
                bump(
                    if x + 1 < width {
                        bump(next0, x + 1, e / 16)
                    } else {
                        next0
                    },
                    x - 1,
                    (e * 3) / 16,
                )
            } else {
                if x + 1 < width {
                    bump(next0, x + 1, e / 16)
                } else {
                    next0
                }
            },
            x,
            (e * 5) / 16,
        ),
    ensures
        x + 1 < width ==> err_bounded(cur1, next1, x + 1),
        x + 1 == width ==> err_bounded(next1, Seq::new(width as nat, |j: int| 0int), 0),
{
    assert(-7311610 <= (e * 7) / 16 <= 7311610);
    assert(-1044481 <= e / 16 <= 1044480);
    assert(-3133441 <= (e * 3) / 16 <= 3133440);
    assert(-5222401 <= (e * 5) / 16 <= 5222400);
    assert(cur1.len() == width && next1.len() == width);
    assert forall|j: int| 0 <= j < width implies -16711684 <= #[trigger] cur1[j] <= 16711684 by {
        if j == x + 1 && x + 1 < width {
            assert(cur0[j] <= 9400323 && cur0[j] >= -9400323);
        }
    }
    assert forall|j: int| 0 <= j < width implies {
        &&& (j < x ==> -9400323 <= #[trigger] next1[j] <= 9400323)
        &&& (j == x ==> -6266882 <= next1[j] <= 6266882)
        &&& (j == x + 1 ==> -1044481 <= next1[j] <= 1044481)
        &&& (j > x + 1 ==> next1[j] == 0)
    } by {
        if j < x - 1 {
            assert(next1[j] == next0[j]);
        } else if j == x - 1 {
            assert(next1[j] == next0[j] + (e * 3) / 16);
        } else if j == x {
            assert(next1[j] == next0[j] + (e * 5) / 16);
        } else if j == x + 1 {
            assert(next0[j] == 0);
            assert(next1[j] == e / 16);
        } else {
            assert(next0[j] == 0);
        }
    }
    if x + 1 == width {
        let z = Seq::new(width as nat, |j: int| 0int);
        assert forall|j: int| 0 <= j < width implies -9400323 <= #[trigger] next1[j] <= 9400323 by {
            if j < x {
            } else if j == x {
            }
        }
        assert forall|j: int| 0 < j < width implies #[trigger] z[j] == 0 by {}
    }
}

/// A row of `width` zeros.
fn zeros(width: usize) -> (v: Vec<i64>)
    ensures
        v@.len() == width,
        forall|j: int| 0 <= j < width ==> v@[j] == 0,
{
    let mut v: Vec<i64> = Vec::with_capacity(width);
    let mut j: usize = 0;
    while j < width
        invariant
            j <= width,
            v@.len() == j,
            forall|k: int| 0 <= k < j ==> v@[k] == 0,
        decreases width - j,
    {
        v.push(0);
        j = j + 1;
    }
    v
}

/// `n / 16` rounded toward negative infinity.
fn floor_div16(n: i64) -> (r: i64)
    requires
        -1099511627776 <= n <= 1099511627776,
    ensures
        r == n / 16,
{
    if n >= 0 {
        n / 16
    } else {
        -((-n + 15) / 16)
    }
}

/// Bayer threshold at matrix cell `(x, y)`.
fn bayer_at(x: usize, y: usize) -> (t: u8)
    requires
        x < 8,
        y < 8,
    ensures
        t == bayer_table()[y * 8 + x],
        t < 64,
{
    let table: [u8; 64] = [
        0, 32, 8, 40, 2, 34, 10, 42,
        48, 16, 56, 24, 50, 18, 58, 26,
        12, 44, 4, 36, 14, 46, 6, 38,
        60, 28, 52, 20, 62, 30, 54, 22,
        3, 35, 11, 43, 1, 33, 9, 41,
        51, 19, 59, 27, 49, 17, 57, 25,
        15, 47, 7, 39, 13, 45, 5, 37,
        63, 31, 55, 23, 61, 29, 53, 21,
    ];
    assert(table@ =~= bayer_table());
    table[y * 8 + x]
}

/// The level index and value stay in range.
proof fn lemma_level_bounds(levels: int, v: int)
    requires
        2 <= levels <= 255,
        0 <= v < 256,
    ensures
        level_of(levels, v) == (2 * v * (levels - 1) + 255) / 510,
        quantized(levels, v) == (2 * level_of(levels, v) * 255 + (levels - 1)) / (2 * (levels
            - 1)),
        0 <= level_of(levels, v) <= levels - 1,
        0 <= quantized(levels, v) <= 255,
        2 * v * (levels - 1) + 255 <= 0xffff_ffff,
        2 * level_of(levels, v) * 255 + (levels - 1) <= 0xffff_ffff,
{
    let m = levels - 1;
    assert(level_of(levels, v) == (2 * v * m + 255) / 510) by (nonlinear_arith)
        requires
            m == levels - 1,
    {
        assert(2 * (v * m) == 2 * v * m);
    }
    assert(0 <= 2 * v * m + 255 <= 510 * m + 255) by (nonlinear_arith)
        requires
            0 <= v <= 255,
            1 <= m <= 254,
    ;
    assert((2 * v * m + 255) / 510 <= m) by (nonlinear_arith)
        requires
            0 <= 2 * v * m + 255 <= 510 * m + 255,
            1 <= m,
    ;
    let k = level_of(levels, v);
    assert(quantized(levels, v) == (2 * k * 255 + m) / (2 * m)) by (nonlinear_arith)
        requires
            m == levels - 1,
            k == level_of(levels, v),
    {
        assert(2 * (k * 255) == 2 * k * 255);
    }
    assert(0 <= 2 * k * 255 + m <= 510 * m + m) by (nonlinear_arith)
        requires
            0 <= k <= m,
            1 <= m,
    ;
    assert((2 * k * 255 + m) / (2 * m) <= 255) by (nonlinear_arith)
        requires
            0 <= 2 * k * 255 + m <= 511 * m,
            1 <= m,
    ;
}

// ---------------------------------------------------------------------------
// Properties
// ---------------------------------------------------------------------------

/// Every entry of a level table is the gray value of one of the levels,
/// so every quantized pixel, dithered or not, is representable.
pub proof fn lemma_table_values_are_levels(levels: int, v: int)
    requires
        2 <= levels <= 255,
        0 <= v < 256,
    ensures
        is_level(levels, quantized(levels, v)),
{
    lemma_level_bounds(levels, v);
    assert(quantized(levels, v) == level_value(levels, level_of(levels, v)));
}

/// Ordered dithering is anchored to absolute coordinates. Pixel
/// `(c, r)` of a `w`-wide region whose top-left sits at `(ox, oy)` of a
/// `full_w`-wide frame gets the same output when the region is quantized on
/// its own (with origin `(ox, oy)`) as when the whole frame is (origin 0).
pub proof fn lemma_bayer_is_position_anchored(
    lut: Seq<u8>,
    levels: int,
    v: int,
    full_w: int,
    w: int,
    ox: int,
    oy: int,
    c: int,
    r: int,
)
    requires
        0 <= c < w,
        0 <= r,
        0 <= ox,
        0 <= oy,
        ox + w <= full_w,
    ensures
        ({
            let i_full = (oy + r) * full_w + (ox + c);
            let i_region = r * w + c;
            bayer_pixel(lut, levels, v, 0 + i_full % full_w, 0 + i_full / full_w)
                == bayer_pixel(lut, levels, v, ox + i_region % w, oy + i_region / w)
        }),
{
    let i_full = (oy + r) * full_w + (ox + c);
    let i_region = r * w + c;
    vstd::arithmetic::div_mod::lemma_fundamental_div_mod_converse(i_full, full_w, oy + r, ox + c);
    vstd::arithmetic::div_mod::lemma_fundamental_div_mod_converse(i_region, w, r, c);
}

/// Quantizing keeps black and white, never reverses the order of two
/// values, and with two levels thresholds at the midpoint (128 and up is
/// white).
pub proof fn lemma_quantize_shape(levels: int, v: int, w: int)
    requires
        2 <= levels <= 255,
        0 <= v <= w <= 255,
    ensures
        quantized(levels, 0) == 0,
        quantized(levels, 255) == 255,
        quantized(levels, v) <= quantized(levels, w),
        quantized(2, v) == if v >= 128 {
            255int
        } else {
            0
        },
{
    let d = levels - 1;
    assert(level_of(levels, 0) == 0);
    assert(level_value(levels, 0) == 0) by (nonlinear_arith)
        requires
            d >= 1,
            level_value(levels, 0) == (2 * (0 * 255) + d) / (2 * d),
    ;
    assert(level_of(2, v) == if v >= 128 {
        1int
    } else {
        0
    });
    assert(round_div(255int, 1int) == 255) by (nonlinear_arith);
    assert(round_div(0int, 1int) == 0) by (nonlinear_arith);
    assert(level_value(2, 1) == round_div(255int, 1int));
    assert(level_value(2, 0) == round_div(0int, 1int));
    assert(level_of(levels, 255) == d) by (nonlinear_arith)
        requires
            d >= 1,
            level_of(levels, 255) == (2 * (255 * d) + 255) / 510int,
    ;
    assert(level_value(levels, d) == 255) by (nonlinear_arith)
        requires
            d >= 1,
            level_value(levels, d) == (2 * (d * 255) + d) / (2 * d),
    ;
    assert(level_of(levels, v) <= level_of(levels, w)) by (nonlinear_arith)
        requires
            d >= 1,
            v <= w,
            level_of(levels, v) == (2 * (v * d) + 255) / 510int,
            level_of(levels, w) == (2 * (w * d) + 255) / 510int,
    ;
    let a = level_of(levels, v);
    let b = level_of(levels, w);
    assert(level_value(levels, a) <= level_value(levels, b)) by (nonlinear_arith)
        requires
            d >= 1,
            a <= b,
            level_value(levels, a) == (2 * (a * 255) + d) / (2 * d),
            level_value(levels, b) == (2 * (b * 255) + d) / (2 * d),
    ;
}

/// The ordered-dither thresholds are the standard recursive 8×8 Bayer
/// matrix: with `m2` = [[0, 2], [3, 1]], the threshold at `(x, y)` is
/// `16·m2(bit 0) + 4·m2(bit 1) + m2(bit 2)` of the coordinates, which uses
/// each of 0..=63 once.
pub proof fn lemma_bayer_matrix(x: int, y: int)
    requires
        0 <= x < 8,
        0 <= y < 8,
    ensures
        bayer_threshold(x, y) == 16 * bayer2(x % 2, y % 2) + 4 * bayer2((x / 2) % 2, (y / 2) % 2)
            + bayer2(x / 4, y / 4),
{
    assert(bayer_table().len() == 64);
    if y == 0 {
        if x == 0 {} else if x == 1 {} else if x == 2 {} else if x == 3 {} else if x == 4 {} else if x == 5 {} else if x == 6 {} else {}
    } else if y == 1 {
        if x == 0 {} else if x == 1 {} else if x == 2 {} else if x == 3 {} else if x == 4 {} else if x == 5 {} else if x == 6 {} else {}
    } else if y == 2 {
        if x == 0 {} else if x == 1 {} else if x == 2 {} else if x == 3 {} else if x == 4 {} else if x == 5 {} else if x == 6 {} else {}
    } else if y == 3 {
        if x == 0 {} else if x == 1 {} else if x == 2 {} else if x == 3 {} else if x == 4 {} else if x == 5 {} else if x == 6 {} else {}
    } else if y == 4 {
        if x == 0 {} else if x == 1 {} else if x == 2 {} else if x == 3 {} else if x == 4 {} else if x == 5 {} else if x == 6 {} else {}
    } else if y == 5 {
        if x == 0 {} else if x == 1 {} else if x == 2 {} else if x == 3 {} else if x == 4 {} else if x == 5 {} else if x == 6 {} else {}
    } else if y == 6 {
        if x == 0 {} else if x == 1 {} else if x == 2 {} else if x == 3 {} else if x == 4 {} else if x == 5 {} else if x == 6 {} else {}
    } else {
        if x == 0 {} else if x == 1 {} else if x == 2 {} else if x == 3 {} else if x == 4 {} else if x == 5 {} else if x == 6 {} else {}
    }
}

/// The 2×2 Bayer matrix [[0, 2], [3, 1]], indexed `(x, y)`.
pub open spec fn bayer2(x: int, y: int) -> int {
    if y == 0 {
        if x == 0 {
            0
        } else {
            2
        }
    } else {
        if x == 0 {
            3
        } else {
            1
        }
    }
}

} // verus!
