//! The e-ink processing pipeline: everything between a captured RGB frame
//! and the grayscale image a tablet should display.
//!
//! Per frame: RGB → luminance → scale to target (fit mode) → contrast/gamma
//! LUT → unsharp sharpen → quantize/dither to N gray levels.
//!
//! The real-valued knobs (contrast, gamma, sharpen strength) are carried as
//! the IEEE-754 bit patterns of their `f32` values: this library never does
//! floating-point arithmetic itself. The tone curve and the fixed-point
//! sharpen strength derived from them are handed in by the caller.

use vstd::prelude::*;

use crate::dither::{bayer_pixel, effective_levels, floyd_steinberg_spec, DitherMode, Quantizer};
use crate::frame::{Frame, PixelFormat};
use crate::scale::{crop_accepted, scaled_spec, FitMode, ScaleError, Scaler};
use crate::sharpen::{sharpened, unsharp, unsharp_active, MAX_AMOUNT_FP, MAX_RADIUS};

verus! {

/// Bit pattern of `1.0f32`.
pub const F32_ONE_BITS: u32 = 0x3f80_0000;

/// Bit pattern of `1.2f32`, the default contrast.
pub const F32_DEFAULT_CONTRAST_BITS: u32 = 0x3f99_999a;

#[derive(Debug, Clone, Copy, PartialEq)]
pub struct EinkConfig {
    /// Contrast multiplier around mid-gray (`f32` bits). 1.0 = unchanged;
    /// e-ink likes punchier than LCD, so the default leans in.
    pub contrast_bits: u32,
    /// Gamma exponent applied to normalized luminance (`f32` bits). <1
    /// brightens mids.
    pub gamma_bits: u32,
    /// Input level mapped to pure black (crushes dark noise to ink).
    pub black_point: u8,
    /// Input level mapped to pure white (lets near-white become paper).
    pub white_point: u8,
    /// Invert luminance. Dark desktop themes are e-ink poison (a mostly
    /// black panel ghosts badly and reads poorly); inverting turns them
    /// into black-on-paper.
    pub invert: bool,
    /// Unsharp mask strength (`f32` bits); 0 disables. Critical for small
    /// text.
    pub sharpen_bits: u32,
    /// Unsharp blur radius in pixels.
    pub sharpen_radius: u32,
    /// Dithering algorithm.
    pub dither: DitherMode,
    /// Gray levels to quantize to (EPD hardware renders 16).
    pub levels: u8,
    /// How to fit the source aspect ratio into the target.
    pub fit: FitMode,
    /// Output size; `None` = keep source size.
    pub target_size: Option<(u32, u32)>,
}

/// The default configuration.
pub open spec fn default_eink() -> EinkConfig {
    EinkConfig {
        contrast_bits: F32_DEFAULT_CONTRAST_BITS,
        gamma_bits: F32_ONE_BITS,
        black_point: 8,
        white_point: 248,
        invert: false,
        sharpen_bits: F32_ONE_BITS,
        sharpen_radius: 1,
        dither: DitherMode::Bayer,
        levels: 16,
        fit: FitMode::Letterbox,
        target_size: None,
    }
}

impl Default for EinkConfig {
    fn default() -> (c: Self)
        ensures
            c == default_eink(),
    {
        EinkConfig {
            contrast_bits: F32_DEFAULT_CONTRAST_BITS,
            gamma_bits: F32_ONE_BITS,
            black_point: 8,
            white_point: 248,
            invert: false,
            sharpen_bits: F32_ONE_BITS,
            sharpen_radius: 1,
            dither: DitherMode::Bayer,
            levels: 16,
            fit: FitMode::Letterbox,
            target_size: None,
        }
    }
}

// ---------------------------------------------------------------------------
// Luminance
// ---------------------------------------------------------------------------

/// BT.709 luminance with integer weights (sum = 256), rounded.
pub open spec fn luma(r: u8, g: u8, b: u8) -> u8 {
    ((54 * r + 183 * g + 19 * b + 128) / 256) as u8
}

/// The grayscale image of a frame: `width * height` pixels; a 4-byte pixel
/// missing from the buffer reads as black.
pub open spec fn gray_spec(format: PixelFormat, data: Seq<u8>, n: int) -> Seq<u8> {
    match format {
        PixelFormat::Gray8 => data,
        PixelFormat::Bgrx8888 => Seq::new(
            n as nat,
            |i: int|
                if 4 * i + 4 <= data.len() {
                    luma(data[4 * i + 2], data[4 * i + 1], data[4 * i])
                } else {
                    0u8
                },
        ),
        PixelFormat::Rgbx8888 => Seq::new(
            n as nat,
            |i: int|
                if 4 * i + 4 <= data.len() {
                    luma(data[4 * i], data[4 * i + 1], data[4 * i + 2])
                } else {
                    0u8
                },
        ),
    }
}

fn luma_exec(r: u8, g: u8, b: u8) -> (y: u8)
    ensures
        y == luma(r, g, b),
{
    let v: u32 = 54 * r as u32 + 183 * g as u32 + 19 * b as u32 + 128;
    assert(v >> 8 == v / 256) by (bit_vector);
    (v >> 8) as u8
}

/// RGB(-ish) → luminance, BT.709 integer weights (sum = 256).
pub fn to_gray(frame: &Frame, out: &mut Vec<u8>)
    requires
        frame.width * frame.height <= usize::MAX,
        frame.format == PixelFormat::Gray8 ==> frame.data@.len() == frame.width * frame.height,
    ensures
        final(out)@ == gray_spec(frame.format, frame.data@, frame.width * frame.height),
        final(out)@.len() == frame.width * frame.height,
{
    let n = frame.width as usize * frame.height as usize;
    out.clear();
    let len = frame.data.len();
    match frame.format {
        PixelFormat::Gray8 => {
            let mut i: usize = 0;
            while i < n
                invariant
                    n == frame.data@.len(),
                    i <= n,
                    out@ == frame.data@.subrange(0, i as int),
                decreases n - i,
            {
                out.push(frame.data[i]);
                proof {
                    assert(frame.data@.subrange(0, i + 1) =~= frame.data@.subrange(0, i as int).push(
                        frame.data@[i as int],
                    ));
                }
                i = i + 1;
            }
            proof {
                assert(out@ =~= frame.data@);
            }
        },
        PixelFormat::Bgrx8888 | PixelFormat::Rgbx8888 => {
            let bgr = frame.format == PixelFormat::Bgrx8888;
            let ghost target = gray_spec(frame.format, frame.data@, n as int);
            let mut i: usize = 0;
            while i < n
                invariant
                    n == frame.width * frame.height,
                    len == frame.data@.len(),
                    bgr == (frame.format == PixelFormat::Bgrx8888),
                    frame.format != PixelFormat::Gray8,
                    target == gray_spec(frame.format, frame.data@, n as int),
                    i <= n,
                    out@ == target.subrange(0, i as int),
                decreases n - i,
            {
                let v = if i <= len / 4 && len - 4 * i >= 4 {
                    let k = 4 * i;
                    if bgr {
                        luma_exec(frame.data[k + 2], frame.data[k + 1], frame.data[k])
                    } else {
                        luma_exec(frame.data[k], frame.data[k + 1], frame.data[k + 2])
                    }
                } else {
                    0
                };
                out.push(v);
                proof {
                    assert(target.subrange(0, i + 1) =~= target.subrange(0, i as int).push(
                        target[i as int],
                    ));
                }
                i = i + 1;
            }
        },
    }
}

// ---------------------------------------------------------------------------
// The pipeline
// ---------------------------------------------------------------------------

/// `s` through the tone table.
pub open spec fn toned(lut: Seq<u8>, s: Seq<u8>) -> Seq<u8> {
    Seq::new(s.len(), |i: int| lut[s[i] as int])
}

/// `s` (a `w`-wide image) quantized with `table` (`levels` levels) by
/// `mode`, anchored at the framebuffer origin.
pub open spec fn dithered(table: Seq<u8>, levels: int, s: Seq<u8>, w: int, mode: DitherMode) -> Seq<
    u8,
> {
    match mode {
        DitherMode::Plain => Seq::new(s.len(), |i: int| table[s[i] as int]),
        DitherMode::Bayer => Seq::new(
            s.len(),
            |i: int| bayer_pixel(table, levels, s[i] as int, i % w, i / w),
        ),
        DitherMode::FloydSteinberg => floyd_steinberg_spec(table, s, w),
    }
}

/// Everything after scaling: tone curve, unsharp mask (fixed-point strength
/// `amount_fp`), quantization.
pub open spec fn finish_spec(
    lut: Seq<u8>,
    amount_fp: int,
    radius: int,
    table: Seq<u8>,
    levels: int,
    mode: DitherMode,
    s: Seq<u8>,
    w: int,
) -> Seq<u8> {
    let t = toned(lut, s);
    let sh = if unsharp_active(t.len() as int, amount_fp, radius) {
        sharpened(t, w, amount_fp, radius)
    } else {
        t
    };
    if w == 0 {
        sh
    } else {
        dithered(table, levels, sh, w, mode)
    }
}

/// Output dimensions for a given source size.
pub open spec fn output_size_spec(cfg: EinkConfig, source: (u32, u32)) -> (u32, u32) {
    match cfg.target_size {
        Some(t) => t,
        None => source,
    }
}

pub struct Pipeline {
    config: EinkConfig,
    tone_lut: Vec<u8>,
    sharpen_fp: i32,
    quantizer: Quantizer,
    scaler: Scaler,
    // Reused across frames to avoid per-frame allocation.
    gray: Vec<u8>,
    scaled: Vec<u8>,
    scratch_a: Vec<u8>,
    scratch_b: Vec<u8>,
}

impl Pipeline {
    pub closed spec fn spec_config(&self) -> EinkConfig {
        self.config
    }

    /// The 256-entry tone curve in use.
    pub closed spec fn spec_tone(&self) -> Seq<u8> {
        self.tone_lut@
    }

    /// The sharpen strength in use, times 256.
    pub closed spec fn spec_sharpen_fp(&self) -> int {
        self.sharpen_fp as int
    }

    /// The quantization table in use.
    pub closed spec fn spec_table(&self) -> Seq<u8> {
        self.quantizer.table()
    }

    pub closed spec fn wf(&self) -> bool {
        &&& self.tone_lut@.len() == 256
        &&& self.sharpen_fp <= MAX_AMOUNT_FP
        &&& self.config.sharpen_radius <= MAX_RADIUS
        &&& self.quantizer.wf()
        &&& self.quantizer.level_count() == effective_levels(self.config.levels as int)
    }

    /// Build a pipeline for `config`. `tone_lut` is its 256-entry tone curve
    /// (black/white point, gamma, contrast, invert) and `sharpen_fp` its
    /// sharpen strength times 256, both derived from the real-valued knobs by
    /// the caller.
    pub fn new(config: EinkConfig, tone_lut: Vec<u8>, sharpen_fp: i32) -> (p: Self)
        requires
            tone_lut@.len() == 256,
            sharpen_fp <= MAX_AMOUNT_FP,
            config.sharpen_radius <= MAX_RADIUS,
        ensures
            p.wf(),
            p.spec_config() == config,
            p.spec_tone() == tone_lut@,
            p.spec_sharpen_fp() == sharpen_fp,
    {
        Pipeline {
            quantizer: Quantizer::new(config.levels),
            config,
            tone_lut,
            sharpen_fp,
            scaler: Scaler::new(),
            gray: Vec::new(),
            scaled: Vec::new(),
            scratch_a: Vec::new(),
            scratch_b: Vec::new(),
        }
    }

    pub fn config(&self) -> (c: &EinkConfig)
        ensures
            *c == self.spec_config(),
    {
        &self.config
    }

    /// Swap in a new config (hot-reload path) with its derived tables.
    pub fn set_config(&mut self, config: EinkConfig, tone_lut: Vec<u8>, sharpen_fp: i32)
        requires
            tone_lut@.len() == 256,
            sharpen_fp <= MAX_AMOUNT_FP,
            config.sharpen_radius <= MAX_RADIUS,
        ensures
            final(self).wf(),
            final(self).spec_config() == config,
            final(self).spec_tone() == tone_lut@,
            final(self).spec_sharpen_fp() == sharpen_fp,
    {
        self.tone_lut = tone_lut;
        self.quantizer = Quantizer::new(config.levels);
        self.sharpen_fp = sharpen_fp;
        self.config = config;
    }

    /// Output dimensions for a given source size.
    pub fn output_size(&self, source: (u32, u32)) -> (r: (u32, u32))
        ensures
            r == output_size_spec(self.spec_config(), source),
    {
        match self.config.target_size {
            Some(t) => t,
            None => source,
        }
    }

    /// Run the full pipeline; returns a Gray8 frame at `output_size`. Without
    /// a size change the result is exact; with one, it is the finishing
    /// stages applied to whatever the resampler produced (for letterboxing:
    /// the resampled image centered on white).
    pub fn process(&mut self, frame: &Frame) -> (r: Result<Frame, ScaleError>)
        requires
            old(self).wf(),
            frame.width * frame.height <= usize::MAX,
            frame.format == PixelFormat::Gray8 ==> frame.data@.len() == frame.width * frame.height,
            ({
                let (ow, oh) = output_size_spec(old(self).spec_config(), (frame.width, frame.height));
                &&& ow * oh <= usize::MAX
                &&& old(self).spec_config().fit == FitMode::Letterbox ==> ow >= 1 && oh >= 1
            }),
        ensures
            final(self).wf(),
            final(self).spec_config() == old(self).spec_config(),
            final(self).spec_tone() == old(self).spec_tone(),
            final(self).spec_sharpen_fp() == old(self).spec_sharpen_fp(),
            final(self).spec_table() == old(self).spec_table(),
            ({
                let cfg = old(self).spec_config();
                let (ow, oh) = output_size_spec(cfg, (frame.width, frame.height));
                let finish = |s: Seq<u8>|
                    finish_spec(
                        old(self).spec_tone(),
                        old(self).spec_sharpen_fp(),
                        cfg.sharpen_radius as int,
                        old(self).spec_table(),
                        effective_levels(cfg.levels as int),
                        cfg.dither,
                        s,
                        ow as int,
                    );
                let gray = gray_spec(frame.format, frame.data@, frame.width * frame.height);
                &&& r matches Ok(f) ==> {
                    &&& f.width == ow
                    &&& f.height == oh
                    &&& f.format == PixelFormat::Gray8
                    &&& f.data@.len() == ow * oh
                    &&& (ow, oh) == (frame.width, frame.height) ==> f.data@ == finish(gray)
                    &&& (ow, oh) != (frame.width, frame.height) ==> f.data@ == finish(
                        scaled_spec(gray, frame.width, frame.height, ow, oh, cfg.fit),
                    )
                }
                &&& (ow, oh) == (frame.width, frame.height) ==> r is Ok
                &&& cfg.fit != FitMode::Crop ==> r is Ok
                &&& cfg.fit == FitMode::Crop ==> (r is Ok <==> ((ow, oh) == (frame.width, frame.height)
                    || crop_accepted((frame.width, frame.height), (ow, oh))))
            }),
    {
        to_gray(frame, &mut self.gray);
        let src_size = (frame.width, frame.height);
        let (out_w, out_h) = self.output_size(src_size);
        let needs_scale = out_w != frame.width || out_h != frame.height;
        let ghost gray = self.gray@;
        if needs_scale {
            let res = self.scaler.scale_gray(
                self.gray.as_mut_slice(),
                src_size,
                &mut self.scaled,
                (out_w, out_h),
                self.config.fit,
            );
            match res {
                Ok(()) => {},
                Err(e) => {
                    return Err(e);
                },
            }
        } else {
            std::mem::swap(&mut self.gray, &mut self.scaled);
        }
        let ghost scaled = self.scaled@;
        assert(scaled.len() == out_w * out_h);
        // Tone curve.
        let n = self.scaled.len();
        let mut i: usize = 0;
        while i < n
            invariant
                n == self.scaled@.len(),
                n == scaled.len(),
                self.tone_lut@.len() == 256,
                self.wf(),
                self.config == old(self).config,
                self.sharpen_fp == old(self).sharpen_fp,
                self.tone_lut@ == old(self).tone_lut@,
                self.quantizer.table() == old(self).quantizer.table(),
                self.quantizer.level_count() == old(self).quantizer.level_count(),
                out_w == output_size_spec(old(self).config, (frame.width, frame.height)).0,
                i <= n,
                forall|k: int| 0 <= k < i ==> #[trigger] self.scaled@[k] == self.tone_lut@[scaled[k] as int],
                forall|k: int| i <= k < n ==> #[trigger] self.scaled@[k] == scaled[k],
            decreases n - i,
        {
            let v = self.scaled[i];
            let t = self.tone_lut[v as usize];
            self.scaled.set(i, t);
            i = i + 1;
        }
        proof {
            assert(self.scaled@ =~= toned(self.tone_lut@, scaled));
        }
        let ghost t = self.scaled@;
        proof {
            assert(t.len() == out_w * out_h);
            if out_w > 0 {
                vstd::arithmetic::div_mod::lemma_mod_multiples_basic(out_h as int, out_w as int);
                assert(out_w * out_h == out_h * out_w) by (nonlinear_arith);
            } else {
                assert(out_w * out_h == 0);
            }
        }
        unsharp(
            self.scaled.as_mut_slice(),
            out_w as usize,
            self.sharpen_fp,
            self.config.sharpen_radius as usize,
            &mut self.scratch_a,
            &mut self.scratch_b,
        );
        if out_w > 0 {
            self.quantizer.quantize(self.scaled.as_mut_slice(), out_w as usize, (0, 0), self.config.dither);
            proof {
                let q = self.scaled@;
                let cfg = self.config;
                let sh = if unsharp_active(t.len() as int, self.sharpen_fp as int, cfg.sharpen_radius as int) {
                    sharpened(t, out_w as int, self.sharpen_fp as int, cfg.sharpen_radius as int)
                } else {
                    t
                };
                assert(q =~= dithered(
                    self.quantizer.table(),
                    self.quantizer.level_count(),
                    sh,
                    out_w as int,
                    cfg.dither,
                ));
            }
        }
        let data = self.scaled.clone();
        Ok(Frame { width: out_w, height: out_h, format: PixelFormat::Gray8, data })
    }
}

/// Whether the `f32` with bit pattern `b` is a NaN.
pub open spec fn f32_is_nan(b: u32) -> bool {
    (b & 0x7f80_0000u32) == 0x7f80_0000u32 && (b & 0x007f_ffffu32) != 0u32
}

/// `f32` equality on bit patterns: a NaN equals nothing, and the two zeros
/// are equal; otherwise equal values have equal bits.
pub open spec fn f32_eq(a: u32, b: u32) -> bool {
    &&& !f32_is_nan(a)
    &&& !f32_is_nan(b)
    &&& (a == b || ((a & 0x7fff_ffffu32) == 0u32 && (b & 0x7fff_ffffu32) == 0u32))
}

fn f32_bits_eq(a: u32, b: u32) -> (r: bool)
    ensures
        r == f32_eq(a, b),
{
    let a_nan = (a & 0x7f80_0000u32) == 0x7f80_0000u32 && (a & 0x007f_ffffu32) != 0u32;
    let b_nan = (b & 0x7f80_0000u32) == 0x7f80_0000u32 && (b & 0x007f_ffffu32) != 0u32;
    !a_nan && !b_nan && (a == b || ((a & 0x7fff_ffffu32) == 0u32 && (b & 0x7fff_ffffu32)
        == 0u32))
}

/// Whether two configs are equal field by field, the real-valued knobs
/// compared as `f32`s.
pub open spec fn config_eq(a: EinkConfig, b: EinkConfig) -> bool {
    &&& f32_eq(a.contrast_bits, b.contrast_bits)
    &&& f32_eq(a.gamma_bits, b.gamma_bits)
    &&& f32_eq(a.sharpen_bits, b.sharpen_bits)
    &&& a.black_point == b.black_point
    &&& a.white_point == b.white_point
    &&& a.invert == b.invert
    &&& a.sharpen_radius == b.sharpen_radius
    &&& a.dither == b.dither
    &&& a.levels == b.levels
    &&& a.fit == b.fit
    &&& a.target_size == b.target_size
}

/// Whether two configs are equal, the real-valued knobs compared as `f32`s.
pub fn same_config(a: &EinkConfig, b: &EinkConfig) -> (r: bool)
    ensures
        r == config_eq(*a, *b),
        r ==> a.dither == b.dither && a.levels == b.levels && a.fit == b.fit && a.invert
            == b.invert && a.black_point == b.black_point && a.white_point == b.white_point
            && a.sharpen_radius == b.sharpen_radius && a.target_size == b.target_size,
{
    let same_target = match (a.target_size, b.target_size) {
        (Some((aw, ah)), Some((bw, bh))) => aw == bw && ah == bh,
        (None, None) => true,
        _ => false,
    };
    same_target && f32_bits_eq(a.contrast_bits, b.contrast_bits) && f32_bits_eq(
        a.gamma_bits,
        b.gamma_bits,
    ) && a.black_point == b.black_point && a.white_point == b.white_point && a.invert
        == b.invert && f32_bits_eq(a.sharpen_bits, b.sharpen_bits) && a.sharpen_radius
        == b.sharpen_radius && a.dither == b.dither && a.levels == b.levels && a.fit == b.fit
}

/// How the pipeline follows new effective settings: the output size is
/// fixed for the run (the transports were sized from it), so an incoming
/// size is replaced by the current one and reported as refused; the
/// pipeline is rebuilt only when the resulting config actually differs.
/// Returns (config to use, size refused, rebuild needed).
pub fn reload_plan(current: &EinkConfig, incoming: EinkConfig) -> (r: (EinkConfig, bool, bool))
    ensures
        r.0 == (EinkConfig { target_size: current.target_size, ..incoming }),
        r.1 == (incoming.target_size != current.target_size),
        r.2 == !config_eq(r.0, *current),
{
    let mut cfg = incoming;
    let refused = match (cfg.target_size, current.target_size) {
        (Some((aw, ah)), Some((bw, bh))) => !(aw == bw && ah == bh),
        (None, None) => false,
        _ => true,
    };
    cfg.target_size = current.target_size;
    let changed = !same_config(&cfg, current);
    (cfg, refused, changed)
}

/// What reaches the pipeline stage between a source and a transport.
#[derive(Debug, Clone, Copy, PartialEq, Eq, Structural)]
pub enum StageEvent {
    /// A new raw frame (it becomes the cached one).
    Frame,
    /// New effective settings.
    SettingsChanged,
    /// The source or the settings channel is gone.
    Closed,
}

/// What the pipeline stage does with an event.
#[derive(Debug, Clone, Copy, PartialEq, Eq, Structural)]
pub enum StageAction {
    /// Run the pipeline on the cached raw frame and pass the result on.
    Process,
    /// Nothing to redraw yet.
    Skip,
    /// Shut the stage down.
    Stop,
}

/// A new frame is processed; new settings re-render the cached raw frame
/// (so a mode switch on an idle screen still shows), or do nothing before
/// the first frame; a closed input stops the stage.
pub fn stage_step(event: StageEvent, has_cached: bool) -> (a: StageAction)
    ensures
        a == match event {
            StageEvent::Frame => StageAction::Process,
            StageEvent::SettingsChanged => if has_cached {
                StageAction::Process
            } else {
                StageAction::Skip
            },
            StageEvent::Closed => StageAction::Stop,
        },
{
    match event {
        StageEvent::Frame => StageAction::Process,
        StageEvent::SettingsChanged => if has_cached {
            StageAction::Process
        } else {
            StageAction::Skip
        },
        StageEvent::Closed => StageAction::Stop,
    }
}

/// Two configs compare equal only when every discrete field is equal and
/// each real-valued knob is equal as an `f32` (equal bits, or both zeros,
/// and neither a NaN); a config whose knobs are no NaN equals itself and
/// any config with the same fields.
pub proof fn lemma_config_equality(a: EinkConfig, b: EinkConfig)
    ensures
        config_eq(a, b) ==> {
            &&& a.dither == b.dither
            &&& a.levels == b.levels
            &&& a.fit == b.fit
            &&& a.invert == b.invert
            &&& a.black_point == b.black_point
            &&& a.white_point == b.white_point
            &&& a.sharpen_radius == b.sharpen_radius
            &&& a.target_size == b.target_size
            &&& f32_eq(a.contrast_bits, b.contrast_bits)
            &&& f32_eq(a.gamma_bits, b.gamma_bits)
            &&& f32_eq(a.sharpen_bits, b.sharpen_bits)
        },
        a == b && !f32_is_nan(a.contrast_bits) && !f32_is_nan(a.gamma_bits) && !f32_is_nan(
            a.sharpen_bits,
        ) ==> config_eq(a, b),
        a.dither != b.dither || a.levels != b.levels || a.fit != b.fit || a.invert != b.invert
            || a.target_size != b.target_size ==> !config_eq(a, b),
{
}

/// `f32` equality on bit patterns: equal non-NaN bits are equal, the two
/// zeros are equal, a NaN equals nothing, and different non-zero bits are
/// different numbers.
pub proof fn lemma_f32_equality(x: u32, y: u32)
    ensures
        x == y && !f32_is_nan(x) ==> f32_eq(x, y),
        f32_eq(0u32, 0x8000_0000u32),
        f32_is_nan(x) ==> !f32_eq(x, y) && !f32_eq(y, x),
        f32_eq(x, y) && x != y ==> (x & 0x7fff_ffffu32) == 0u32 && (y & 0x7fff_ffffu32) == 0u32,
{
    assert((0u32 & 0x7f80_0000u32) == 0u32) by (bit_vector);
    assert((0x8000_0000u32 & 0x7f80_0000u32) == 0u32) by (bit_vector);
    assert((0u32 & 0x7fff_ffffu32) == 0u32) by (bit_vector);
    assert((0x8000_0000u32 & 0x7fff_ffffu32) == 0u32) by (bit_vector);
}

/// The documented defaults: contrast 1.2, gamma 1.0, black and white
/// points 8 and 248, no inversion, sharpen 1.0 at radius 1, Bayer
/// dithering to 16 levels, letterboxing, and no output scaling.
pub proof fn lemma_default_settings()
    ensures
        default_eink() == (EinkConfig {
            contrast_bits: 0x3f99_999au32,
            gamma_bits: 0x3f80_0000u32,
            black_point: 8u8,
            white_point: 248u8,
            invert: false,
            sharpen_bits: 0x3f80_0000u32,
            sharpen_radius: 1u32,
            dither: DitherMode::Bayer,
            levels: 16u8,
            fit: FitMode::Letterbox,
            target_size: None,
        }),
{
}

/// Luminance keeps a gray pixel's value, maps black and white to black and
/// white, weighs green above red above blue, and never decreases when a
/// channel brightens.
pub proof fn lemma_luma(r: u8, g: u8, b: u8, d: u8)
    ensures
        luma(r, r, r) == r,
        luma(0, 0, 0) == 0,
        luma(255, 255, 255) == 255,
        luma(0, 255, 0) > luma(255, 0, 0) > luma(0, 0, 255),
        r <= d ==> luma(r, g, b) <= luma(d, g, b),
        g <= d ==> luma(r, g, b) <= luma(r, d, b),
        b <= d ==> luma(r, g, b) <= luma(r, g, d),
{
}

/// A captured pixel's gray value is the luminance of its red, green and
/// blue read from their memory positions: bytes 2, 1, 0 for B,G,R,X and
/// bytes 0, 1, 2 for R,G,B,X; gray frames pass through.
pub proof fn lemma_gray_channels(data: Seq<u8>, n: int, p: int)
    requires
        0 <= p < n,
        4 * p + 4 <= data.len(),
    ensures
        gray_spec(PixelFormat::Bgrx8888, data, n)[p] == luma(data[4 * p + 2], data[4 * p + 1], data[4 * p]),
        gray_spec(PixelFormat::Rgbx8888, data, n)[p] == luma(data[4 * p], data[4 * p + 1], data[4 * p + 2]),
        gray_spec(PixelFormat::Gray8, data, n) == data,
{
}

} // verus!
