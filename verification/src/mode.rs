//! Task-based e-ink display modes (Reading / Browsing / Writing / Video).
//!
//! A **mode** is a named bundle of pipeline + refresh settings that trades
//! update speed against image quality and stability. Modes are **overlays on
//! the user's base config**: only the fields a mode names are changed, so
//! per-user settings (e.g. `invert`) survive every switch.
//!
//! [`ModeState`] is the single source of truth: base settings + active mode
//! name + custom mode definitions → *effective* settings. Config hot-reload
//! updates the base; `ctl mode` changes the active name; both read back the
//! same effective settings, so neither clobbers the other.

use vstd::prelude::*;
use vstd::string::StringExecFns;
use vstd::string::StringSliceAdditionalSpecFns;
use vstd::utf8::encode_utf8;

use crate::dither::DitherMode;
use crate::eink::EinkConfig;
use crate::scale::FitMode;

verus! {

// ---------------------------------------------------------------------------
// Names and their order
// ---------------------------------------------------------------------------

/// Lexicographic order on byte strings (a proper prefix sorts first).
pub open spec fn bytes_lt(a: Seq<u8>, b: Seq<u8>) -> bool
    decreases a.len(),
{
    if b.len() == 0 {
        false
    } else if a.len() == 0 {
        true
    } else if a[0] != b[0] {
        a[0] < b[0]
    } else {
        bytes_lt(a.skip(1), b.skip(1))
    }
}

/// The order of `String`s: lexicographic on their UTF-8 bytes.
pub open spec fn name_lt(a: Seq<char>, b: Seq<char>) -> bool {
    bytes_lt(encode_utf8(a), encode_utf8(b))
}

/// Every element strictly before every later one.
pub open spec fn strictly_sorted(s: Seq<Seq<char>>) -> bool {
    forall|i: int, j: int| 0 <= i < j < s.len() ==> name_lt(#[trigger] s[i], #[trigger] s[j])
}

/// The character views of a list of strings.
pub open spec fn views(v: Seq<String>) -> Seq<Seq<char>> {
    v.map_values(|s: String| s@)
}

proof fn lemma_bytes_lt_irreflexive(a: Seq<u8>)
    ensures
        !bytes_lt(a, a),
    decreases a.len(),
{
    if a.len() > 0 {
        lemma_bytes_lt_irreflexive(a.skip(1));
    }
}

proof fn lemma_bytes_lt_transitive(a: Seq<u8>, b: Seq<u8>, c: Seq<u8>)
    requires
        bytes_lt(a, b),
        bytes_lt(b, c),
    ensures
        bytes_lt(a, c),
    decreases a.len(),
{
    if a.len() > 0 && b.len() > 0 && c.len() > 0 && a[0] == b[0] && b[0] == c[0] {
        lemma_bytes_lt_transitive(a.skip(1), b.skip(1), c.skip(1));
    }
}

proof fn lemma_bytes_lt_total(a: Seq<u8>, b: Seq<u8>)
    requires
        a != b,
    ensures
        bytes_lt(a, b) || bytes_lt(b, a),
    decreases a.len(),
{
    if a.len() > 0 && b.len() > 0 && a[0] == b[0] {
        if a.skip(1) == b.skip(1) {
            assert(a =~= seq![a[0]] + a.skip(1));
            assert(b =~= seq![b[0]] + b.skip(1));
        }
        lemma_bytes_lt_total(a.skip(1), b.skip(1));
    } else if a.len() == 0 && b.len() == 0 {
        assert(a =~= b);
    }
}

proof fn lemma_bytes_lt_asymmetric(a: Seq<u8>, b: Seq<u8>)
    requires
        bytes_lt(a, b),
    ensures
        !bytes_lt(b, a),
{
    if bytes_lt(b, a) {
        lemma_bytes_lt_transitive(a, b, a);
        lemma_bytes_lt_irreflexive(a);
    }
}

/// `name_lt` is a strict total order on names.
proof fn lemma_name_order(a: Seq<char>, b: Seq<char>, c: Seq<char>)
    ensures
        !name_lt(a, a),
        name_lt(a, b) && name_lt(b, c) ==> name_lt(a, c),
        name_lt(a, b) ==> !name_lt(b, a),
        a != b ==> name_lt(a, b) || name_lt(b, a),
{
    lemma_bytes_lt_irreflexive(encode_utf8(a));
    if name_lt(a, b) && name_lt(b, c) {
        lemma_bytes_lt_transitive(encode_utf8(a), encode_utf8(b), encode_utf8(c));
    }
    if name_lt(a, b) {
        lemma_bytes_lt_asymmetric(encode_utf8(a), encode_utf8(b));
    }
    if a != b {
        vstd::utf8::encode_utf8_decode_utf8(a);
        vstd::utf8::encode_utf8_decode_utf8(b);
        lemma_bytes_lt_total(encode_utf8(a), encode_utf8(b));
    }
}

/// `name_lt` is a strict total order on names.
pub proof fn lemma_name_order_pub(a: Seq<char>, b: Seq<char>, c: Seq<char>)
    ensures
        !name_lt(a, a),
        name_lt(a, b) && name_lt(b, c) ==> name_lt(a, c),
        name_lt(a, b) ==> !name_lt(b, a),
        a != b ==> name_lt(a, b) || name_lt(b, a),
{
    lemma_name_order(a, b, c);
}

/// Whether two strings hold the same characters.
pub fn same_name(a: &str, b: &str) -> (r: bool)
    ensures
        r == (a@ == b@),
{
    let x: String = a.to_owned();
    let y: String = b.to_owned();
    x == y
}

/// Whether `a` sorts strictly before `b` (byte-wise, as `String` orders).
pub fn name_before(a: &str, b: &str) -> (r: bool)
    ensures
        r == name_lt(a@, b@),
{
    let x = a.as_bytes();
    let y = b.as_bytes();
    let ghost xa = x@;
    let ghost yb = y@;
    let mut i: usize = 0;
    assert(xa.skip(0) =~= xa);
    assert(yb.skip(0) =~= yb);
    while i < x.len() && i < y.len() && x[i] == y[i]
        invariant
            x@ == xa,
            y@ == yb,
            xa == encode_utf8(a@),
            yb == encode_utf8(b@),
            i <= x.len(),
            i <= y.len(),
            bytes_lt(xa, yb) == bytes_lt(xa.skip(i as int), yb.skip(i as int)),
        decreases x.len() - i,
    {
        proof {
            let s = xa.skip(i as int);
            let t = yb.skip(i as int);
            assert(s.skip(1) =~= xa.skip(i + 1));
            assert(t.skip(1) =~= yb.skip(i + 1));
        }
        i = i + 1;
    }
    if i == y.len() {
        false
    } else if i == x.len() {
        true
    } else {
        x[i] < y[i]
    }
}

/// Insert `s` into the strictly sorted `v`, unless it is already there.
pub fn insert_sorted(v: &mut Vec<String>, s: String)
    requires
        strictly_sorted(views(old(v)@)),
    ensures
        strictly_sorted(views(final(v)@)),
        forall|n: Seq<char>|
            views(final(v)@).contains(n) <==> (views(old(v)@).contains(n) || n == s@),
{
    let ghost old_v = views(v@);
    let mut p: usize = 0;
    while p < v.len() && name_before(v[p].as_str(), s.as_str())
        invariant
            old_v == views(v@),
            strictly_sorted(old_v),
            p <= v.len(),
            forall|k: int| 0 <= k < p ==> name_lt(#[trigger] old_v[k], s@),
        decreases v.len() - p,
    {
        p = p + 1;
    }
    if p < v.len() && same_name(v[p].as_str(), s.as_str()) {
        assert forall|n: Seq<char>| old_v.contains(n) || n == s@ implies old_v.contains(n) by {
            if n == s@ {
                assert(old_v[p as int] == n);
            }
        }
        return;
    }
    proof {
        if p < v.len() {
            lemma_name_order(old_v[p as int], s@, s@);
            assert(!name_lt(old_v[p as int], s@));
            assert(old_v[p as int] != s@);
            assert(name_lt(s@, old_v[p as int]));
        }
        assert forall|k: int| p <= k < old_v.len() implies name_lt(s@, #[trigger] old_v[k]) by {
            if k > p {
                lemma_name_order(s@, old_v[p as int], old_v[k]);
            }
        }
    }
    let ghost sv = s@;
    v.insert(p, s);
    proof {
        let nv = views(v@);
        assert(nv =~= old_v.insert(p as int, sv));
        assert forall|i: int, j: int| 0 <= i < j < nv.len() implies name_lt(
            #[trigger] nv[i],
            #[trigger] nv[j],
        ) by {
            if j < p {
            } else if i < p && j == p {
            } else if i < p {
                assert(nv[j] == old_v[j - 1]);
            } else if i == p {
                assert(nv[j] == old_v[j - 1]);
            } else {
                assert(nv[i] == old_v[i - 1]);
                assert(nv[j] == old_v[j - 1]);
            }
        }
        assert forall|n: Seq<char>| nv.contains(n) <==> (old_v.contains(n) || n == sv) by {
            if nv.contains(n) {
                let k = choose|k: int| 0 <= k < nv.len() && nv[k] == n;
                if k < p {
                    assert(old_v[k] == n);
                } else if k > p {
                    assert(old_v[k - 1] == n);
                }
            }
            if old_v.contains(n) {
                let k = choose|k: int| 0 <= k < old_v.len() && old_v[k] == n;
                if k < p {
                    assert(nv[k] == n);
                } else {
                    assert(nv[k + 1] == n);
                }
            }
            if n == sv {
                assert(nv[p as int] == n);
            }
        }
    }
}

// ---------------------------------------------------------------------------
// Settings and overlays
// ---------------------------------------------------------------------------

/// The effective runtime settings the serve loop and pipeline consume.
/// `eink` drives the pipeline thread; the rest drive the serve loop.
#[derive(Debug, Clone, Copy, PartialEq)]
pub struct ModeSettings {
    pub eink: EinkConfig,
    pub fps: u32,
    pub tile_size: u32,
    pub full_refresh_secs: u64,
    pub full_refresh_updates: u64,
}

/// Per-field overrides a mode lays over the base config. Every field is
/// optional so we can tell "the mode sets this" from "inherit the base".
/// Same keys as the eink settings (minus the output size, which is fixed at
/// startup), plus the mirror-side keys. Real-valued fields are `f32` bits.
#[derive(Debug, Clone, Copy, PartialEq)]
pub struct ModeOverlay {
    // Pipeline (eink) overrides.
    pub contrast_bits: Option<u32>,
    pub gamma_bits: Option<u32>,
    pub black_point: Option<u8>,
    pub white_point: Option<u8>,
    pub invert: Option<bool>,
    pub sharpen_bits: Option<u32>,
    pub sharpen_radius: Option<u32>,
    pub dither: Option<DitherMode>,
    pub levels: Option<u8>,
    pub fit: Option<FitMode>,
    // Mirror-side overrides.
    pub fps: Option<u32>,
    pub tile_size: Option<u32>,
    pub full_refresh_secs: Option<u64>,
    pub full_refresh_updates: Option<u64>,
}

/// The overlay that sets nothing.
pub open spec fn empty_overlay() -> ModeOverlay {
    ModeOverlay {
        contrast_bits: None,
        gamma_bits: None,
        black_point: None,
        white_point: None,
        invert: None,
        sharpen_bits: None,
        sharpen_radius: None,
        dither: None,
        levels: None,
        fit: None,
        fps: None,
        tile_size: None,
        full_refresh_secs: None,
        full_refresh_updates: None,
    }
}

impl Default for ModeOverlay {
    fn default() -> (o: Self)
        ensures
            o == empty_overlay(),
    {
        ModeOverlay {
            contrast_bits: None,
            gamma_bits: None,
            black_point: None,
            white_point: None,
            invert: None,
            sharpen_bits: None,
            sharpen_radius: None,
            dither: None,
            levels: None,
            fit: None,
            fps: None,
            tile_size: None,
            full_refresh_secs: None,
            full_refresh_updates: None,
        }
    }
}

/// The overridden value if there is one, else the inherited one.
pub open spec fn pick<T>(o: Option<T>, inherited: T) -> T {
    match o {
        Some(v) => v,
        None => inherited,
    }
}

/// `first` if it is set, else `second` (`Option::or`).
pub open spec fn either<T>(first: Option<T>, second: Option<T>) -> Option<T> {
    match first {
        Some(v) => Some(v),
        None => second,
    }
}

/// `base` with every field that `o` sets replaced.
pub open spec fn apply_spec(o: ModeOverlay, base: ModeSettings) -> ModeSettings {
    ModeSettings {
        eink: EinkConfig {
            contrast_bits: pick(o.contrast_bits, base.eink.contrast_bits),
            gamma_bits: pick(o.gamma_bits, base.eink.gamma_bits),
            black_point: pick(o.black_point, base.eink.black_point),
            white_point: pick(o.white_point, base.eink.white_point),
            invert: pick(o.invert, base.eink.invert),
            sharpen_bits: pick(o.sharpen_bits, base.eink.sharpen_bits),
            sharpen_radius: pick(o.sharpen_radius, base.eink.sharpen_radius),
            dither: pick(o.dither, base.eink.dither),
            levels: pick(o.levels, base.eink.levels),
            fit: pick(o.fit, base.eink.fit),
            target_size: base.eink.target_size,
        },
        fps: pick(o.fps, base.fps),
        tile_size: pick(o.tile_size, base.tile_size),
        full_refresh_secs: pick(o.full_refresh_secs, base.full_refresh_secs),
        full_refresh_updates: pick(o.full_refresh_updates, base.full_refresh_updates),
    }
}

/// `over` laid on top of `under`: `over`'s set fields win.
pub open spec fn merged_spec(under: ModeOverlay, over: ModeOverlay) -> ModeOverlay {
    ModeOverlay {
        contrast_bits: either(over.contrast_bits, under.contrast_bits),
        gamma_bits: either(over.gamma_bits, under.gamma_bits),
        black_point: either(over.black_point, under.black_point),
        white_point: either(over.white_point, under.white_point),
        invert: either(over.invert, under.invert),
        sharpen_bits: either(over.sharpen_bits, under.sharpen_bits),
        sharpen_radius: either(over.sharpen_radius, under.sharpen_radius),
        dither: either(over.dither, under.dither),
        levels: either(over.levels, under.levels),
        fit: either(over.fit, under.fit),
        fps: either(over.fps, under.fps),
        tile_size: either(over.tile_size, under.tile_size),
        full_refresh_secs: either(over.full_refresh_secs, under.full_refresh_secs),
        full_refresh_updates: either(over.full_refresh_updates, under.full_refresh_updates),
    }
}

fn pick_exec<T: Copy>(o: Option<T>, inherited: T) -> (r: T)
    ensures
        r == pick(o, inherited),
{
    match o {
        Some(v) => v,
        None => inherited,
    }
}

fn either_exec<T: Copy>(first: Option<T>, second: Option<T>) -> (r: Option<T>)
    ensures
        r == either(first, second),
{
    match first {
        Some(v) => Some(v),
        None => second,
    }
}

impl ModeOverlay {
    /// Apply this overlay onto `base`, producing effective settings. Only the
    /// `Some` fields override; everything else is inherited (notably
    /// `target_size`, which modes never touch).
    pub fn apply(&self, base: &ModeSettings) -> (r: ModeSettings)
        ensures
            r == apply_spec(*self, *base),
    {
        ModeSettings {
            eink: EinkConfig {
                contrast_bits: pick_exec(self.contrast_bits, base.eink.contrast_bits),
                gamma_bits: pick_exec(self.gamma_bits, base.eink.gamma_bits),
                black_point: pick_exec(self.black_point, base.eink.black_point),
                white_point: pick_exec(self.white_point, base.eink.white_point),
                invert: pick_exec(self.invert, base.eink.invert),
                sharpen_bits: pick_exec(self.sharpen_bits, base.eink.sharpen_bits),
                sharpen_radius: pick_exec(self.sharpen_radius, base.eink.sharpen_radius),
                dither: pick_exec(self.dither, base.eink.dither),
                levels: pick_exec(self.levels, base.eink.levels),
                fit: pick_exec(self.fit, base.eink.fit),
                target_size: base.eink.target_size,
            },
            fps: pick_exec(self.fps, base.fps),
            tile_size: pick_exec(self.tile_size, base.tile_size),
            full_refresh_secs: pick_exec(self.full_refresh_secs, base.full_refresh_secs),
            full_refresh_updates: pick_exec(self.full_refresh_updates, base.full_refresh_updates),
        }
    }

    /// Merge `other` on top of `self` (other's `Some` fields win). Used to let
    /// a configured mode override a built-in of the same name.
    pub fn merged_with(&self, other: &ModeOverlay) -> (r: ModeOverlay)
        ensures
            r == merged_spec(*self, *other),
    {
        ModeOverlay {
            contrast_bits: either_exec(other.contrast_bits, self.contrast_bits),
            gamma_bits: either_exec(other.gamma_bits, self.gamma_bits),
            black_point: either_exec(other.black_point, self.black_point),
            white_point: either_exec(other.white_point, self.white_point),
            invert: either_exec(other.invert, self.invert),
            sharpen_bits: either_exec(other.sharpen_bits, self.sharpen_bits),
            sharpen_radius: either_exec(other.sharpen_radius, self.sharpen_radius),
            dither: either_exec(other.dither, self.dither),
            levels: either_exec(other.levels, self.levels),
            fit: either_exec(other.fit, self.fit),
            fps: either_exec(other.fps, self.fps),
            tile_size: either_exec(other.tile_size, self.tile_size),
            full_refresh_secs: either_exec(other.full_refresh_secs, self.full_refresh_secs),
            full_refresh_updates: either_exec(
                other.full_refresh_updates,
                self.full_refresh_updates,
            ),
        }
    }
}

/// Applying a merged overlay is applying the lower one, then the upper one.
pub proof fn lemma_merge_then_apply(under: ModeOverlay, over: ModeOverlay, base: ModeSettings)
    ensures
        apply_spec(merged_spec(under, over), base) == apply_spec(over, apply_spec(under, base)),
{
}

/// Applying an overlay twice is applying it once.
pub proof fn lemma_apply_idempotent(o: ModeOverlay, base: ModeSettings)
    ensures
        apply_spec(o, apply_spec(o, base)) == apply_spec(o, base),
{
}

/// The overlay that sets nothing leaves every setting as it was.
pub proof fn lemma_empty_overlay_is_identity(base: ModeSettings)
    ensures
        apply_spec(empty_overlay(), base) == base,
{
}

/// An overlay keeps every base field it does not name, and never touches
/// the output size.
pub proof fn lemma_overlay_keeps_unnamed_fields(o: ModeOverlay, base: ModeSettings)
    ensures
        apply_spec(o, base).eink.target_size == base.eink.target_size,
        o.contrast_bits is None ==> apply_spec(o, base).eink.contrast_bits
            == base.eink.contrast_bits,
        o.gamma_bits is None ==> apply_spec(o, base).eink.gamma_bits == base.eink.gamma_bits,
        o.black_point is None ==> apply_spec(o, base).eink.black_point == base.eink.black_point,
        o.white_point is None ==> apply_spec(o, base).eink.white_point == base.eink.white_point,
        o.invert is None ==> apply_spec(o, base).eink.invert == base.eink.invert,
        o.sharpen_bits is None ==> apply_spec(o, base).eink.sharpen_bits
            == base.eink.sharpen_bits,
        o.sharpen_radius is None ==> apply_spec(o, base).eink.sharpen_radius
            == base.eink.sharpen_radius,
        o.dither is None ==> apply_spec(o, base).eink.dither == base.eink.dither,
        o.levels is None ==> apply_spec(o, base).eink.levels == base.eink.levels,
        o.fit is None ==> apply_spec(o, base).eink.fit == base.eink.fit,
        o.fps is None ==> apply_spec(o, base).fps == base.fps,
        o.tile_size is None ==> apply_spec(o, base).tile_size == base.tile_size,
        o.full_refresh_secs is None ==> apply_spec(o, base).full_refresh_secs
            == base.full_refresh_secs,
        o.full_refresh_updates is None ==> apply_spec(o, base).full_refresh_updates
            == base.full_refresh_updates,
{
}

// ---------------------------------------------------------------------------
// Built-in modes
// ---------------------------------------------------------------------------

/// Bit pattern of `1.5f32`.
pub const F32_ONE_AND_HALF_BITS: u32 = 0x3fc0_0000;

/// Names of the built-in modes.
pub const BUILTIN_NAMES: [&'static str; 4] = ["reading", "browsing", "writing", "video"];

/// A built-in overlay: Bayer dithering plus the given pipeline and refresh
/// settings.
pub open spec fn preset(
    fps: u32,
    levels: u8,
    sharpen_bits: u32,
    tile_size: u32,
    full_refresh_secs: u64,
    full_refresh_updates: u64,
) -> ModeOverlay {
    ModeOverlay {
        contrast_bits: None,
        gamma_bits: None,
        black_point: None,
        white_point: None,
        invert: None,
        sharpen_bits: Some(sharpen_bits),
        sharpen_radius: None,
        dither: Some(DitherMode::Bayer),
        levels: Some(levels),
        fit: None,
        fps: Some(fps),
        tile_size: Some(tile_size),
        full_refresh_secs: Some(full_refresh_secs),
        full_refresh_updates: Some(full_refresh_updates),
    }
}

/// Whether `name` is one of the built-in modes.
pub open spec fn is_builtin_name(name: Seq<char>) -> bool {
    name == "reading"@ || name == "browsing"@ || name == "writing"@ || name == "video"@
}

/// The built-in overlay for `name`:
/// - `reading`: max quality; every change (page turn) earns a clean full redraw.
/// - `browsing`: balanced default.
/// - `writing`: min latency; few levels = crisp text and cheap updates.
/// - `video`: motion; no sharpen halos, never interrupt with a full redraw.
pub open spec fn builtin_overlay(name: Seq<char>) -> Option<ModeOverlay> {
    if name == "reading"@ {
        Some(preset(5, 16, crate::eink::F32_ONE_BITS, 64, 0, 1))
    } else if name == "browsing"@ {
        Some(preset(15, 16, crate::eink::F32_ONE_BITS, 64, 60, 0))
    } else if name == "writing"@ {
        Some(preset(30, 4, F32_ONE_AND_HALF_BITS, 32, 300, 0))
    } else if name == "video"@ {
        Some(preset(30, 16, 0, 64, 0, 0))
    } else {
        None
    }
}

fn preset_exec(
    fps: u32,
    levels: u8,
    sharpen_bits: u32,
    tile_size: u32,
    full_refresh_secs: u64,
    full_refresh_updates: u64,
) -> (o: ModeOverlay)
    ensures
        o == preset(fps, levels, sharpen_bits, tile_size, full_refresh_secs, full_refresh_updates),
{
    ModeOverlay {
        contrast_bits: None,
        gamma_bits: None,
        black_point: None,
        white_point: None,
        invert: None,
        sharpen_bits: Some(sharpen_bits),
        sharpen_radius: None,
        dither: Some(DitherMode::Bayer),
        levels: Some(levels),
        fit: None,
        fps: Some(fps),
        tile_size: Some(tile_size),
        full_refresh_secs: Some(full_refresh_secs),
        full_refresh_updates: Some(full_refresh_updates),
    }
}

/// The built-in overlay for `name`, or `None` if `name` isn't a built-in.
pub fn builtin(name: &str) -> (r: Option<ModeOverlay>)
    ensures
        r == builtin_overlay(name@),
        r is Some <==> is_builtin_name(name@),
        name@ == "reading"@ ==> (r matches Some(o) && o.fps == Some(5u32) && o.levels == Some(
            16u8,
        ) && o.full_refresh_updates == Some(1u64) && o.full_refresh_secs == Some(0u64)),
        name@ == "browsing"@ ==> (r matches Some(o) && o.fps == Some(15u32) && o.full_refresh_secs
            == Some(60u64) && o.full_refresh_updates == Some(0u64)),
        name@ == "writing"@ ==> (r matches Some(o) && o.fps == Some(30u32) && o.levels == Some(
            4u8,
        ) && o.tile_size == Some(32u32) && o.full_refresh_secs == Some(300u64)),
        name@ == "video"@ ==> (r matches Some(o) && o.fps == Some(30u32) && o.sharpen_bits == Some(
            0u32,
        ) && o.full_refresh_secs == Some(0u64) && o.full_refresh_updates == Some(0u64)),
{
    proof {
        lemma_builtin_table(name@);
    }
    if same_name(name, "reading") {
        Some(preset_exec(5, 16, crate::eink::F32_ONE_BITS, 64, 0, 1))
    } else if same_name(name, "browsing") {
        Some(preset_exec(15, 16, crate::eink::F32_ONE_BITS, 64, 60, 0))
    } else if same_name(name, "writing") {
        Some(preset_exec(30, 4, F32_ONE_AND_HALF_BITS, 32, 300, 0))
    } else if same_name(name, "video") {
        Some(preset_exec(30, 16, 0, 64, 0, 0))
    } else {
        None
    }
}

/// No built-in mode touches the user's tone settings (contrast, gamma,
/// black/white points, invert) or the fit, so every built-in keeps them.
pub proof fn lemma_builtins_keep_user_tone(name: Seq<char>)
    requires
        builtin_overlay(name) is Some,
    ensures
        builtin_overlay(name).unwrap().contrast_bits is None,
        builtin_overlay(name).unwrap().gamma_bits is None,
        builtin_overlay(name).unwrap().black_point is None,
        builtin_overlay(name).unwrap().white_point is None,
        builtin_overlay(name).unwrap().invert is None,
        builtin_overlay(name).unwrap().fit is None,
        builtin_overlay(name).unwrap().sharpen_radius is None,
{
}

// ---------------------------------------------------------------------------
// Mode state
// ---------------------------------------------------------------------------

/// Error selecting or resolving a mode: the requested name and every valid
/// name, sorted.
#[derive(Debug, Clone)]
pub struct UnknownMode {
    pub name: String,
    pub valid: Vec<String>,
}

/// How `str`'s `Debug` formatting writes `s`: quoted, with escapes.
pub uninterp spec fn debug_quoted(s: Seq<char>) -> Seq<char>;

/// `format!("{:?}", s)` for a `str`: named, not described.
#[verifier::external_body]
fn debug_quote(s: &str) -> (r: String)
    ensures
        r@ == debug_quoted(s@),
{
    format!("{s:?}")
}

/// `names` joined with `", "`.
pub open spec fn joined(names: Seq<Seq<char>>) -> Seq<char>
    decreases names.len(),
{
    if names.len() == 0 {
        Seq::empty()
    } else if names.len() == 1 {
        names[0]
    } else {
        joined(names.drop_last()) + ", "@ + names.last()
    }
}

impl UnknownMode {
    /// The message shown to the user: the requested name (quoted) and the
    /// valid names.
    pub fn message(&self) -> (m: String)
        ensures
            m@ == "unknown mode "@ + debug_quoted(self.name@) + "; valid modes: "@ + joined(
                views(self.valid@),
            ),
    {
        let mut m = String::from_str("unknown mode ");
        let q = debug_quote(self.name.as_str());
        m.append(q.as_str());
        m.append("; valid modes: ");
        let ghost prefix = m@;
        let mut i: usize = 0;
        while i < self.valid.len()
            invariant
                i <= self.valid@.len(),
                m@ == prefix + joined(views(self.valid@).take(i as int)),
            decreases self.valid@.len() - i,
        {
            let ghost before = m@;
            if i > 0 {
                m.append(", ");
            }
            m.append(self.valid[i].as_str());
            proof {
                let vs = views(self.valid@);
                assert(vs.take(i + 1).drop_last() =~= vs.take(i as int));
                assert(vs.take(i + 1).last() == self.valid@[i as int]@);
                if i == 0 {
                    assert(vs.take(0) =~= Seq::<Seq<char>>::empty());
                    assert(m@ =~= prefix + joined(vs.take(i + 1)));
                } else {
                    assert(m@ =~= prefix + joined(vs.take(i + 1)));
                }
            }
            i = i + 1;
        }
        proof {
            assert(views(self.valid@).take(i as int) =~= views(self.valid@));
        }
        m
    }
}

/// No two configured modes share a name.
pub open spec fn distinct_names(c: Seq<(Seq<char>, ModeOverlay)>) -> bool {
    forall|i: int, j: int| 0 <= i < j < c.len() ==> (#[trigger] c[i]).0 != (#[trigger] c[j]).0
}

/// Whether some configured mode is named `name`.
pub open spec fn names_in(c: Seq<(Seq<char>, ModeOverlay)>, name: Seq<char>) -> bool {
    exists|i: int| 0 <= i < c.len() && (#[trigger] c[i]).0 == name
}

proof fn lemma_names_in_extend(c: Seq<(Seq<char>, ModeOverlay)>, i: int, name: Seq<char>)
    requires
        0 <= i < c.len(),
    ensures
        names_in(c.take(i + 1), name) <==> (names_in(c.take(i), name) || c[i].0 == name),
{
    let a = c.take(i);
    let b = c.take(i + 1);
    if names_in(b, name) {
        let k = choose|k: int| 0 <= k < b.len() && (#[trigger] b[k]).0 == name;
        if k < i {
            assert(a[k].0 == name);
        }
    }
    if names_in(a, name) {
        let k = choose|k: int| 0 <= k < a.len() && (#[trigger] a[k]).0 == name;
        assert(b[k].0 == name);
    }
    if c[i].0 == name {
        assert(b[i].0 == name);
    }
}

/// The configured overlay named `name`, if any.
pub open spec fn custom_lookup(c: Seq<(Seq<char>, ModeOverlay)>, name: Seq<char>) -> Option<
    ModeOverlay,
> {
    if names_in(c, name) {
        Some(c[choose|i: int| 0 <= i < c.len() && (#[trigger] c[i]).0 == name].1)
    } else {
        None
    }
}

/// The overlay for `name` = built-in (if any) with the configured mode of
/// the same name merged on top; `None` if `name` is neither.
pub open spec fn overlay_for_spec(c: Seq<(Seq<char>, ModeOverlay)>, name: Seq<char>) -> Option<
    ModeOverlay,
> {
    match (builtin_overlay(name), custom_lookup(c, name)) {
        (Some(b), Some(o)) => Some(merged_spec(b, o)),
        (Some(b), None) => Some(b),
        (None, Some(o)) => Some(o),
        (None, None) => None,
    }
}

/// The settings in effect: the base, plus the active mode's overlay.
pub open spec fn effective_spec(
    base: ModeSettings,
    active: Option<Seq<char>>,
    c: Seq<(Seq<char>, ModeOverlay)>,
) -> ModeSettings {
    match active {
        None => base,
        Some(name) => apply_spec(overlay_for_spec(c, name).unwrap(), base),
    }
}

/// `names` lists every selectable mode (built-ins and configured ones)
/// exactly once, in `String` order.
pub open spec fn lists_mode_names(names: Seq<Seq<char>>, c: Seq<(Seq<char>, ModeOverlay)>) -> bool {
    &&& strictly_sorted(names)
    &&& forall|n: Seq<char>|
        names.contains(n) <==> (is_builtin_name(n) || custom_lookup(c, n) is Some)
}

/// The configured modes by name.
pub open spec fn entry_views(v: Seq<(String, ModeOverlay)>) -> Seq<(Seq<char>, ModeOverlay)> {
    v.map_values(|e: (String, ModeOverlay)| (e.0@, e.1))
}

/// Central mode-state manager: the single source of truth for what settings
/// are in effect. Holds the base config, the active mode name (if any), and
/// any custom/overriding mode definitions from the config file.
#[derive(Debug)]
pub struct ModeState {
    base: ModeSettings,
    active: Option<String>,
    custom: Vec<(String, ModeOverlay)>,
}

impl ModeState {
    /// The base settings (before any mode).
    pub closed spec fn base_settings(&self) -> ModeSettings {
        self.base
    }

    /// The active mode's name, if any.
    pub closed spec fn active_name(&self) -> Option<Seq<char>> {
        match self.active {
            Some(s) => Some(s@),
            None => None,
        }
    }

    /// The configured modes.
    pub closed spec fn custom_modes(&self) -> Seq<(Seq<char>, ModeOverlay)> {
        entry_views(self.custom@)
    }

    /// Configured names are distinct and the active mode always resolves.
    #[verifier::type_invariant]
    closed spec fn inv(&self) -> bool {
        &&& distinct_names(entry_views(self.custom@))
        &&& match self.active {
            Some(s) => overlay_for_spec(entry_views(self.custom@), s@) is Some,
            None => true,
        }
    }

    /// Build a manager. `active` (from `--mode`/`[mirror].mode`) must resolve
    /// to a built-in or a custom mode, else this errors. Configured modes
    /// come keyed by distinct names.
    pub fn new(base: ModeSettings, custom: Vec<(String, ModeOverlay)>, active: Option<String>) -> (r:
        Result<Self, UnknownMode>)
        requires
            distinct_names(entry_views(custom@)),
        ensures
            r is Ok <==> match active {
                Some(n) => overlay_for_spec(entry_views(custom@), n@) is Some,
                None => true,
            },
            r matches Ok(st) ==> {
                &&& st.base_settings() == base
                &&& st.custom_modes() == entry_views(custom@)
                &&& st.active_name() == match active {
                    Some(n) => Some(n@),
                    None => None::<Seq<char>>,
                }
            },
            r matches Err(e) ==> {
                &&& active matches Some(n) && e.name@ == n@
                &&& lists_mode_names(views(e.valid@), entry_views(custom@))
            },
    {
        let state = ModeState { base, active: None, custom };
        match active {
            Some(name) => {
                let mut state = state;
                match state.set_mode(name.as_str()) {
                    Ok(()) => Ok(state),
                    Err(e) => Err(e),
                }
            },
            None => Ok(state),
        }
    }

    /// Every selectable mode name (built-ins + custom), sorted and deduped.
    pub fn valid_names(&self) -> (r: Vec<String>)
        ensures
            lists_mode_names(views(r@), self.custom_modes()),
    {
        proof {
            use_type_invariant(self);
        }
        let mut names: Vec<String> = Vec::new();
        insert_sorted(&mut names, "reading".to_owned());
        insert_sorted(&mut names, "browsing".to_owned());
        insert_sorted(&mut names, "writing".to_owned());
        insert_sorted(&mut names, "video".to_owned());
        let ghost c = self.custom_modes();
        let mut i: usize = 0;
        assert(c.take(0) =~= Seq::<(Seq<char>, ModeOverlay)>::empty());
        while i < self.custom.len()
            invariant
                c == self.custom_modes(),
                c == entry_views(self.custom@),
                i <= self.custom.len(),
                strictly_sorted(views(names@)),
                forall|n: Seq<char>|
                    views(names@).contains(n) <==> (is_builtin_name(n) || names_in(
                        c.take(i as int),
                        n,
                    )),
            decreases self.custom.len() - i,
        {
            let ghost before = views(names@);
            let entry_name = self.custom[i].0.clone();
            assert(entry_name@ == c[i as int].0);
            insert_sorted(&mut names, entry_name);
            let ghost prev = i as int;
            i = i + 1;
            proof {
                assert forall|n: Seq<char>|
                    views(names@).contains(n) <==> (is_builtin_name(n) || names_in(
                        c.take(i as int),
                        n,
                    )) by {
                    lemma_names_in_extend(c, prev, n);
                    assert(before.contains(n) <==> (is_builtin_name(n) || names_in(
                        c.take(prev),
                        n,
                    )));
                    assert(views(names@).contains(n) <==> (before.contains(n) || n == c[prev].0));
                }
            }
        }
        assert(c.take(i as int) =~= c);
        names
    }

    /// The configured overlay named `name`, if any.
    fn custom_get(&self, name: &str) -> (r: Option<ModeOverlay>)
        ensures
            r == custom_lookup(self.custom_modes(), name@),
    {
        proof {
            use_type_invariant(self);
        }
        let ghost c = self.custom_modes();
        let mut i: usize = 0;
        while i < self.custom.len()
            invariant
                c == self.custom_modes(),
                c == entry_views(self.custom@),
                distinct_names(c),
                i <= self.custom.len(),
                forall|k: int| 0 <= k < i ==> (#[trigger] c[k]).0 != name@,
            decreases self.custom.len() - i,
        {
            if same_name(self.custom[i].0.as_str(), name) {
                proof {
                    assert(c[i as int].0 == name@);
                    let j = choose|j: int| 0 <= j < c.len() && (#[trigger] c[j]).0 == name@;
                    if j != i {
                        if j < i {
                            assert(c[j].0 != c[i as int].0);
                        } else {
                            assert(c[i as int].0 != c[j].0);
                        }
                    }
                }
                return Some(self.custom[i].1);
            }
            i = i + 1;
        }
        None
    }

    /// The overlay for `name` = built-in (if any) with the configured
    /// mode of the same name merged on top. `None` if `name` is neither.
    fn overlay_for(&self, name: &str) -> (r: Option<ModeOverlay>)
        ensures
            r == overlay_for_spec(self.custom_modes(), name@),
    {
        match (builtin(name), self.custom_get(name)) {
            (Some(b), Some(c)) => Some(b.merged_with(&c)),
            (Some(b), None) => Some(b),
            (None, Some(c)) => Some(c),
            (None, None) => None,
        }
    }

    /// The settings currently in effect: base, plus the active mode's overlay.
    pub fn effective(&self) -> (r: ModeSettings)
        ensures
            r == effective_spec(self.base_settings(), self.active_name(), self.custom_modes()),
    {
        proof {
            use_type_invariant(self);
        }
        match &self.active {
            None => self.base,
            Some(name) => {
                let o = self.overlay_for(name.as_str());
                match o {
                    Some(o) => o.apply(&self.base),
                    None => self.base,
                }
            },
        }
    }

    /// The active mode name, or `None` for plain base config.
    pub fn active(&self) -> (r: Option<&str>)
        ensures
            match r {
                Some(s) => self.active_name() == Some(s@),
                None => self.active_name() is None,
            },
    {
        match &self.active {
            Some(s) => Some(s.as_str()),
            None => None,
        }
    }

    /// Switch the active mode. Errors (listing valid names) if unknown, and
    /// then leaves the state as it was.
    pub fn set_mode(&mut self, name: &str) -> (r: Result<(), UnknownMode>)
        ensures
            r is Ok <==> overlay_for_spec(old(self).custom_modes(), name@) is Some,
            final(self).base_settings() == old(self).base_settings(),
            final(self).custom_modes() == old(self).custom_modes(),
            r is Ok ==> final(self).active_name() == Some(name@),
            r is Err ==> final(self).active_name() == old(self).active_name(),
            r matches Err(e) ==> {
                &&& e.name@ == name@
                &&& lists_mode_names(views(e.valid@), old(self).custom_modes())
            },
    {
        proof {
            use_type_invariant(&*self);
        }
        if self.overlay_for(name).is_none() {
            return Err(UnknownMode { name: name.to_owned(), valid: self.valid_names() });
        }
        self.active = Some(name.to_owned());
        Ok(())
    }

    /// Replace the base eink config (hot-reload path). The active mode's
    /// overlay is re-applied on the next `effective()`, so an edit to the
    /// config never drops the active mode.
    pub fn set_base_eink(&mut self, eink: EinkConfig)
        ensures
            final(self).base_settings() == (ModeSettings { eink, ..old(self).base_settings() }),
            final(self).active_name() == old(self).active_name(),
            final(self).custom_modes() == old(self).custom_modes(),
    {
        proof {
            use_type_invariant(&*self);
        }
        self.base.eink = eink;
    }

    /// The base eink config (what hot-reload compares against for changes).
    pub fn base_eink(&self) -> (r: &EinkConfig)
        ensures
            *r == self.base_settings().eink,
    {
        &self.base.eink
    }
}

/// With no active mode the effective settings are the base settings.
pub proof fn lemma_no_active_mode_is_base(base: ModeSettings, c: Seq<(Seq<char>, ModeOverlay)>)
    ensures
        effective_spec(base, None, c) == base,
{
}

/// Under a built-in mode that no configured mode overrides, the user's tone
/// settings (contrast, gamma, black/white points, invert) and fit survive.
pub proof fn lemma_builtin_mode_keeps_user_base(
    base: ModeSettings,
    name: Seq<char>,
    c: Seq<(Seq<char>, ModeOverlay)>,
)
    requires
        is_builtin_name(name),
        custom_lookup(c, name) is None,
    ensures
        effective_spec(base, Some(name), c).eink.contrast_bits == base.eink.contrast_bits,
        effective_spec(base, Some(name), c).eink.gamma_bits == base.eink.gamma_bits,
        effective_spec(base, Some(name), c).eink.black_point == base.eink.black_point,
        effective_spec(base, Some(name), c).eink.white_point == base.eink.white_point,
        effective_spec(base, Some(name), c).eink.invert == base.eink.invert,
        effective_spec(base, Some(name), c).eink.fit == base.eink.fit,
        effective_spec(base, Some(name), c).eink.target_size == base.eink.target_size,
{
}

/// A configured mode named like a built-in acts as a second overlay on top
/// of the built-in: its fields win, the built-in fills in the rest.
pub proof fn lemma_custom_refines_builtin(
    base: ModeSettings,
    name: Seq<char>,
    c: Seq<(Seq<char>, ModeOverlay)>,
)
    requires
        is_builtin_name(name),
        custom_lookup(c, name) is Some,
    ensures
        effective_spec(base, Some(name), c) == apply_spec(
            custom_lookup(c, name).unwrap(),
            apply_spec(builtin_overlay(name).unwrap(), base),
        ),
{
    lemma_merge_then_apply(builtin_overlay(name).unwrap(), custom_lookup(c, name).unwrap(), base);
}

/// Replacing the base keeps the active mode: what is in effect afterwards is
/// the same mode's overlay on the new base.
pub proof fn lemma_reload_keeps_mode(
    base: ModeSettings,
    eink: EinkConfig,
    active: Option<Seq<char>>,
    c: Seq<(Seq<char>, ModeOverlay)>,
)
    requires
        active matches Some(n) ==> overlay_for_spec(c, n) is Some,
    ensures
        effective_spec(ModeSettings { eink, ..base }, active, c) == match active {
            Some(n) => apply_spec(overlay_for_spec(c, n).unwrap(), ModeSettings { eink, ..base }),
            None => ModeSettings { eink, ..base },
        },
        active is Some ==> effective_spec(ModeSettings { eink, ..base }, active, c).eink.levels
            == pick(overlay_for_spec(c, active.unwrap()).unwrap().levels, eink.levels),
{
}

/// The built-in modes are the documented table: `reading` 5 fps with a
/// full redraw after every update, `browsing` 15 fps with a full redraw
/// every 60 s, `writing` 30 fps with four levels, sharpen 1.5 and 32-pixel
/// tiles (full redraw every 300 s), `video` 30 fps without sharpening or
/// full redraws; all dither Bayer, the others at 16 levels with sharpen 1.0
/// and 64-pixel tiles. Tone, contrast, invert, radius and fit are left to
/// the user; any other name is no built-in.
pub proof fn lemma_builtin_table(name: Seq<char>)
    ensures
        builtin_overlay("reading"@) == Some(
            ModeOverlay {
                contrast_bits: None,
                gamma_bits: None,
                black_point: None,
                white_point: None,
                invert: None,
                sharpen_bits: Some(0x3f80_0000u32),
                sharpen_radius: None,
                dither: Some(DitherMode::Bayer),
                levels: Some(16u8),
                fit: None,
                fps: Some(5u32),
                tile_size: Some(64u32),
                full_refresh_secs: Some(0u64),
                full_refresh_updates: Some(1u64),
            },
        ),
        builtin_overlay("browsing"@) == Some(
            ModeOverlay {
                contrast_bits: None,
                gamma_bits: None,
                black_point: None,
                white_point: None,
                invert: None,
                sharpen_bits: Some(0x3f80_0000u32),
                sharpen_radius: None,
                dither: Some(DitherMode::Bayer),
                levels: Some(16u8),
                fit: None,
                fps: Some(15u32),
                tile_size: Some(64u32),
                full_refresh_secs: Some(60u64),
                full_refresh_updates: Some(0u64),
            },
        ),
        builtin_overlay("writing"@) == Some(
            ModeOverlay {
                contrast_bits: None,
                gamma_bits: None,
                black_point: None,
                white_point: None,
                invert: None,
                sharpen_bits: Some(0x3fc0_0000u32),
                sharpen_radius: None,
                dither: Some(DitherMode::Bayer),
                levels: Some(4u8),
                fit: None,
                fps: Some(30u32),
                tile_size: Some(32u32),
                full_refresh_secs: Some(300u64),
                full_refresh_updates: Some(0u64),
            },
        ),
        builtin_overlay("video"@) == Some(
            ModeOverlay {
                contrast_bits: None,
                gamma_bits: None,
                black_point: None,
                white_point: None,
                invert: None,
                sharpen_bits: Some(0u32),
                sharpen_radius: None,
                dither: Some(DitherMode::Bayer),
                levels: Some(16u8),
                fit: None,
                fps: Some(30u32),
                tile_size: Some(64u32),
                full_refresh_secs: Some(0u64),
                full_refresh_updates: Some(0u64),
            },
        ),
        name != "reading"@ && name != "browsing"@ && name != "writing"@ && name != "video"@
            ==> builtin_overlay(name) is None,
{
    reveal_strlit("reading");
    reveal_strlit("browsing");
    reveal_strlit("writing");
    reveal_strlit("video");
    assert("browsing"@[0] != "reading"@[0]);
    assert("writing"@[0] != "reading"@[0]);
    assert("writing"@[0] != "browsing"@[0]);
    assert("video"@[0] != "reading"@[0]);
    assert("video"@[0] != "browsing"@[0]);
    assert("video"@[0] != "writing"@[0]);
}

/// With no configured modes, switching to a built-in mode puts its table
/// values in effect over any base: `reading` runs at 5 fps and redraws
/// fully after every update, `browsing` at 15 fps, `writing` and `video` at
/// 30 fps, `writing` with four gray levels.
pub proof fn lemma_builtin_modes_in_effect(base: ModeSettings)
    ensures
        effective_spec(base, Some("reading"@), Seq::empty()).fps == 5,
        effective_spec(base, Some("reading"@), Seq::empty()).full_refresh_updates == 1,
        effective_spec(base, Some("reading"@), Seq::empty()).full_refresh_secs == 0,
        effective_spec(base, Some("browsing"@), Seq::empty()).fps == 15,
        effective_spec(base, Some("browsing"@), Seq::empty()).full_refresh_secs == 60,
        effective_spec(base, Some("writing"@), Seq::empty()).fps == 30,
        effective_spec(base, Some("writing"@), Seq::empty()).eink.levels == 4,
        effective_spec(base, Some("writing"@), Seq::empty()).tile_size == 32,
        effective_spec(base, Some("video"@), Seq::empty()).fps == 30,
        effective_spec(base, Some("video"@), Seq::empty()).eink.sharpen_bits == 0,
        effective_spec(base, Some("video"@), Seq::empty()).full_refresh_secs == 0,
        effective_spec(base, Some("video"@), Seq::empty()).full_refresh_updates == 0,
{
    lemma_builtin_table("reading"@);
    let e = Seq::<(Seq<char>, ModeOverlay)>::empty();
    assert(!names_in(e, "reading"@));
    assert(!names_in(e, "browsing"@));
    assert(!names_in(e, "writing"@));
    assert(!names_in(e, "video"@));
}

} // verus!
