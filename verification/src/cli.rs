//! The decisions of `papercast run` and `papercast ctl` that do not need a
//! terminal: value parsing, settings precedence (defaults < config file <
//! explicit flag), listen addresses, and the transport/source checks.

use vstd::prelude::*;
use vstd::string::StringExecFns;
use vstd::string::StringSliceAdditionalSpecFns;
use vstd::utf8::{encode_utf8, is_char_boundary, valid_utf8};

use crate::config::MirrorConfig;
use crate::control::Request;
use crate::dither::DitherMode;
use crate::eink::EinkConfig;
use crate::mode::ModeSettings;
use crate::scale::FitMode;

verus! {

/// Frame source to mirror.
#[derive(Debug, Clone, Copy, PartialEq, Eq, Structural)]
pub enum SourceKind {
    /// Animated synthetic pattern (no compositor needed).
    Test,
    /// Live screen capture (ext-image-copy-capture-v1).
    Wayland,
}

/// Wire transport.
#[derive(Debug, Clone, Copy, PartialEq, Eq, Structural)]
pub enum TransportArg {
    /// Serve any VNC viewer (RFB over the listen address).
    Vnc,
    /// Serve the native receiver over the papercast custom protocol.
    Papercast,
}

/// Command-line spelling of the fit modes.
#[derive(Debug, Clone, Copy, PartialEq, Eq, Structural)]
pub enum FitArg {
    Letterbox,
    Crop,
    Stretch,
}

/// Command-line spelling of the dither modes (`none`, `bayer`, `fs`,
/// `atkinson`).
#[derive(Debug, Clone, Copy, PartialEq, Eq, Structural)]
pub enum DitherArg {
    Plain,
    Bayer,
    Fs,
    Atkinson,
}

impl FitArg {
    pub fn to_mode(self) -> (m: FitMode)
        ensures
            m == match self {
                FitArg::Letterbox => FitMode::Letterbox,
                FitArg::Crop => FitMode::Crop,
                FitArg::Stretch => FitMode::Stretch,
            },
    {
        match self {
            FitArg::Letterbox => FitMode::Letterbox,
            FitArg::Crop => FitMode::Crop,
            FitArg::Stretch => FitMode::Stretch,
        }
    }
}

impl DitherArg {
    /// The dither mode this spelling selects; `None` for Atkinson, which
    /// this pipeline does not implement.
    pub fn to_mode(self) -> (m: Option<DitherMode>)
        ensures
            m == match self {
                DitherArg::Plain => Some(DitherMode::Plain),
                DitherArg::Bayer => Some(DitherMode::Bayer),
                DitherArg::Fs => Some(DitherMode::FloydSteinberg),
                DitherArg::Atkinson => None::<DitherMode>,
            },
    {
        match self {
            DitherArg::Plain => Some(DitherMode::Plain),
            DitherArg::Bayer => Some(DitherMode::Bayer),
            DitherArg::Fs => Some(DitherMode::FloydSteinberg),
            DitherArg::Atkinson => None,
        }
    }
}

// ---------------------------------------------------------------------------
// Listen addresses and transport checks
// ---------------------------------------------------------------------------

/// The VNC bind address: the flag, else the config file, else loopback 5900.
pub fn resolve_vnc_listen(cli: Option<&str>, file: Option<&str>) -> (r: String)
    ensures
        r@ == match (cli, file) {
            (Some(c), _) => c@,
            (None, Some(f)) => f@,
            (None, None) => "127.0.0.1:5900"@,
        },
{
    match (cli, file) {
        (Some(c), _) => c.to_owned(),
        (None, Some(f)) => f.to_owned(),
        (None, None) => "127.0.0.1:5900".to_owned(),
    }
}

/// The native transport's bind address: the flag, else loopback 5920. The
/// config file's `listen` is the VNC address and does not apply.
pub fn resolve_papercast_listen(cli: Option<&str>, mirror_listen: Option<&str>) -> (r: String)
    ensures
        r@ == match cli {
            Some(c) => c@,
            None => "127.0.0.1:5920"@,
        },
{
    match cli {
        Some(c) => c.to_owned(),
        None => "127.0.0.1:5920".to_owned(),
    }
}

/// Why a run configuration is refused.
#[derive(Debug, Clone, Copy, PartialEq, Eq, Structural)]
pub enum RunError {
    /// The native transport serves the e-ink pipeline; raw frames are not
    /// supported on it.
    RawOnPapercast,
}

/// The native transport serves the e-ink pipeline; `--raw` is refused there.
pub fn validate_transport(transport: TransportArg, raw: bool) -> (r: Result<(), RunError>)
    ensures
        r is Err <==> (transport == TransportArg::Papercast && raw),
{
    if transport == TransportArg::Papercast && raw {
        Err(RunError::RawOnPapercast)
    } else {
        Ok(())
    }
}

// ---------------------------------------------------------------------------
// Settings precedence
// ---------------------------------------------------------------------------

/// The tunables a user passed on the command line (`None`/`false` = not
/// passed). Real-valued knobs are `f32` bits.
#[derive(Debug, Clone, Copy)]
pub struct CliTuning {
    pub contrast_bits: Option<u32>,
    pub gamma_bits: Option<u32>,
    pub sharpen_bits: Option<u32>,
    pub invert: bool,
    pub levels: Option<u8>,
    pub scale_to: Option<(u32, u32)>,
    pub dither: Option<DitherMode>,
    pub fit: Option<FitMode>,
    pub fps: Option<u32>,
    pub tile_size: Option<u32>,
    pub full_refresh_secs: Option<u64>,
    pub full_refresh_updates: Option<u64>,
}

/// `first`, else `second`, else `default`.
pub open spec fn first_of<T>(first: Option<T>, second: Option<T>, default: T) -> T {
    match first {
        Some(v) => v,
        None => match second {
            Some(v) => v,
            None => default,
        },
    }
}

/// The base settings: defaults < config file < explicit flag.
pub open spec fn base_spec(file_eink: EinkConfig, m: MirrorConfig, cli: CliTuning) -> ModeSettings {
    ModeSettings {
        eink: EinkConfig {
            contrast_bits: crate::mode::pick(cli.contrast_bits, file_eink.contrast_bits),
            gamma_bits: crate::mode::pick(cli.gamma_bits, file_eink.gamma_bits),
            sharpen_bits: crate::mode::pick(cli.sharpen_bits, file_eink.sharpen_bits),
            invert: cli.invert || file_eink.invert,
            levels: crate::mode::pick(cli.levels, file_eink.levels),
            target_size: match cli.scale_to {
                Some(t) => Some(t),
                None => file_eink.target_size,
            },
            dither: crate::mode::pick(cli.dither, file_eink.dither),
            fit: crate::mode::pick(cli.fit, file_eink.fit),
            ..file_eink
        },
        fps: first_of(cli.fps, m.fps, 15),
        tile_size: first_of(cli.tile_size, m.tile_size, 64),
        full_refresh_secs: first_of(cli.full_refresh_secs, m.full_refresh_secs, 60),
        full_refresh_updates: first_of(cli.full_refresh_updates, m.full_refresh_updates, 0),
    }
}

fn first_of_exec<T: Copy>(first: Option<T>, second: Option<T>, default: T) -> (r: T)
    ensures
        r == first_of(first, second, default),
{
    match first {
        Some(v) => v,
        None => match second {
            Some(v) => v,
            None => default,
        },
    }
}

fn or_exec<T: Copy>(first: Option<T>, second: T) -> (r: T)
    ensures
        r == crate::mode::pick(first, second),
{
    match first {
        Some(v) => v,
        None => second,
    }
}

/// Merge defaults, the config file and the command line into the base
/// settings (before any mode overlay).
pub fn resolve_base(file_eink: EinkConfig, m: &MirrorConfig, cli: &CliTuning) -> (r: ModeSettings)
    ensures
        r == base_spec(file_eink, *m, *cli),
        cli.gamma_bits matches Some(g) ==> r.eink.gamma_bits == g,
        cli.contrast_bits matches Some(c) ==> r.eink.contrast_bits == c,
        cli.sharpen_bits matches Some(v) ==> r.eink.sharpen_bits == v,
        cli.levels matches Some(v) ==> r.eink.levels == v,
        cli.dither matches Some(v) ==> r.eink.dither == v,
        cli.fit matches Some(v) ==> r.eink.fit == v,
        cli.fps matches Some(v) ==> r.fps == v,
        cli.tile_size matches Some(v) ==> r.tile_size == v,
        cli.full_refresh_secs matches Some(v) ==> r.full_refresh_secs == v,
        cli.full_refresh_updates matches Some(v) ==> r.full_refresh_updates == v,
        cli.invert ==> r.eink.invert,
{
    let mut eink = file_eink;
    eink.contrast_bits = or_exec(cli.contrast_bits, eink.contrast_bits);
    eink.gamma_bits = or_exec(cli.gamma_bits, eink.gamma_bits);
    eink.sharpen_bits = or_exec(cli.sharpen_bits, eink.sharpen_bits);
    if cli.invert {
        eink.invert = true;
    }
    eink.levels = or_exec(cli.levels, eink.levels);
    match cli.scale_to {
        Some(t) => {
            eink.target_size = Some(t);
        },
        None => {},
    }
    eink.dither = or_exec(cli.dither, eink.dither);
    eink.fit = or_exec(cli.fit, eink.fit);
    ModeSettings {
        eink,
        fps: first_of_exec(cli.fps, m.fps, 15),
        tile_size: first_of_exec(cli.tile_size, m.tile_size, 64),
        full_refresh_secs: first_of_exec(cli.full_refresh_secs, m.full_refresh_secs, 60),
        full_refresh_updates: first_of_exec(cli.full_refresh_updates, m.full_refresh_updates, 0),
    }
}

/// The startup mode: the flag, else the config file's.
pub fn resolve_active(cli: Option<String>, file: Option<String>) -> (r: Option<String>)
    ensures
        crate::transport::opt_name(r) == match cli {
            Some(c) => Some(c@),
            None => crate::transport::opt_name(file),
        },
{
    match cli {
        Some(c) => Some(c),
        None => file,
    }
}

// ---------------------------------------------------------------------------
// `WIDTHxHEIGHT`
// ---------------------------------------------------------------------------

/// Why a decimal field did not parse (as `u32::from_str` reports it).
#[derive(Debug, Clone, Copy, PartialEq, Eq, Structural)]
pub enum IntErrorKind {
    Empty,
    InvalidDigit,
    PosOverflow,
}

pub open spec fn is_digit(b: u8) -> bool {
    48 <= b <= 57
}

/// Decimal digits `d[..n]`, left to right: an invalid digit stops the
/// parse before the overflow check for the same position.
pub open spec fn accumulate(d: Seq<u8>, n: nat) -> Result<int, IntErrorKind>
    decreases n,
{
    if n == 0 {
        Ok(0)
    } else {
        match accumulate(d, (n - 1) as nat) {
            Err(e) => Err(e),
            Ok(v) => if !is_digit(d[n - 1]) {
                Err(IntErrorKind::InvalidDigit)
            } else if v * 10 + (d[n - 1] - 48) > u32::MAX {
                Err(IntErrorKind::PosOverflow)
            } else {
                Ok(v * 10 + (d[n - 1] - 48))
            },
        }
    }
}

/// `u32::from_str` on the bytes `b`: an optional leading `+`, then decimal
/// digits.
pub open spec fn parse_u32_spec(b: Seq<u8>) -> Result<int, IntErrorKind> {
    if b.len() == 0 {
        Err(IntErrorKind::Empty)
    } else if b.len() == 1 && (b[0] == 43 || b[0] == 45) {
        Err(IntErrorKind::InvalidDigit)
    } else if b[0] == 43 {
        accumulate(b.skip(1), (b.len() - 1) as nat)
    } else {
        accumulate(b, b.len())
    }
}

proof fn lemma_accumulate_bound(d: Seq<u8>, n: nat)
    ensures
        accumulate(d, n) matches Ok(v) ==> 0 <= v <= u32::MAX,
    decreases n,
{
    if n > 0 {
        lemma_accumulate_bound(d, (n - 1) as nat);
    }
}

/// Parse the decimal bytes `d`.
fn accumulate_exec(d: &[u8]) -> (r: Result<u32, IntErrorKind>)
    ensures
        match accumulate(d@, d@.len()) {
            Ok(v) => r == Ok::<u32, IntErrorKind>(v as u32),
            Err(e) => r == Err::<u32, IntErrorKind>(e),
        },
{
    let mut v: u32 = 0;
    let mut i: usize = 0;
    while i < d.len()
        invariant
            i <= d@.len(),
            accumulate(d@, i as nat) == Ok::<int, IntErrorKind>(v as int),
        decreases d@.len() - i,
    {
        let c = d[i];
        if c < 48 || c > 57 {
            proof {
                lemma_accumulate_stops(d@, (i + 1) as nat, d@.len());
            }
            return Err(IntErrorKind::InvalidDigit);
        }
        let digit = (c - 48) as u32;
        if v > (u32::MAX - digit) / 10 {
            proof {
                lemma_accumulate_stops(d@, (i + 1) as nat, d@.len());
            }
            return Err(IntErrorKind::PosOverflow);
        }
        v = v * 10 + digit;
        i = i + 1;
    }
    Ok(v)
}

/// Once the parse failed, later bytes do not matter.
proof fn lemma_accumulate_stops(d: Seq<u8>, k: nat, n: nat)
    requires
        k <= n,
        accumulate(d, k) is Err,
    ensures
        accumulate(d, n) == accumulate(d, k),
    decreases n - k,
{
    if n > k {
        lemma_accumulate_stops(d, k, (n - 1) as nat);
    }
}

/// `u32::from_str` on the bytes `b`.
pub fn parse_u32(b: &[u8]) -> (r: Result<u32, IntErrorKind>)
    ensures
        match parse_u32_spec(b@) {
            Ok(v) => r == Ok::<u32, IntErrorKind>(v as u32),
            Err(e) => r == Err::<u32, IntErrorKind>(e),
        },
{
    if b.len() == 0 {
        return Err(IntErrorKind::Empty);
    }
    if b.len() == 1 && (b[0] == 43 || b[0] == 45) {
        return Err(IntErrorKind::InvalidDigit);
    }
    if b[0] == 43 {
        let rest = vstd::slice::slice_subrange(b, 1, b.len());
        proof {
            assert(rest@ =~= b@.skip(1));
        }
        accumulate_exec(rest)
    } else {
        accumulate_exec(b)
    }
}

/// Unicode `White_Space`, the characters `str::trim` strips: tab through
/// carriage return, space, NEL, no-break space, ogham space mark, the
/// spaces U+2000–U+200A, the line and paragraph separators, narrow
/// no-break space, medium mathematical space and ideographic space.
pub open spec fn white_space(c: char) -> bool {
    let u = c as u32;
    ||| 0x9 <= u <= 0xD
    ||| u == 0x20
    ||| u == 0x85
    ||| u == 0xA0
    ||| u == 0x1680
    ||| 0x2000 <= u <= 0x200A
    ||| u == 0x2028
    ||| u == 0x2029
    ||| u == 0x202F
    ||| u == 0x205F
    ||| u == 0x3000
}

/// The first position at or after `i` that holds no white space.
pub open spec fn first_kept(s: Seq<char>, i: nat) -> nat
    decreases s.len() - i,
{
    if i < s.len() && white_space(s[i as int]) {
        first_kept(s, i + 1)
    } else {
        i
    }
}

/// The end of `s[..j]` once trailing white space is dropped, not below `lo`.
pub open spec fn last_kept(s: Seq<char>, lo: nat, j: nat) -> nat
    decreases j,
{
    if j > lo && j <= s.len() && white_space(s[j - 1]) {
        last_kept(s, lo, (j - 1) as nat)
    } else {
        j
    }
}

/// `s` with leading and trailing white space removed, as `str::trim` does.
pub open spec fn trimmed(s: Seq<char>) -> Seq<char> {
    let i = first_kept(s, 0);
    s.subrange(i as int, last_kept(s, i, s.len()) as int)
}

/// Encoding a concatenation concatenates the encodings.
proof fn lemma_encode_concat(a: Seq<char>, b: Seq<char>)
    ensures
        encode_utf8(a + b) == encode_utf8(a) + encode_utf8(b),
    decreases a.len(),
{
    if a.len() > 0 {
        assert((a + b).drop_first() =~= a.drop_first() + b);
        lemma_encode_concat(a.drop_first(), b);
        assert((a + b)[0] == a[0]);
        assert(encode_utf8(a + b) =~= encode_utf8(a) + encode_utf8(b));
    } else {
        assert(a + b =~= b);
        assert(encode_utf8(a) =~= Seq::<u8>::empty());
        assert(encode_utf8(a) + encode_utf8(b) =~= encode_utf8(b));
    }
}

/// The end of `a`'s encoding is a character boundary of `(a + b)`'s.
proof fn lemma_encode_boundary(a: Seq<char>, b: Seq<char>)
    ensures
        is_char_boundary(encode_utf8(a + b), encode_utf8(a).len() as int),
    decreases a.len(),
{
    broadcast use vstd::utf8::encode_utf8_valid_utf8;

    if a.len() > 0 {
        let ab = a + b;
        let bytes = encode_utf8(ab);
        vstd::utf8::encode_utf8_first_scalar(ab);
        assert(vstd::utf8::pop_first_scalar(bytes) =~= encode_utf8(ab.drop_first()));
        assert(ab.drop_first() =~= a.drop_first() + b);
        assert(ab[0] == a[0]);
        lemma_encode_concat(a.drop_first(), b);
        lemma_encode_boundary(a.drop_first(), b);
        lemma_encode_concat(a, b);
        assert(encode_utf8(a).len() == vstd::utf8::encode_scalar(a[0] as u32).len() + encode_utf8(
            a.drop_first(),
        ).len());
        assert(vstd::utf8::encode_scalar(a[0] as u32).len() > 0);
    }
}

/// A one-character string encodes as that character.
proof fn lemma_encode_one(c: char)
    ensures
        encode_utf8(seq![c]) == vstd::utf8::encode_scalar(c as u32),
{
    assert(seq![c].drop_first() =~= Seq::<char>::empty());
    assert(seq![c][0] == c);
    assert(encode_utf8(Seq::<char>::empty()) =~= Seq::<u8>::empty());
    assert(vstd::utf8::encode_scalar(c as u32) + Seq::<u8>::empty() =~= vstd::utf8::encode_scalar(
        c as u32,
    ));
}

/// Bytes of one `char`'s encoding.
fn char_width(c: char) -> (n: usize)
    ensures
        n == vstd::utf8::encode_scalar(c as u32).len(),
{
    proof {
        vstd::utf8::char_is_scalar(c);
    }
    let u = c as u32;
    if u <= 0x7F {
        1
    } else if u <= 0x7FF {
        2
    } else if u <= 0xFFFF {
        3
    } else {
        4
    }
}

/// Whether `c` is white space.
fn is_white_space(c: char) -> (r: bool)
    ensures
        r == white_space(c),
{
    let u = c as u32;
    (0x9 <= u && u <= 0xD) || u == 0x20 || u == 0x85 || u == 0xA0 || u == 0x1680 || (0x2000 <= u
        && u <= 0x200A) || u == 0x2028 || u == 0x2029 || u == 0x202F || u == 0x205F || u == 0x3000
}

/// The characters of `s`, in order.
fn chars_of(s: &str) -> (cs: Vec<char>)
    ensures
        cs@ == s@,
{
    broadcast use vstd::string::axiom_spec_iter, vstd::string::next_postcondition;

    let mut it = s.chars();
    let mut cs: Vec<char> = Vec::new();
    loop
        invariant
            cs@ + vstd::std_specs::iter::IteratorSpec::remaining(&it) == s@,
            vstd::std_specs::iter::IteratorSpec::obeys_prophetic_iter_laws(&it),
        ensures
            cs@ == s@,
        decreases s@.len() - cs@.len(),
    {
        match it.next() {
            Some(c) => {
                cs.push(c);
                assert(cs@ + vstd::std_specs::iter::IteratorSpec::remaining(&it) =~= s@);
            },
            None => {
                assert(cs@ =~= s@);
                break;
            },
        }
    }
    cs
}

/// `str::trim`: `s` without its leading and trailing white space.
fn trim_str(s: &str) -> (r: &str)
    ensures
        r@ == trimmed(s@),
{
    broadcast use vstd::utf8::encode_utf8_decode_utf8;

    let cs = chars_of(s);
    let n = cs.len();
    let mut i: usize = 0;
    while i < n && is_white_space(cs[i])
        invariant
            n == cs@.len(),
            cs@ == s@,
            i <= n,
            first_kept(s@, 0) == first_kept(s@, i as nat),
        decreases n - i,
    {
        i = i + 1;
    }
    let mut j: usize = n;
    while j > i && is_white_space(cs[j - 1])
        invariant
            n == cs@.len(),
            cs@ == s@,
            i <= j <= n,
            last_kept(s@, i as nat, n as nat) == last_kept(s@, i as nat, j as nat),
        decreases j,
    {
        j = j - 1;
    }
    let ghost whole = s@;
    let total = s.as_bytes().len();
    proof {
        assert(first_kept(whole, i as nat) == i);
        assert(last_kept(whole, i as nat, j as nat) == j);
        lemma_encode_concat(whole.take(i as int), whole.skip(i as int));
        assert(whole.take(i as int) + whole.skip(i as int) =~= whole);
    }
    // Byte offset of char `i`, and length of chars `i..j`.
    let mut bi: usize = 0;
    let mut k: usize = 0;
    while k < i
        invariant
            n == cs@.len(),
            cs@ == whole,
            whole == s@,
            k <= i <= j <= n,
            bi == encode_utf8(whole.take(k as int)).len(),
            encode_utf8(whole.take(i as int)).len() <= total,
            total == s.spec_bytes().len(),
            s.spec_bytes() == encode_utf8(whole),
        decreases i - k,
    {
        proof {
            lemma_encode_concat(whole.take(k as int), seq![whole[k as int]]);
            assert(whole.take(k as int) + seq![whole[k as int]] =~= whole.take(k + 1));
            lemma_encode_concat(whole.take(k + 1), whole.subrange(k + 1, i as int));
            assert(whole.take(k + 1) + whole.subrange(k + 1, i as int) =~= whole.take(i as int));
            lemma_encode_one(whole[k as int]);
        }
        bi = bi + char_width(cs[k]);
        k = k + 1;
    }
    let rest_chars = Ghost(whole.skip(i as int));
    proof {
        lemma_encode_boundary(whole.take(i as int), whole.skip(i as int));
    }
    let (_, rest) = s.split_at(bi);
    let rest_total = rest.as_bytes().len();
    proof {
        let a = encode_utf8(whole.take(i as int));
        let b = encode_utf8(whole.skip(i as int));
        assert((a + b).subrange(a.len() as int, (a + b).len() as int) =~= b);
        assert(encode_utf8(rest@) == encode_utf8(rest_chars@));
        vstd::utf8::encode_utf8_decode_utf8(rest@);
        vstd::utf8::encode_utf8_decode_utf8(rest_chars@);
        assert(rest@ == rest_chars@);
        lemma_encode_concat(rest_chars@.take((j - i) as int), rest_chars@.skip((j - i) as int));
        assert(rest_chars@.take((j - i) as int) + rest_chars@.skip((j - i) as int) =~= rest_chars@);
    }
    let mut bj: usize = 0;
    let mut k: usize = i;
    while k < j
        invariant
            n == cs@.len(),
            cs@ == whole,
            k <= j <= n,
            i <= k,
            rest_chars@ == whole.skip(i as int),
            bj == encode_utf8(rest_chars@.take(k - i)).len(),
            encode_utf8(rest_chars@.take(j - i)).len() <= rest_total,
            rest_total == rest.spec_bytes().len(),
            rest.spec_bytes() == encode_utf8(rest_chars@),
        decreases j - k,
    {
        proof {
            let t = rest_chars@;
            let c = k - i;
            assert(t[c] == whole[k as int]);
            lemma_encode_concat(t.take(c), seq![t[c]]);
            assert(t.take(c) + seq![t[c]] =~= t.take(c + 1));
            lemma_encode_concat(t.take(c + 1), t.subrange(c + 1, (j - i) as int));
            assert(t.take(c + 1) + t.subrange(c + 1, (j - i) as int) =~= t.take((j - i) as int));
            lemma_encode_one(t[c]);
        }
        bj = bj + char_width(cs[k]);
        k = k + 1;
    }
    proof {
        let t = rest_chars@;
        lemma_encode_boundary(t.take((j - i) as int), t.skip((j - i) as int));
        assert(t.take((j - i) as int) + t.skip((j - i) as int) =~= t);
    }
    let (mid, _) = rest.split_at(bj);
    proof {
        let t = rest_chars@;
        let a = encode_utf8(t.take((j - i) as int));
        let b = encode_utf8(t.skip((j - i) as int));
        assert((a + b).subrange(0, a.len() as int) =~= a);
        assert(encode_utf8(mid@) == encode_utf8(t.take((j - i) as int)));
        vstd::utf8::encode_utf8_decode_utf8(mid@);
        vstd::utf8::encode_utf8_decode_utf8(t.take((j - i) as int));
        assert(mid@ == t.take((j - i) as int));
        assert(mid@ =~= whole.subrange(i as int, j as int));
    }
    mid
}

/// A refused `WIDTHxHEIGHT`.
#[derive(Debug, Clone, PartialEq, Eq)]
pub enum SizeError {
    /// No `x`/`X` separator in the value.
    NoSeparator(String),
    /// A side is not a `u32`: the side as written, and why.
    BadDimension(String, IntErrorKind),
}

impl SizeError {
    /// The message shown to the user.
    pub fn message(&self) -> (m: String)
        ensures
            m@ == match self {
                SizeError::NoSeparator(s) => "expected WIDTHxHEIGHT, got '"@ + s@ + "'"@,
                SizeError::BadDimension(v, k) => "bad dimension '"@ + v@ + "': "@ + int_error_text(
                    *k,
                ),
            },
    {
        match self {
            SizeError::NoSeparator(s) => {
                let mut m = String::from_str("expected WIDTHxHEIGHT, got '");
                m.append(s.as_str());
                m.append("'");
                m
            },
            SizeError::BadDimension(v, k) => {
                let mut m = String::from_str("bad dimension '");
                m.append(v.as_str());
                m.append("': ");
                m.append(int_error_str(*k));
                m
            },
        }
    }
}

/// How a failed integer parse reads.
pub open spec fn int_error_text(k: IntErrorKind) -> Seq<char> {
    match k {
        IntErrorKind::Empty => "cannot parse integer from empty string"@,
        IntErrorKind::InvalidDigit => "invalid digit found in string"@,
        IntErrorKind::PosOverflow => "number too large to fit in target type"@,
    }
}

fn int_error_str(k: IntErrorKind) -> (s: &'static str)
    ensures
        s@ == int_error_text(k),
{
    match k {
        IntErrorKind::Empty => "cannot parse integer from empty string",
        IntErrorKind::InvalidDigit => "invalid digit found in string",
        IntErrorKind::PosOverflow => "number too large to fit in target type",
    }
}

/// Index of the first `x` or `X` byte, if any.
pub open spec fn first_separator(b: Seq<u8>) -> Option<int> {
    if exists|i: int| 0 <= i < b.len() && (b[i] == 120 || b[i] == 88) {
        Some(
            choose|i: int|
                0 <= i < b.len() && (b[i] == 120 || b[i] == 88) && forall|k: int|
                    0 <= k < i ==> !(b[k] == 120 || b[k] == 88),
        )
    } else {
        None
    }
}

/// One side of `WIDTHxHEIGHT`: trimmed, then parsed.
pub open spec fn side_spec(side: Seq<char>) -> Result<int, IntErrorKind> {
    parse_u32_spec(encode_utf8(trimmed(side)))
}

/// Parse `WIDTHxHEIGHT` (either case of `x`, whitespace around each side
/// allowed). `Err` names the offending input.
pub fn parse_size(s: &str) -> (r: Result<(u32, u32), SizeError>)
    ensures
        ({
            let b = s.spec_bytes();
            match first_separator(b) {
                None => r matches Err(SizeError::NoSeparator(t)) && t@ == s@,
                Some(i) => {
                    let w = decode_side(b.subrange(0, i));
                    let h = decode_side(b.subrange(i + 1, b.len() as int));
                    match (side_spec(w), side_spec(h)) {
                        (Ok(a), Ok(c)) => r == Ok::<(u32, u32), SizeError>((a as u32, c as u32)),
                        (Err(e), _) => r matches Err(SizeError::BadDimension(t, k)) && t@ == w && k
                            == e,
                        (Ok(_), Err(e)) => r matches Err(SizeError::BadDimension(t, k)) && t@ == h
                            && k == e,
                    }
                },
            }
        }),
{
    let bytes = s.as_bytes();
    let mut i: usize = 0;
    while i < bytes.len() && bytes[i] != 120 && bytes[i] != 88
        invariant
            bytes@ == s.spec_bytes(),
            i <= bytes@.len(),
            forall|k: int| 0 <= k < i ==> !(bytes@[k] == 120 || bytes@[k] == 88),
        decreases bytes@.len() - i,
    {
        i = i + 1;
    }
    if i == bytes.len() {
        return Err(SizeError::NoSeparator(s.to_owned()));
    }
    proof {
        let b = s.spec_bytes();
        let j = choose|j: int|
            0 <= j < b.len() && (b[j] == 120 || b[j] == 88) && forall|k: int|
                0 <= k < j ==> !(b[k] == 120 || b[k] == 88);
        assert(0 <= i < b.len() && (b[i as int] == 120 || b[i as int] == 88) && forall|k: int|
            0 <= k < i ==> !(b[k] == 120 || b[k] == 88));
        if j < i {
        } else if j > i {
            assert(!(b[i as int] == 120 || b[i as int] == 88));
        }
        vstd::utf8::encode_utf8_valid_utf8(s@);
        vstd::utf8::is_char_boundary_iff_not_is_continuation_byte(b, i as int);
    }
    let (left, rest) = s.split_at(i);
    proof {
        let rb = rest.spec_bytes();
        vstd::utf8::encode_utf8_valid_utf8(rest@);
        assert(rb =~= s.spec_bytes().subrange(i as int, s.spec_bytes().len() as int));
        assert(rb[0] == 120 || rb[0] == 88);
        lemma_ascii_first_boundary(rb);
    }
    let (_, right) = rest.split_at(1);
    proof {
        lemma_side_view(left);
        lemma_side_view(right);
        assert(right.spec_bytes() =~= s.spec_bytes().subrange(i + 1, s.spec_bytes().len() as int));
    }
    let w = trim_str(left);
    let h = trim_str(right);
    let wv = match parse_u32(w.as_bytes()) {
        Ok(v) => v,
        Err(k) => {
            return Err(SizeError::BadDimension(left.to_owned(), k));
        },
    };
    let hv = match parse_u32(h.as_bytes()) {
        Ok(v) => v,
        Err(k) => {
            return Err(SizeError::BadDimension(right.to_owned(), k));
        },
    };
    Ok((wv, hv))
}

/// The characters that the valid UTF-8 bytes `b` encode.
pub open spec fn decode_side(b: Seq<u8>) -> Seq<char> {
    vstd::utf8::decode_utf8(b)
}

/// A string's characters are what its bytes decode to.
proof fn lemma_side_view(s: &str)
    ensures
        decode_side(s.spec_bytes()) == s@,
{
    vstd::utf8::encode_utf8_decode_utf8(s@);
}

/// In valid UTF-8 starting with an ASCII byte, index 1 is a boundary.
proof fn lemma_ascii_first_boundary(b: Seq<u8>)
    requires
        valid_utf8(b),
        b.len() >= 1,
        b[0] < 128,
    ensures
        is_char_boundary(b, 1),
{
    reveal_with_fuel(is_char_boundary, 2);
    assert(vstd::utf8::length_of_first_scalar(b) == 1);
}

// ---------------------------------------------------------------------------
// `papercast ctl`
// ---------------------------------------------------------------------------

/// A `papercast ctl` subcommand.
#[derive(Debug, Clone, PartialEq, Eq)]
pub enum CtlCommand {
    /// Switch the active display mode.
    Mode { name: String },
    /// Force one full-frame redraw now (clears e-ink ghosting).
    Refresh,
    /// Print the running mirror's effective settings.
    Status,
}

/// The `ctl` arguments: one subcommand.
#[derive(Debug, Clone, PartialEq, Eq)]
pub struct CtlArgs {
    pub cmd: CtlCommand,
}

/// The control request a subcommand sends.
pub fn request_for(cmd: CtlCommand) -> (r: Request)
    ensures
        match cmd {
            CtlCommand::Mode { name } => r matches Request::Mode { name: n } && n@ == name@,
            CtlCommand::Refresh => r matches Request::Refresh,
            CtlCommand::Status => r matches Request::Status,
        },
{
    match cmd {
        CtlCommand::Mode { name } => Request::Mode { name },
        CtlCommand::Refresh => Request::Refresh,
        CtlCommand::Status => Request::Status,
    }
}

/// Precedence of every tunable: an explicit flag wins over the config file,
/// which wins over the built-in default (15 fps, 64-pixel tiles, a full
/// refresh every 60 s, none by count); `--invert` can only turn inversion
/// on; the knobs without a flag come from the file.
pub proof fn lemma_flag_precedence(file_eink: EinkConfig, m: MirrorConfig, cli: CliTuning)
    ensures
        ({
            let r = base_spec(file_eink, m, cli);
            &&& r.eink.contrast_bits == match cli.contrast_bits {
                Some(v) => v,
                None => file_eink.contrast_bits,
            }
            &&& r.eink.gamma_bits == match cli.gamma_bits {
                Some(v) => v,
                None => file_eink.gamma_bits,
            }
            &&& r.eink.sharpen_bits == match cli.sharpen_bits {
                Some(v) => v,
                None => file_eink.sharpen_bits,
            }
            &&& r.eink.levels == match cli.levels {
                Some(v) => v,
                None => file_eink.levels,
            }
            &&& r.eink.dither == match cli.dither {
                Some(v) => v,
                None => file_eink.dither,
            }
            &&& r.eink.fit == match cli.fit {
                Some(v) => v,
                None => file_eink.fit,
            }
            &&& r.eink.target_size == match cli.scale_to {
                Some(v) => Some(v),
                None => file_eink.target_size,
            }
            &&& r.eink.invert == (cli.invert || file_eink.invert)
            &&& r.eink.black_point == file_eink.black_point
            &&& r.eink.white_point == file_eink.white_point
            &&& r.eink.sharpen_radius == file_eink.sharpen_radius
            &&& r.fps == match (cli.fps, m.fps) {
                (Some(v), _) => v,
                (None, Some(v)) => v,
                (None, None) => 15u32,
            }
            &&& r.tile_size == match (cli.tile_size, m.tile_size) {
                (Some(v), _) => v,
                (None, Some(v)) => v,
                (None, None) => 64u32,
            }
            &&& r.full_refresh_secs == match (cli.full_refresh_secs, m.full_refresh_secs) {
                (Some(v), _) => v,
                (None, Some(v)) => v,
                (None, None) => 60u64,
            }
            &&& r.full_refresh_updates == match (cli.full_refresh_updates, m.full_refresh_updates) {
                (Some(v), _) => v,
                (None, Some(v)) => v,
                (None, None) => 0u64,
            }
        }),
{
}

} // verus!
