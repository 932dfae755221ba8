//! What a compositor probe found — which globals exist, what outputs look
//! like, which shm formats are offered — and the question that decides the
//! capture backend: which screen-capture protocol families are present.
//!
//! Talking to the compositor is the program's job; this module reads the
//! report.

use vstd::prelude::*;
use vstd::string::StringSliceAdditionalSpecFns;
use vstd::utf8::encode_utf8;

use crate::mode::{name_before, name_lt, same_name};

verus! {

/// One entry from the compositor's global registry.
#[derive(Debug, Clone)]
pub struct GlobalEntry {
    pub interface: String,
    pub version: u32,
}

/// What we learned about one monitor.
#[derive(Debug, Clone)]
pub struct OutputInfo {
    pub name: Option<String>,
    pub description: Option<String>,
    /// (width, height, refresh_mHz) of the current mode.
    pub mode: Option<(i32, i32, i32)>,
    pub scale: i32,
    pub transform: Option<String>,
}

impl Default for OutputInfo {
    fn default() -> (o: Self)
        ensures
            o.name is None,
            o.description is None,
            o.mode is None,
            o.scale == 0,
            o.transform is None,
    {
        OutputInfo { name: None, description: None, mode: None, scale: 0, transform: None }
    }
}

/// A capture protocol family we know how to (eventually) drive.
#[derive(Debug, Clone, Copy, PartialEq, Eq, Structural)]
pub enum CaptureTier {
    /// ext-image-copy-capture-v1 + ext-image-capture-source-v1 (standard).
    ExtImageCopyCapture,
    /// COSMIC-specific zcosmic_* screencopy protocols.
    CosmicScreencopy,
    /// Legacy wlroots zwlr_screencopy_manager_v1.
    WlrScreencopy,
}

#[derive(Debug)]
pub struct ProbeReport {
    pub globals: Vec<GlobalEntry>,
    pub outputs: Vec<OutputInfo>,
    pub shm_formats: Vec<String>,
}

impl Default for ProbeReport {
    fn default() -> (r: Self)
        ensures
            r.globals@.len() == 0,
            r.outputs@.len() == 0,
            r.shm_formats@.len() == 0,
    {
        ProbeReport { globals: Vec::new(), outputs: Vec::new(), shm_formats: Vec::new() }
    }
}

/// The globals as (interface, version) pairs.
pub open spec fn global_views(gs: Seq<GlobalEntry>) -> Seq<(Seq<char>, u32)> {
    gs.map_values(|g: GlobalEntry| (g.interface@, g.version))
}

/// Version of the first global named `interface`, if any.
pub open spec fn first_version(gs: Seq<(Seq<char>, u32)>, interface: Seq<char>) -> Option<u32>
    decreases gs.len(),
{
    if gs.len() == 0 {
        None
    } else if gs[0].0 == interface {
        Some(gs[0].1)
    } else {
        first_version(gs.skip(1), interface)
    }
}

/// Whether `needle` occurs in `hay`, byte-wise.
pub open spec fn bytes_contain(hay: Seq<u8>, needle: Seq<u8>) -> bool {
    exists|i: int|
        0 <= i && i + needle.len() <= hay.len() && #[trigger] hay.subrange(i, i + needle.len())
            == needle
}

/// Whether `hay` begins with `prefix`, byte-wise.
pub open spec fn bytes_start_with(hay: Seq<u8>, prefix: Seq<u8>) -> bool {
    prefix.len() <= hay.len() && hay.subrange(0, prefix.len() as int) == prefix
}

/// Whether `name` contains `needle` (as `str::contains` does, on UTF-8).
pub open spec fn name_contains(name: Seq<char>, needle: Seq<char>) -> bool {
    bytes_contain(encode_utf8(name), encode_utf8(needle))
}

/// Substrings that mark a global as screen-capture machinery.
pub open spec fn capture_hints() -> Seq<Seq<char>> {
    seq![
        "screencopy"@,
        "image_copy_capture"@,
        "image_capture_source"@,
        "image_source"@,
        "screencast"@,
        "export_dmabuf"@,
    ]
}

/// Whether a global's name suggests screen capture.
pub open spec fn capture_like(name: Seq<char>) -> bool {
    exists|k: int| 0 <= k < capture_hints().len() && name_contains(name, #[trigger] capture_hints()[k])
}

/// The capture-like globals among the first `n`, in order.
pub open spec fn capture_like_prefix(gs: Seq<(Seq<char>, u32)>, n: nat) -> Seq<(Seq<char>, u32)>
    decreases n,
{
    if n == 0 {
        Seq::empty()
    } else {
        let rest = capture_like_prefix(gs, (n - 1) as nat);
        if capture_like(gs[n - 1].0) {
            rest.push(gs[n - 1])
        } else {
            rest
        }
    }
}

/// The tiers a compositor with these globals supports, in priority order.
pub open spec fn tiers_spec(gs: Seq<(Seq<char>, u32)>) -> Seq<CaptureTier> {
    let ext = first_version(gs, "ext_image_copy_capture_manager_v1"@) is Some && first_version(
        gs,
        "ext_output_image_capture_source_manager_v1"@,
    ) is Some;
    let cosmic = exists|i: int|
        0 <= i < gs.len() && bytes_start_with(
            encode_utf8(#[trigger] gs[i].0),
            encode_utf8("zcosmic_screencopy_manager_v"@),
        );
    let wlr = first_version(gs, "zwlr_screencopy_manager_v1"@) is Some;
    let t1 = if ext {
        seq![CaptureTier::ExtImageCopyCapture]
    } else {
        Seq::empty()
    };
    let t2 = if cosmic {
        t1.push(CaptureTier::CosmicScreencopy)
    } else {
        t1
    };
    if wlr {
        t2.push(CaptureTier::WlrScreencopy)
    } else {
        t2
    }
}

/// Whether `needle` sits in `hay` at byte `at`.
fn matches_at(hay: &[u8], needle: &[u8], at: usize) -> (r: bool)
    requires
        at + needle@.len() <= hay@.len(),
    ensures
        r == (hay@.subrange(at as int, at + needle@.len()) == needle@),
{
    let hl = hay.len();
    let mut j: usize = 0;
    while j < needle.len()
        invariant
            hl == hay@.len(),
            at + needle@.len() <= hay@.len(),
            j <= needle@.len(),
            forall|k: int| 0 <= k < j ==> hay@[at + k] == needle@[k],
        decreases needle@.len() - j,
    {
        if hay[at + j] != needle[j] {
            proof {
                assert(hay@.subrange(at as int, at + needle@.len())[j as int] != needle@[j as int]);
            }
            return false;
        }
        j = j + 1;
    }
    proof {
        assert(hay@.subrange(at as int, at + needle@.len()) =~= needle@);
    }
    true
}

/// Whether `needle` occurs in `hay`, byte-wise.
pub fn contains_bytes(hay: &[u8], needle: &[u8]) -> (r: bool)
    ensures
        r == bytes_contain(hay@, needle@),
{
    if needle.len() > hay.len() {
        return false;
    }
    if needle.len() == 0 {
        proof {
            assert(hay@.subrange(0, 0int + needle@.len()) =~= needle@);
        }
        return true;
    }
    let positions = hay.len() - needle.len() + 1;
    let mut i: usize = 0;
    while i < positions
        invariant
            positions == hay@.len() - needle@.len() + 1,
            needle@.len() <= hay@.len(),
            i <= positions,
            forall|k: int|
                0 <= k < i ==> #[trigger] hay@.subrange(k, k + needle@.len()) != needle@,
        decreases positions - i,
    {
        if matches_at(hay, needle, i) {
            return true;
        }
        i = i + 1;
    }
    false
}

/// Whether `hay` begins with `prefix`, byte-wise.
pub fn starts_with_bytes(hay: &[u8], prefix: &[u8]) -> (r: bool)
    ensures
        r == bytes_start_with(hay@, prefix@),
{
    if prefix.len() > hay.len() {
        return false;
    }
    matches_at(hay, prefix, 0)
}

/// Whether `name` contains `needle`.
fn name_has(name: &str, needle: &str) -> (r: bool)
    ensures
        r == name_contains(name@, needle@),
{
    contains_bytes(name.as_bytes(), needle.as_bytes())
}

impl ProbeReport {
    /// The version of the first global named `interface`, if any.
    pub fn global_version(&self, interface: &str) -> (r: Option<u32>)
        ensures
            r == first_version(global_views(self.globals@), interface@),
    {
        let ghost gs = global_views(self.globals@);
        let mut i: usize = 0;
        proof {
            assert(gs.skip(0) =~= gs);
        }
        while i < self.globals.len()
            invariant
                gs == global_views(self.globals@),
                i <= self.globals@.len(),
                first_version(gs, interface@) == first_version(gs.skip(i as int), interface@),
            decreases self.globals@.len() - i,
        {
            let g = &self.globals[i];
            if same_name(g.interface.as_str(), interface) {
                proof {
                    assert(gs.skip(i as int)[0] == gs[i as int]);
                }
                return Some(g.version);
            }
            proof {
                assert(gs.skip(i as int).skip(1) =~= gs.skip(i + 1));
            }
            i = i + 1;
        }
        None
    }

    /// All globals whose names suggest screen-capture machinery, including
    /// families we don't know — so an unexpected compositor still tells us
    /// what it *does* offer instead of silently reporting "nothing".
    pub fn capture_like_globals(&self) -> (r: Vec<&GlobalEntry>)
        ensures
            r@.map_values(|g: &GlobalEntry| (g.interface@, g.version)) == capture_like_prefix(
                global_views(self.globals@),
                self.globals@.len(),
            ),
    {
        let ghost gs = global_views(self.globals@);
        let mut out: Vec<&GlobalEntry> = Vec::new();
        let mut i: usize = 0;
        while i < self.globals.len()
            invariant
                gs == global_views(self.globals@),
                i <= self.globals@.len(),
                out@.map_values(|g: &GlobalEntry| (g.interface@, g.version)) == capture_like_prefix(
                    gs,
                    i as nat,
                ),
            decreases self.globals@.len() - i,
        {
            let g = &self.globals[i];
            let name = g.interface.as_str();
            let hit = name_has(name, "screencopy") || name_has(name, "image_copy_capture")
                || name_has(name, "image_capture_source") || name_has(name, "image_source")
                || name_has(name, "screencast") || name_has(name, "export_dmabuf");
            proof {
                let h = capture_hints();
                assert(h[0] == "screencopy"@);
                assert(h[1] == "image_copy_capture"@);
                assert(h[2] == "image_capture_source"@);
                assert(h[3] == "image_source"@);
                assert(h[4] == "screencast"@);
                assert(h[5] == "export_dmabuf"@);
                assert(gs[i as int].0 == name@);
                if capture_like(name@) {
                    let k = choose|k: int|
                        0 <= k < capture_hints().len() && name_contains(
                            name@,
                            #[trigger] capture_hints()[k],
                        );
                    assert(hit);
                }
                if hit {
                    if name_contains(name@, "screencopy"@) {
                        assert(name_contains(name@, h[0]));
                    } else if name_contains(name@, "image_copy_capture"@) {
                        assert(name_contains(name@, h[1]));
                    } else if name_contains(name@, "image_capture_source"@) {
                        assert(name_contains(name@, h[2]));
                    } else if name_contains(name@, "image_source"@) {
                        assert(name_contains(name@, h[3]));
                    } else if name_contains(name@, "screencast"@) {
                        assert(name_contains(name@, h[4]));
                    } else {
                        assert(name_contains(name@, h[5]));
                    }
                }
            }
            if hit {
                out.push(g);
            }
            proof {
                let m = out@.map_values(|g: &GlobalEntry| (g.interface@, g.version));
                assert(m =~= capture_like_prefix(gs, (i + 1) as nat));
            }
            i = i + 1;
        }
        out
    }

    /// Every supported capture tier, in our priority order.
    pub fn supported_tiers(&self) -> (r: Vec<CaptureTier>)
        ensures
            r@ == tiers_spec(global_views(self.globals@)),
    {
        let ghost gs = global_views(self.globals@);
        let mut tiers: Vec<CaptureTier> = Vec::new();
        // The standard protocol splits "what to capture" (source manager)
        // from "how to copy it" (capture manager); we need both.
        if self.global_version("ext_image_copy_capture_manager_v1").is_some()
            && self.global_version("ext_output_image_capture_source_manager_v1").is_some() {
            tiers.push(CaptureTier::ExtImageCopyCapture);
        }
        let mut cosmic = false;
        let mut i: usize = 0;
        let prefix = "zcosmic_screencopy_manager_v".as_bytes();
        while i < self.globals.len()
            invariant
                gs == global_views(self.globals@),
                i <= self.globals@.len(),
                prefix@ == encode_utf8("zcosmic_screencopy_manager_v"@),
                cosmic == exists|k: int|
                    0 <= k < i && bytes_start_with(encode_utf8(#[trigger] gs[k].0), prefix@),
            decreases self.globals@.len() - i,
        {
            let hit = starts_with_bytes(self.globals[i].interface.as_str().as_bytes(), prefix);
            proof {
                assert(gs[i as int].0 == self.globals@[i as int].interface@);
                if hit {
                    assert(bytes_start_with(encode_utf8(gs[i as int].0), prefix@));
                }
                if cosmic {
                    let k = choose|k: int|
                        0 <= k < i && bytes_start_with(encode_utf8(#[trigger] gs[k].0), prefix@);
                    assert(0 <= k < i + 1);
                }
            }
            cosmic = cosmic || hit;
            i = i + 1;
        }
        if cosmic {
            tiers.push(CaptureTier::CosmicScreencopy);
        }
        if self.global_version("zwlr_screencopy_manager_v1").is_some() {
            tiers.push(CaptureTier::WlrScreencopy);
        }
        proof {
            assert(tiers@ =~= tiers_spec(gs));
        }
        tiers
    }

    /// Best supported capture tier, in our priority order.
    pub fn best_tier(&self) -> (r: Option<CaptureTier>)
        ensures
            r == if tiers_spec(global_views(self.globals@)).len() == 0 {
                None::<CaptureTier>
            } else {
                Some(tiers_spec(global_views(self.globals@))[0])
            },
    {
        let tiers = self.supported_tiers();
        if tiers.len() == 0 {
            None
        } else {
            Some(tiers[0])
        }
    }
}

/// Each interface name sorts no later than the next ones.
pub open spec fn sorted_by_name(gs: Seq<(Seq<char>, u32)>) -> bool {
    forall|i: int, j: int| 0 <= i < j < gs.len() ==> !name_lt(#[trigger] gs[j].0, #[trigger] gs[i].0)
}

proof fn lemma_name_total(a: Seq<char>, b: Seq<char>, c: Seq<char>)
    ensures
        !name_lt(a, b) && !name_lt(b, c) ==> !name_lt(a, c),
        !name_lt(a, b) ==> a == b || name_lt(b, a),
{
    crate::mode::lemma_name_order_pub(a, b, c);
    crate::mode::lemma_name_order_pub(c, b, a);
    crate::mode::lemma_name_order_pub(a, c, b);
    crate::mode::lemma_name_order_pub(b, a, c);
    crate::mode::lemma_name_order_pub(c, a, b);
}

/// `g` inserted into `s` before the first entry whose name is not smaller.
pub open spec fn insert_by_name(s: Seq<(Seq<char>, u32)>, g: (Seq<char>, u32)) -> Seq<
    (Seq<char>, u32),
>
    decreases s.len(),
{
    if s.len() == 0 {
        seq![g]
    } else if name_lt(s[0].0, g.0) {
        seq![s[0]] + insert_by_name(s.skip(1), g)
    } else {
        seq![g] + s
    }
}

/// The stable sort by name: entries with equal names keep their order.
pub open spec fn stable_sorted(s: Seq<(Seq<char>, u32)>) -> Seq<(Seq<char>, u32)>
    decreases s.len(),
{
    if s.len() == 0 {
        s
    } else {
        insert_by_name(stable_sorted(s.skip(1)), s[0])
    }
}

/// Inserting at the first position whose name is not smaller.
proof fn lemma_insert_at(s: Seq<(Seq<char>, u32)>, g: (Seq<char>, u32), p: int)
    requires
        0 <= p <= s.len(),
        forall|q: int| 0 <= q < p ==> name_lt(#[trigger] s[q].0, g.0),
        p < s.len() ==> !name_lt(s[p].0, g.0),
    ensures
        insert_by_name(s, g) == s.insert(p, g),
    decreases s.len(),
{
    if s.len() == 0 {
        assert(s.insert(p, g) =~= seq![g]);
    } else if p == 0 {
        assert(s.insert(0, g) =~= seq![g] + s);
    } else {
        let t = s.skip(1);
        assert forall|q: int| 0 <= q < p - 1 implies name_lt(#[trigger] t[q].0, g.0) by {
            assert(t[q] == s[q + 1]);
        }
        if p - 1 < t.len() {
            assert(t[p - 1] == s[p]);
        }
        lemma_insert_at(t, g, p - 1);
        assert(s.insert(p, g) =~= seq![s[0]] + t.insert(p - 1, g));
    }
}

/// Order the globals by interface name, keeping the relative order of
/// globals with the same name (the probe report lists them this way).
pub fn sort_globals(globals: Vec<GlobalEntry>) -> (r: Vec<GlobalEntry>)
    ensures
        global_views(r@) == stable_sorted(global_views(globals@)),
        sorted_by_name(global_views(r@)),
        global_views(r@).to_multiset() == global_views(globals@).to_multiset(),
{
    let ghost input = global_views(globals@);
    let mut out: Vec<GlobalEntry> = Vec::new();
    let mut rest = globals;
    let ghost n = input.len();
    assert(global_views(out@) =~= input.skip(rest@.len() as int));
    assert(global_views(rest@) =~= input.take(rest@.len() as int));
    // Take from the back so `pop` is cheap; insertion keeps equal names in
    // their original order by inserting before the earlier-taken equals.
    while rest.len() > 0
        invariant
            n == input.len(),
            input == global_views(globals@),
            rest@.len() <= n,
            global_views(rest@) == input.take(rest@.len() as int),
            sorted_by_name(global_views(out@)),
            global_views(out@).to_multiset() == input.skip(rest@.len() as int).to_multiset(),
            global_views(out@) == stable_sorted(input.skip(rest@.len() as int)),
        decreases rest@.len(),
    {
        let ghost before = global_views(out@);
        let ghost k = rest@.len() as int;
        let ghost rest_before = rest@;
        let g = rest.pop().unwrap();
        proof {
            assert(rest_before =~= rest@.push(g));
            assert(global_views(rest_before)[k - 1] == (g.interface@, g.version));
            assert(global_views(rest@) =~= global_views(rest_before).take(k - 1));
            assert(global_views(rest@) =~= input.take(k - 1));
            assert(input[k - 1] == (g.interface@, g.version));
        }
        let mut p: usize = 0;
        while p < out.len() && name_before(out[p].interface.as_str(), g.interface.as_str())
            invariant
                before == global_views(out@),
                sorted_by_name(before),
                p <= out@.len(),
                forall|q: int| 0 <= q < p ==> name_lt(#[trigger] before[q].0, g.interface@),
            decreases out@.len() - p,
        {
            p = p + 1;
        }
        let ghost gv = (g.interface@, g.version);
        proof {
            if p < out.len() {
                assert(!name_lt(before[p as int].0, g.interface@));
                assert forall|q: int| p <= q < before.len() implies !name_lt(
                    #[trigger] before[q].0,
                    g.interface@,
                ) by {
                    if q > p {
                        assert(!name_lt(before[q].0, before[p as int].0));
                        lemma_name_total(g.interface@, before[p as int].0, before[q].0);
                        lemma_name_total(before[q].0, before[p as int].0, g.interface@);
                        crate::mode::lemma_name_order_pub(before[q].0, before[p as int].0, g.interface@);
                        crate::mode::lemma_name_order_pub(before[p as int].0, before[q].0, g.interface@);
                        crate::mode::lemma_name_order_pub(g.interface@, before[p as int].0, before[q].0);
                    }
                }
            }
        }
        proof {
            lemma_insert_at(before, gv, p as int);
            assert(input.skip(k - 1).skip(1) =~= input.skip(k));
            assert(input.skip(k - 1)[0] == gv);
        }
        out.insert(p, g);
        proof {
            let now = global_views(out@);
            assert(now =~= before.insert(p as int, gv));
            assert forall|i: int, j: int| 0 <= i < j < now.len() implies !name_lt(
                #[trigger] now[j].0,
                #[trigger] now[i].0,
            ) by {
                if i < p && j == p {
                    crate::mode::lemma_name_order_pub(before[i].0, gv.0, gv.0);
                } else if i == p && j > p {
                    assert(now[j] == before[j - 1]);
                } else if i < p && j > p {
                    assert(now[j] == before[j - 1]);
                } else if i > p {
                    assert(now[i] == before[i - 1]);
                    assert(now[j] == before[j - 1]);
                }
            }
            assert(now.remove(p as int) =~= before);
            assert(now[p as int] == gv);
            now.to_multiset_ensures();
            assert(now.contains(gv));
            assert(now.remove(p as int).to_multiset() =~= now.to_multiset().remove(now[p as int]));
            assert(now.to_multiset().remove(gv) =~= before.to_multiset());
            assert(now.to_multiset().count(gv) > 0);
            assert(now.to_multiset() =~= before.to_multiset().insert(gv));
            assert(input.skip(k - 1) =~= seq![gv] + input.skip(k));
            assert(input.skip(k - 1) =~= input.skip(k).insert(0, gv));
            assert(input.skip(k - 1).remove(0) =~= input.skip(k));
            assert(input.skip(k - 1)[0] == gv);
            input.skip(k - 1).to_multiset_ensures();
            assert(input.skip(k - 1).contains(gv));
            assert(input.skip(k - 1).remove(0).to_multiset() =~= input.skip(k - 1).to_multiset().remove(
                input.skip(k - 1)[0],
            ));
            assert(input.skip(k - 1).to_multiset().remove(gv) =~= input.skip(k).to_multiset());
            assert(input.skip(k - 1).to_multiset().count(gv) > 0);
            assert(input.skip(k - 1).to_multiset() =~= input.skip(k).to_multiset().insert(gv));
        }
    }
    proof {
        assert(input.skip(0) =~= input);
    }
    out
}

} // verus!
