//! What a config file holds, once parsed.
//!
//! Precedence, lowest to highest: built-in defaults → config file →
//! command-line flags the user actually passed. The eink section is
//! hot-reloadable: the program watches the file and feeds edits through the
//! mode state, so the active mode survives them.

use vstd::prelude::*;

use crate::eink::{default_eink, EinkConfig};
use crate::mode::ModeOverlay;

verus! {

/// Non-pipeline settings. All optional: unset means "use default/flag".
#[derive(Debug, Clone)]
pub struct MirrorConfig {
    /// VNC bind address, e.g. "127.0.0.1:5900".
    pub listen: Option<String>,
    /// Frame rate cap.
    pub fps: Option<u32>,
    /// Output (monitor) name to capture.
    pub output: Option<String>,
    /// Dirty-diff tile size in pixels.
    pub tile_size: Option<u32>,
    /// Force a full-frame refresh every N seconds (ghost clearing). 0 = off.
    pub full_refresh_secs: Option<u64>,
    /// Force a full-frame refresh after N incremental updates. 0 = off.
    pub full_refresh_updates: Option<u64>,
    /// Startup display mode.
    pub mode: Option<String>,
}

impl Default for MirrorConfig {
    fn default() -> (m: Self)
        ensures
            m.listen is None,
            m.fps is None,
            m.output is None,
            m.tile_size is None,
            m.full_refresh_secs is None,
            m.full_refresh_updates is None,
            m.mode is None,
    {
        MirrorConfig {
            listen: None,
            fps: None,
            output: None,
            tile_size: None,
            full_refresh_secs: None,
            full_refresh_updates: None,
            mode: None,
        }
    }
}

/// A whole config file: the eink section, the mirror section, and the
/// configured modes (keyed by distinct names).
#[derive(Debug, Clone)]
pub struct FileConfig {
    pub eink: EinkConfig,
    pub mirror: MirrorConfig,
    pub modes: Vec<(String, ModeOverlay)>,
}

impl Default for FileConfig {
    fn default() -> (f: Self)
        ensures
            f.eink == default_eink(),
            f.mirror.listen is None,
            f.mirror.fps is None,
            f.mirror.output is None,
            f.mirror.tile_size is None,
            f.mirror.full_refresh_secs is None,
            f.mirror.full_refresh_updates is None,
            f.mirror.mode is None,
            f.modes@.len() == 0,
    {
        FileConfig { eink: EinkConfig::default(), mirror: MirrorConfig::default(), modes: Vec::new() }
    }
}

} // verus!
