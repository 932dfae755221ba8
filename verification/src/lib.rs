//! PaperCast: a verified e-ink mirroring pipeline.
//!
//! The library holds the pixel pipeline (grayscale, tone, sharpening,
//! scaling, quantization), dirty-tile detection, the native wire protocol,
//! the receiver framebuffer, display-mode resolution and the decision logic
//! of both output transports. Capture, sockets and the command line live in
//! the program around it.

pub mod frame;
pub mod pixel;
pub mod tiles;
pub mod proto;
pub mod dither;
pub mod sharpen;
pub mod scale;
pub mod eink;
pub mod mode;
pub mod recv;
pub mod transport;
pub mod overlay;
pub mod test_pattern;
pub mod probe;
pub mod cli;
pub mod config;
pub mod control;
pub mod capture;
