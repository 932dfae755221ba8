//! Frame and geometry types shared between capture, pipeline, and server.

use vstd::prelude::*;

verus! {

/// A rectangle in output-framebuffer pixel coordinates.
#[derive(Debug, Clone, Copy, PartialEq, Eq, Structural)]
pub struct Rect {
    pub x: u32,
    pub y: u32,
    pub width: u32,
    pub height: u32,
}

impl Rect {
    pub fn new(x: u32, y: u32, width: u32, height: u32) -> (r: Self)
        ensures
            r == (Rect { x, y, width, height }),
    {
        Rect { x, y, width, height }
    }
}

/// Pixel layout of a captured frame's byte buffer.
#[derive(Debug, Clone, Copy, PartialEq, Eq, Structural)]
pub enum PixelFormat {
    /// 4 bytes per pixel, memory order B,G,R,X (wl_shm xrgb8888 on
    /// little-endian, the most common compositor format).
    Bgrx8888,
    /// 4 bytes per pixel, memory order R,G,B,X.
    Rgbx8888,
    /// 1 byte per pixel grayscale (pipeline output, test sources).
    Gray8,
}

impl PixelFormat {
    /// Bytes one pixel takes in this layout.
    pub open spec fn spec_bytes_per_pixel(self) -> nat {
        match self {
            PixelFormat::Gray8 => 1,
            _ => 4,
        }
    }

    pub fn bytes_per_pixel(&self) -> (n: usize)
        ensures
            n == self.spec_bytes_per_pixel(),
    {
        match self {
            PixelFormat::Bgrx8888 | PixelFormat::Rgbx8888 => 4,
            PixelFormat::Gray8 => 1,
        }
    }
}

/// One captured (or generated) frame handed from a source to the pipeline.
#[derive(Debug, Clone)]
pub struct Frame {
    pub width: u32,
    pub height: u32,
    pub format: PixelFormat,
    /// Row-major pixel data; rows are tightly packed (stride == width * bpp).
    /// Capture backends with padded strides must repack before handing off.
    pub data: Vec<u8>,
}

impl Frame {
    /// The buffer holds exactly `width * height` pixels of its format.
    pub open spec fn well_formed(self) -> bool {
        self.data@.len() == self.width * self.height * self.format.spec_bytes_per_pixel()
    }
}

} // verus!
