//! The color value written into the pixel buffer: three bytes, red, green,
//! blue, in the order they occupy a pixel's slot of the buffer.

use vstd::prelude::*;

verus! {

/// An RGB color, one byte per channel.
#[derive(Clone, Copy, PartialEq, Eq, Structural, Debug)]
pub struct Rgb {
    pub r: u8,
    pub g: u8,
    pub b: u8,
}

impl Rgb {
    /// Builds a color from its three channels.
    pub fn new(r: u8, g: u8, b: u8) -> (c: Rgb)
        ensures
            c == (Rgb { r, g, b }),
    {
        Rgb { r, g, b }
    }

    /// The channel of the color at a pixel-relative byte offset:
    /// red at 0, green at 1, blue at 2.
    pub open spec fn channel(self, off: int) -> u8 {
        if off == 0 {
            self.r
        } else if off == 1 {
            self.g
        } else {
            self.b
        }
    }
}

} // verus!
