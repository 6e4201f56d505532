use vstd::prelude::*;

verus! {

/// Largest channel value of a pixel.
pub const MAX_INTENSITY: u32 = 255;

/// `v` clamped to the range of one channel.
pub open spec fn clamp_channel(v: int) -> int {
    if v > MAX_INTENSITY {
        MAX_INTENSITY as int
    } else {
        v
    }
}

/// One RGB pixel of the output image.
#[derive(Clone, Copy, Debug, PartialEq, Eq, Structural)]
pub struct Pixel {
    pub r: u8,
    pub g: u8,
    pub b: u8,
}

/// The gray pixel whose three channels all hold `i`.
pub open spec fn gray(i: u8) -> Pixel {
    Pixel { r: i, g: i, b: i }
}

impl Pixel {
    /// True when the three channels are equal.
    pub open spec fn is_gray(self) -> bool {
        self.r == self.g && self.g == self.b
    }

    pub fn new(r: u8, g: u8, b: u8) -> (p: Pixel)
        ensures
            p.r == r,
            p.g == g,
            p.b == b,
    {
        Pixel { r, g, b }
    }

    /// A gray pixel of intensity `value`, clamped to 255.
    pub fn new_with_clamp(value: u32) -> (p: Pixel)
        ensures
            p == gray(clamp_channel(value as int) as u8),
    {
        let i: u8 = if value > MAX_INTENSITY {
            255
        } else {
            value as u8
        };
        Pixel { r: i, g: i, b: i }
    }
}

} // verus!
