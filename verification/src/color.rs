use vstd::prelude::*;

verus! {

/// An RGBA colour with one byte per channel, in the order red, green,
/// blue, alpha.
#[derive(Clone, Copy, PartialEq, Eq, Debug, Structural)]
pub struct Color {
    pub r: u8,
    pub g: u8,
    pub b: u8,
    pub a: u8,
}

/// Opaque white: every channel at its maximum.
pub open spec fn spec_white() -> Color {
    Color { r: 255, g: 255, b: 255, a: 255 }
}

/// The channel of `c` numbered `ch`: 0 red, 1 green, 2 blue, 3 alpha.
pub open spec fn channel(c: Color, ch: int) -> u8 {
    if ch == 0 {
        c.r
    } else if ch == 1 {
        c.g
    } else if ch == 2 {
        c.b
    } else {
        c.a
    }
}

impl Color {
    /// Builds a colour from its four channels.
    pub fn new(r: u8, g: u8, b: u8, a: u8) -> (c: Color)
        ensures
            c.r == r,
            c.g == g,
            c.b == b,
            c.a == a,
    {
        Color { r, g, b, a }
    }

    /// Opaque white.
    pub fn white() -> (c: Color)
        ensures
            c == spec_white(),
    {
        Color { r: 255, g: 255, b: 255, a: 255 }
    }
}

} // verus!
