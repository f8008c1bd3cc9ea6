//! The paint colour that a hue number stands for.

use vstd::prelude::*;

verus! {

/// An RGBA colour, one byte per channel.
#[derive(Clone, Copy, Debug, PartialEq, Eq, Structural)]
pub struct Color {
    pub r: u8,
    pub g: u8,
    pub b: u8,
    pub a: u8,
}

impl Color {
    /// Channel `c` of the colour, in the order red, green, blue, alpha.
    pub open spec fn channel(self, c: int) -> u8 {
        if c == 0 {
            self.r
        } else if c == 1 {
            self.g
        } else if c == 2 {
            self.b
        } else {
            self.a
        }
    }
}

/// The colour packed in `hue`: red in the highest byte, then green, blue and
/// alpha in the lowest.
pub open spec fn hue_color(hue: u32) -> Color {
    Color {
        r: (hue / 0x100_0000) as u8,
        g: ((hue / 0x1_0000) % 0x100) as u8,
        b: ((hue / 0x100) % 0x100) as u8,
        a: (hue % 0x100) as u8,
    }
}

/// Maps a hue number to its paint colour. Every `u32` is a hue.
pub fn hue_to_rgba(hue: u32) -> (c: Color)
    ensures
        c == hue_color(hue),
{
    Color {
        r: (hue / 0x100_0000) as u8,
        g: ((hue / 0x1_0000) % 0x100) as u8,
        b: ((hue / 0x100) % 0x100) as u8,
        a: (hue % 0x100) as u8,
    }
}

/// Two hues give the same colour only when they are equal.
pub proof fn lemma_hue_color_injective(hue: u32, other: u32)
    requires
        hue_color(hue) == hue_color(other),
    ensures
        hue == other,
{
    assert(hue == (hue / 0x100_0000) * 0x100_0000 + ((hue / 0x1_0000) % 0x100) * 0x1_0000
        + ((hue / 0x100) % 0x100) * 0x100 + hue % 0x100);
    assert(other == (other / 0x100_0000) * 0x100_0000 + ((other / 0x1_0000) % 0x100) * 0x1_0000
        + ((other / 0x100) % 0x100) * 0x100 + other % 0x100);
}

} // verus!
