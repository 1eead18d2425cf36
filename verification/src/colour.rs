//! Colours of three byte channels.

use vstd::prelude::*;

verus! {

/// A colour: red, green and blue, each from 0 to 255.
#[derive(Clone, Copy, Debug, PartialEq, Eq, Structural)]
pub struct Colour {
    pub r: u8,
    pub g: u8,
    pub b: u8,
}

/// `v` pinned to the range of a byte.
pub open spec fn clamp_byte(v: int) -> u8 {
    if v < 0 {
        0u8
    } else if v > 255 {
        255u8
    } else {
        v as u8
    }
}

/// `v` pinned to the range of a byte.
pub fn to_byte(v: i128) -> (b: u8)
    ensures
        b == clamp_byte(v as int),
{
    if v < 0 {
        0
    } else if v > 255 {
        255
    } else {
        v as u8
    }
}

/// Pinning leaves a byte as it is, takes what lies below the bytes to 0 and
/// what lies above them to 255: no value leaves the range of a channel.
pub proof fn lemma_clamp_byte(v: int)
    ensures
        0 <= clamp_byte(v) <= 255,
        0 <= v <= 255 ==> clamp_byte(v) == v,
        v < 0 ==> clamp_byte(v) == 0,
        v > 255 ==> clamp_byte(v) == 255,
{
}

impl Colour {
    /// The colour of no light at all.
    pub open spec fn spec_black() -> Colour {
        Colour { r: 0, g: 0, b: 0 }
    }

    pub fn new(r: u8, g: u8, b: u8) -> (c: Colour)
        ensures
            c == (Colour { r, g, b }),
    {
        Colour { r, g, b }
    }

    /// The colour of no light at all.
    pub fn black() -> (c: Colour)
        ensures
            c == Colour::spec_black(),
    {
        Colour { r: 0, g: 0, b: 0 }
    }
}

} // verus!
