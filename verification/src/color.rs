//! Byte colours.

use vstd::prelude::*;

verus! {

/// A colour of three 8-bit channels: red, green, blue.
#[derive(Clone, Copy, Debug, PartialEq, Eq, Structural, Hash)]
pub struct Color3b {
    pub r: u8,
    pub g: u8,
    pub b: u8,
}

impl Color3b {
    /// The colour with the given channels.
    pub fn new(r: u8, g: u8, b: u8) -> (c: Color3b)
        ensures
            c == (Color3b { r, g, b }),
    {
        Color3b { r, g, b }
    }
}

} // verus!
