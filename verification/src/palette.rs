//! The sixteen colours of the Commodore 64.

use vstd::prelude::*;
use crate::color::Color3b;

verus! {

/// The number of palette entries.
pub const PALETTE_SIZE: usize = 16;

/// The colour with the given channels.
pub open spec fn rgb(r: u8, g: u8, b: u8) -> Color3b {
    Color3b { r, g, b }
}

/// The palette in its declared order: black, white, red, cyan, purple,
/// green, blue, yellow, orange, brown, light red, dark grey, grey, light
/// green, light blue, light grey.
pub open spec fn c64_palette() -> Seq<Color3b> {
    seq![
        rgb(0x00, 0x00, 0x00),
        rgb(0xff, 0xff, 0xff),
        rgb(0x9f, 0x4e, 0x44),
        rgb(0x6a, 0xbf, 0xc6),
        rgb(0xa0, 0x57, 0xa3),
        rgb(0x5c, 0xab, 0x5e),
        rgb(0x50, 0x45, 0x9b),
        rgb(0xc9, 0xd4, 0x87),
        rgb(0xa1, 0x68, 0x3c),
        rgb(0x6d, 0x54, 0x12),
        rgb(0xcb, 0x7e, 0x75),
        rgb(0x62, 0x62, 0x62),
        rgb(0x89, 0x89, 0x89),
        rgb(154, 210, 132),
        rgb(0x88, 0x7e, 0xcb),
        rgb(0xad, 0xad, 0xad),
    ]
}

/// `c` is one of the sixteen palette colours.
pub open spec fn is_palette_color(c: Color3b) -> bool {
    exists|i: int| 0 <= i < 16 && #[trigger] c64_palette()[i] == c
}

/// Every pixel of the image holds a palette colour.
pub open spec fn all_palette(rows: Seq<Seq<Color3b>>) -> bool {
    forall|x: int, y: int|
        0 <= y < rows.len() && 0 <= x < rows[y].len() ==> is_palette_color(#[trigger] rows[y][x])
}

/// The palette entry with index `i`.
pub fn palette_color(i: usize) -> (c: Color3b)
    requires
        i < 16,
    ensures
        c == c64_palette()[i as int],
        is_palette_color(c),
{
    let c = match i {
        0 => Color3b::new(0x00, 0x00, 0x00),
        1 => Color3b::new(0xff, 0xff, 0xff),
        2 => Color3b::new(0x9f, 0x4e, 0x44),
        3 => Color3b::new(0x6a, 0xbf, 0xc6),
        4 => Color3b::new(0xa0, 0x57, 0xa3),
        5 => Color3b::new(0x5c, 0xab, 0x5e),
        6 => Color3b::new(0x50, 0x45, 0x9b),
        7 => Color3b::new(0xc9, 0xd4, 0x87),
        8 => Color3b::new(0xa1, 0x68, 0x3c),
        9 => Color3b::new(0x6d, 0x54, 0x12),
        10 => Color3b::new(0xcb, 0x7e, 0x75),
        11 => Color3b::new(0x62, 0x62, 0x62),
        12 => Color3b::new(0x89, 0x89, 0x89),
        13 => Color3b::new(154, 210, 132),
        14 => Color3b::new(0x88, 0x7e, 0xcb),
        _ => Color3b::new(0xad, 0xad, 0xad),
    };
    assert(c64_palette()[i as int] == c);
    c
}

/// The whole palette, in its declared order.
pub fn c64_palette_all_3b() -> (all: Vec<Color3b>)
    ensures
        all@ == c64_palette(),
{
    let mut all: Vec<Color3b> = Vec::new();
    let mut i: usize = 0;
    while i < PALETTE_SIZE
        invariant
            i <= PALETTE_SIZE,
            all.len() == i,
            forall|j: int| 0 <= j < i ==> all[j] == c64_palette()[j],
        decreases PALETTE_SIZE - i,
    {
        all.push(palette_color(i));
        i += 1;
    }
    assert(all@ =~= c64_palette());
    all
}

} // verus!
