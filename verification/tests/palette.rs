use c64_dither::color::Color3b;
use c64_dither::palette::{c64_palette_all_3b, palette_color, PALETTE_SIZE};

#[test]
fn palette_has_sixteen_entries_in_declared_order() {
    let all = c64_palette_all_3b();
    assert_eq!(all.len(), 16);
    assert_eq!(PALETTE_SIZE, 16);
    let expected = [
        (0x00, 0x00, 0x00),
        (0xff, 0xff, 0xff),
        (0x9f, 0x4e, 0x44),
        (0x6a, 0xbf, 0xc6),
        (0xa0, 0x57, 0xa3),
        (0x5c, 0xab, 0x5e),
        (0x50, 0x45, 0x9b),
        (0xc9, 0xd4, 0x87),
        (0xa1, 0x68, 0x3c),
        (0x6d, 0x54, 0x12),
        (0xcb, 0x7e, 0x75),
        (0x62, 0x62, 0x62),
        (0x89, 0x89, 0x89),
        (154, 210, 132),
        (0x88, 0x7e, 0xcb),
        (0xad, 0xad, 0xad),
    ];
    for i in 0..16 {
        let (r, g, b) = expected[i];
        assert_eq!(all[i], Color3b::new(r, g, b));
        assert_eq!(palette_color(i), all[i]);
    }
}

#[test]
fn palette_entries_are_distinct() {
    let all = c64_palette_all_3b();
    for i in 0..16 {
        for j in 0..i {
            assert_ne!(all[i], all[j]);
        }
    }
}

#[test]
fn color_new_sets_the_channels() {
    let c = Color3b::new(1, 2, 3);
    assert_eq!(c.r, 1);
    assert_eq!(c.g, 2);
    assert_eq!(c.b, 3);
}
