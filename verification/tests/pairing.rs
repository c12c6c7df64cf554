use c64_dither::color::Color3b;
use c64_dither::pairing::c64_multicolor_pixel_fix;
use c64_dither::raster::Image;

fn numbered(width: u32, height: u32) -> Image {
    let mut data = Vec::new();
    for y in 0..height {
        for x in 0..width {
            data.push(x as u8);
            data.push(y as u8);
            data.push(100);
        }
    }
    Image::from_raw(width, height, data).unwrap()
}

#[test]
fn odd_columns_copy_their_left_neighbour() {
    let mut image = numbered(6, 3);
    c64_multicolor_pixel_fix(&mut image);
    for y in 0..3 {
        for x in 0..6 {
            let source_x = if x % 2 == 1 { x - 1 } else { x };
            assert_eq!(image.get_pixel(x, y), Color3b::new(source_x as u8, y as u8, 100));
        }
    }
}

#[test]
fn every_pair_has_one_colour_after_pairing() {
    let mut image = numbered(9, 4);
    c64_multicolor_pixel_fix(&mut image);
    for y in 0..4 {
        let mut x = 0;
        while x + 1 < 9 {
            assert_eq!(image.get_pixel(x, y), image.get_pixel(x + 1, y));
            x += 2;
        }
    }
}

#[test]
fn odd_width_leaves_the_last_column_untouched() {
    let mut image = numbered(7, 2);
    c64_multicolor_pixel_fix(&mut image);
    for y in 0..2 {
        assert_eq!(image.get_pixel(6, y), Color3b::new(6, y as u8, 100));
        assert_eq!(image.get_pixel(5, y), Color3b::new(4, y as u8, 100));
        assert_eq!(image.get_pixel(4, y), Color3b::new(4, y as u8, 100));
        assert_eq!(image.get_pixel(1, y), Color3b::new(0, y as u8, 100));
    }
    assert_eq!(image.width(), 7);
    assert_eq!(image.height(), 2);
}

#[test]
fn pairing_twice_is_pairing_once() {
    let mut once = numbered(8, 3);
    c64_multicolor_pixel_fix(&mut once);
    let mut twice = numbered(8, 3);
    c64_multicolor_pixel_fix(&mut twice);
    c64_multicolor_pixel_fix(&mut twice);
    assert_eq!(once.into_raw(), twice.into_raw());
}

#[test]
fn pairing_an_image_of_one_column_or_none_changes_nothing() {
    let mut one = numbered(1, 3);
    c64_multicolor_pixel_fix(&mut one);
    assert_eq!(one.into_raw(), numbered(1, 3).into_raw());
    let mut none = numbered(0, 3);
    c64_multicolor_pixel_fix(&mut none);
    assert_eq!(none.width(), 0);
    assert_eq!(none.height(), 3);
}
