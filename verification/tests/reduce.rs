use c64_dither::block::{fix_pixel_block, ColorGroup};
use c64_dither::color::Color3b;
use c64_dither::raster::Image;
use c64_dither::reduce::c64_reduce_color_per_block;

fn shade(n: u8) -> Color3b {
    Color3b::new(n, n.wrapping_mul(3), 200)
}

fn image_of(width: u32, height: u32, color_index: &dyn Fn(u32, u32) -> u8) -> Image {
    let mut data = Vec::new();
    for y in 0..height {
        for x in 0..width {
            let c = shade(color_index(x, y));
            data.push(c.r);
            data.push(c.g);
            data.push(c.b);
        }
    }
    Image::from_raw(width, height, data).unwrap()
}

fn distinct_in_tile(image: &Image, tx: u32, ty: u32) -> Vec<Color3b> {
    let mut seen = Vec::new();
    for y in 0..8 {
        for x in 0..8 {
            let c = image.get_pixel(tx * 8 + x, ty * 8 + y);
            if !seen.contains(&c) {
                seen.push(c);
            }
        }
    }
    seen
}

fn scrambled(x: u32, y: u32, colors: u32) -> u8 {
    let mut v = x.wrapping_mul(73856093) ^ y.wrapping_mul(19349663);
    v ^= v >> 13;
    v = v.wrapping_mul(1274126177);
    v ^= v >> 16;
    (v % colors) as u8
}

#[test]
fn every_tile_has_at_most_four_colours_after_reduction() {
    let mut image = image_of(24, 16, &|x, y| scrambled(x, y, 9));
    c64_reduce_color_per_block(&mut image);
    for ty in 0..2 {
        for tx in 0..3 {
            assert!(distinct_in_tile(&image, tx, ty).len() <= 4);
        }
    }
}

#[test]
fn reduction_is_idempotent() {
    let mut once = image_of(24, 17, &|x, y| scrambled(x, y, 7));
    c64_reduce_color_per_block(&mut once);
    let mut twice = image_of(24, 17, &|x, y| scrambled(x, y, 7));
    c64_reduce_color_per_block(&mut twice);
    c64_reduce_color_per_block(&mut twice);
    assert_eq!(once.into_raw(), twice.into_raw());
}

#[test]
fn a_single_pixel_colour_goes_to_the_majority() {
    // 57 pixels of colour 0, two each of colours 1, 2 and 3, one of colour 4.
    let index = |x: u32, y: u32| -> u8 {
        if y == 0 && x < 2 {
            1
        } else if y == 0 && x < 4 {
            2
        } else if y == 0 && x < 6 {
            3
        } else if x == 3 && y == 3 {
            4
        } else {
            0
        }
    };
    let mut image = image_of(8, 8, &index);
    c64_reduce_color_per_block(&mut image);
    assert!(distinct_in_tile(&image, 0, 0).len() <= 4);
    for y in 0..8 {
        for x in 0..8 {
            let expected = if x == 3 && y == 3 { 0 } else { index(x, y) };
            assert_eq!(image.get_pixel(x, y), shade(expected));
        }
    }
}

#[test]
fn a_tile_of_four_colours_is_left_alone() {
    let mut image = image_of(8, 8, &|x, y| ((x + y) % 4) as u8);
    c64_reduce_color_per_block(&mut image);
    for y in 0..8 {
        for x in 0..8 {
            assert_eq!(image.get_pixel(x, y), shade(((x + y) % 4) as u8));
        }
    }
}

#[test]
fn a_uniform_tile_is_left_alone() {
    let mut image = image_of(8, 8, &|_, _| 5);
    c64_reduce_color_per_block(&mut image);
    assert_eq!(distinct_in_tile(&image, 0, 0), vec![shade(5)]);
}

#[test]
fn ties_go_to_the_colour_met_first() {
    // Row by row the tile starts 0 1 2 3 4 5; colours 0 to 3 have ten
    // pixels each, colours 4 and 5 twelve each.
    let index = |x: u32, y: u32| -> u8 {
        let k = y * 8 + x;
        if k < 6 {
            k as u8
        } else if k < 6 + 9 {
            0
        } else if k < 6 + 18 {
            1
        } else if k < 6 + 27 {
            2
        } else if k < 6 + 36 {
            3
        } else if k < 6 + 47 {
            4
        } else {
            5
        }
    };
    let mut image = image_of(8, 8, &index);
    c64_reduce_color_per_block(&mut image);
    for y in 0..8 {
        for x in 0..8 {
            let before = index(x, y);
            let expected = if before == 2 || before == 3 { 4 } else { before };
            assert_eq!(image.get_pixel(x, y), shade(expected));
        }
    }
}

#[test]
fn the_most_frequent_colour_absorbs_not_the_nearest() {
    // Colour 9 fills most of the tile; colours 1 to 4 follow with 3, 3, 3
    // and 2 pixels; colour 5, which differs from colour 4 by one step, has
    // a single pixel and goes to colour 9.
    let index = |x: u32, y: u32| -> u8 {
        let k = y * 8 + x;
        match k {
            0..=2 => 1,
            3..=5 => 2,
            6..=8 => 3,
            9..=10 => 4,
            11 => 5,
            _ => 9,
        }
    };
    let mut image = image_of(8, 8, &index);
    c64_reduce_color_per_block(&mut image);
    assert_eq!(image.get_pixel(3, 1), shade(9));
    assert_eq!(image.get_pixel(1, 1), shade(9));
    assert_eq!(image.get_pixel(2, 1), shade(9));
    assert_eq!(image.get_pixel(0, 1), shade(3));
    assert_eq!(distinct_in_tile(&image, 0, 0).len(), 4);
}

#[test]
fn pixels_outside_whole_tiles_are_untouched() {
    let mut image = image_of(9, 15, &|x, y| scrambled(x, y, 11));
    c64_reduce_color_per_block(&mut image);
    for y in 0..15 {
        assert_eq!(image.get_pixel(8, y), shade(scrambled(8, y, 11)));
    }
    for y in 8..15 {
        for x in 0..9 {
            assert_eq!(image.get_pixel(x, y), shade(scrambled(x, y, 11)));
        }
    }
    assert!(distinct_in_tile(&image, 0, 0).len() <= 4);
}

#[test]
fn an_image_smaller_than_a_tile_is_untouched() {
    let mut image = image_of(7, 7, &|x, y| scrambled(x, y, 11));
    c64_reduce_color_per_block(&mut image);
    for y in 0..7 {
        for x in 0..7 {
            assert_eq!(image.get_pixel(x, y), shade(scrambled(x, y, 11)));
        }
    }
}

#[test]
fn tiles_are_reduced_apart() {
    // The left tile has six colours, the right tile has two.
    let index = |x: u32, y: u32| -> u8 {
        if x < 8 {
            if y == 0 && x < 5 {
                (x + 1) as u8
            } else {
                0
            }
        } else {
            (10 + (y % 2)) as u8
        }
    };
    let mut image = image_of(16, 8, &index);
    c64_reduce_color_per_block(&mut image);
    // Ranking of the left tile: colour 0 (59 pixels), then 1, 2, 3, 4, 5
    // with one pixel each in the order met; 4 and 5 go to colour 0.
    let left: Vec<Color3b> = (0..8).map(|x| image.get_pixel(x, 0)).collect();
    assert_eq!(
        left,
        vec![shade(1), shade(2), shade(3), shade(0), shade(0), shade(0), shade(0), shade(0)]
    );
    for y in 0..8 {
        for x in 8..16 {
            assert_eq!(image.get_pixel(x, y), shade(index(x, y)));
        }
    }
}

#[test]
fn fix_pixel_block_leaves_four_groups_alone() {
    let mut image = image_of(4, 4, &|_, _| 0);
    let mut block = vec![
        ColorGroup { count: 1, color: shade(1), points: vec![(0, 0)] },
        ColorGroup { count: 5, color: shade(2), points: vec![(1, 0)] },
        ColorGroup { count: 3, color: shade(3), points: vec![(2, 0)] },
        ColorGroup { count: 4, color: shade(4), points: vec![(3, 0)] },
    ];
    fix_pixel_block(&mut block, &mut image);
    let counts: Vec<usize> = block.iter().map(|g| g.count).collect();
    assert_eq!(counts, vec![1, 5, 3, 4]);
    assert_eq!(image.into_raw(), image_of(4, 4, &|_, _| 0).into_raw());
}

#[test]
fn fix_pixel_block_merges_the_smallest_groups_into_the_largest() {
    let mut image = image_of(4, 4, &|_, _| 0);
    let mut block = vec![
        ColorGroup { count: 3, color: shade(1), points: vec![(0, 0), (1, 0), (2, 0)] },
        ColorGroup { count: 1, color: shade(2), points: vec![(3, 0)] },
        ColorGroup { count: 2, color: shade(3), points: vec![(0, 1), (1, 1)] },
        ColorGroup { count: 5, color: shade(4), points: vec![(2, 1), (3, 1), (0, 2), (1, 2), (2, 2)] },
        ColorGroup { count: 1, color: shade(5), points: vec![(3, 2)] },
        ColorGroup { count: 1, color: shade(6), points: vec![(0, 3)] },
    ];
    fix_pixel_block(&mut block, &mut image);
    let counts: Vec<usize> = block.iter().map(|g| g.count).collect();
    let colors: Vec<Color3b> = block.iter().map(|g| g.color).collect();
    assert_eq!(counts, vec![7, 3, 2, 1]);
    assert_eq!(colors, vec![shade(4), shade(1), shade(3), shade(2)]);
    assert_eq!(block[0].points.len(), 5);
    for y in 0..4 {
        for x in 0..4 {
            let expected = if (x, y) == (3, 2) || (x, y) == (0, 3) { shade(4) } else { shade(0) };
            assert_eq!(image.get_pixel(x, y), expected);
        }
    }
}
