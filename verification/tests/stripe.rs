use c64_dither::color::Color3b;
use c64_dither::raster::Image;
use c64_dither::stripe::stripe_effect;

fn letter(c: char) -> Color3b {
    Color3b::new(c as u8, 0, 0)
}

fn image_of_rows(rows: &[&str]) -> Image {
    let mut data = Vec::new();
    for row in rows {
        for c in row.chars() {
            data.push(c as u8);
            data.push(0);
            data.push(0);
        }
    }
    Image::from_raw(rows[0].len() as u32, rows.len() as u32, data).unwrap()
}

fn rows_of(image: &Image) -> Vec<String> {
    let mut rows = Vec::new();
    for y in 0..image.height() {
        let mut row = String::new();
        for x in 0..image.width() {
            row.push(image.get_pixel(x, y).r as char);
        }
        rows.push(row);
    }
    rows
}

#[test]
fn stripes_fill_pixels_between_equal_neighbours() {
    let mut image = image_of_rows(&[
        "ABCBCB",
        "ABCBCB",
        "ABCBCB",
        "ABABAB",
        "ABCBCB",
        "ABCBCB",
    ]);
    stripe_effect(&mut image);
    // In row 3 the pixel in column 2 changes first; the pixel in column 3
    // then finds the changed pixel on its left and stays as it is.
    assert_eq!(
        rows_of(&image),
        vec!["ABCBCB", "ABCBCB", "ABBBCB", "ABBBAB", "ABCBCB", "ABCBCB"]
    );
    assert_eq!(image.get_pixel(2, 2), letter('B'));
}

#[test]
fn stripes_skip_even_pairs_of_rows() {
    let rows = [
        "ABCBCBAB", "ABCBCBAB", "ABCBCBAB", "ABCBCBAB", "ABCBCBAB", "ABCBCBAB", "ABCBCBAB",
        "ABCBCBAB", "ABCBCBAB", "ABCBCBAB",
    ];
    let mut image = image_of_rows(&rows);
    stripe_effect(&mut image);
    let changed = "ABBBBBAB";
    let expected: Vec<&str> = (0..10)
        .map(|y| if y == 2 || y == 3 || y == 6 || y == 7 { changed } else { rows[y] })
        .collect();
    assert_eq!(rows_of(&image), expected);
}

#[test]
fn stripes_leave_small_images_alone() {
    let mut image = image_of_rows(&["ABA", "ABA", "ABA", "ABA"]);
    stripe_effect(&mut image);
    assert_eq!(rows_of(&image), vec!["ABA", "ABA", "ABA", "ABA"]);
    let mut narrow = image_of_rows(&["ABA", "ABA", "ABA", "ABA", "ABA", "ABA"]);
    stripe_effect(&mut narrow);
    assert_eq!(rows_of(&narrow), vec!["ABA", "ABA", "ABA", "ABA", "ABA", "ABA"]);
}
