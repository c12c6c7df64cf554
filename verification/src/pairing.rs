//! Pixel pairing: two neighbouring pixels of a row share one colour.
//!
//! In multicolor mode a pixel is two dots wide. The pixel in an odd column
//! therefore repeats the pixel left of it.

use vstd::prelude::*;
use crate::color::Color3b;
use crate::palette::{all_palette, is_palette_color};
use crate::raster::{image_rows, image_width, rectangular, with_pixel, Image};

verus! {

/// A row in which every pixel in an odd column has the colour that the
/// pixel left of it has in `row`.
pub open spec fn paired_row(row: Seq<Color3b>) -> Seq<Color3b> {
    Seq::new(
        row.len(),
        |x: int|
            if x % 2 == 1 {
                row[x - 1]
            } else {
                row[x]
            },
    )
}

/// The image with every row paired.
pub open spec fn paired(rows: Seq<Seq<Color3b>>) -> Seq<Seq<Color3b>> {
    Seq::new(rows.len(), |y: int| paired_row(rows[y]))
}

/// Every pixel in an even column has the colour of its right neighbour,
/// where it has one.
pub open spec fn is_paired(rows: Seq<Seq<Color3b>>) -> bool {
    forall|x: int, y: int|
        0 <= y < rows.len() && 0 <= x && x % 2 == 0 && x + 1 < rows[y].len() ==> #[trigger] rows[y][x]
            == rows[y][x + 1]
}

/// The image in which the rows above `y`, and row `y` left of column `x`,
/// are paired.
spec fn paired_until(rows: Seq<Seq<Color3b>>, x: int, y: int) -> Seq<Seq<Color3b>> {
    Seq::new(
        rows.len(),
        |j: int|
            Seq::new(
                rows[j].len(),
                |i: int|
                    if i % 2 == 1 && (j < y || (j == y && i < x)) {
                        rows[j][i - 1]
                    } else {
                        rows[j][i]
                    },
            ),
    )
}

/// A paired image is paired.
pub proof fn lemma_paired_is_paired(rows: Seq<Seq<Color3b>>)
    ensures
        is_paired(paired(rows)),
{
    let p = paired(rows);
    assert forall|x: int, y: int|
        0 <= y < p.len() && 0 <= x && x % 2 == 0 && x + 1 < p[y].len() implies #[trigger] p[y][x]
        == p[y][x + 1] by {
        assert(p[y] == paired_row(rows[y]));
    }
}

/// Pairing a paired image changes nothing.
pub proof fn lemma_paired_fixed(rows: Seq<Seq<Color3b>>)
    requires
        is_paired(rows),
    ensures
        paired(rows) == rows,
{
    let p = paired(rows);
    assert forall|y: int| 0 <= y < rows.len() implies p[y] == rows[y] by {
        assert forall|x: int| 0 <= x < rows[y].len() implies p[y][x] == rows[y][x] by {
            if x % 2 == 1 {
                assert(rows[y][x - 1] == rows[y][x - 1 + 1]);
            }
        }
        assert(p[y] =~= rows[y]);
    }
    assert(p =~= rows);
}

/// Where every pixel in an even column holds a palette colour, pairing
/// leaves a palette colour in every pixel.
pub proof fn lemma_pairing_spreads_palette(rows: Seq<Seq<Color3b>>)
    requires
        forall|x: int, y: int|
            0 <= y < rows.len() && 0 <= x < rows[y].len() && x % 2 == 0 ==> is_palette_color(
                #[trigger] rows[y][x],
            ),
    ensures
        all_palette(paired(rows)),
{
    let p = paired(rows);
    assert forall|x: int, y: int| 0 <= y < p.len() && 0 <= x < p[y].len() implies is_palette_color(
        #[trigger] p[y][x],
    ) by {
        if x % 2 == 1 {
            assert(is_palette_color(rows[y][x - 1]));
        } else {
            assert(is_palette_color(rows[y][x]));
        }
    }
}

proof fn lemma_paired_until_start(rows: Seq<Seq<Color3b>>)
    ensures
        paired_until(rows, 0, 0) == rows,
{
    let p = paired_until(rows, 0, 0);
    assert forall|y: int| 0 <= y < rows.len() implies p[y] == rows[y] by {
        assert(p[y] =~= rows[y]);
    }
    assert(p =~= rows);
}

proof fn lemma_paired_until_step(rows: Seq<Seq<Color3b>>, x: int, y: int)
    requires
        0 <= y < rows.len(),
        0 <= x < rows[y].len(),
    ensures
        x % 2 == 0 ==> paired_until(rows, x, y) == paired_until(rows, x + 1, y),
        x % 2 == 1 ==> paired_until(rows, x, y)[y][x - 1] == rows[y][x - 1] && with_pixel(
            paired_until(rows, x, y),
            x,
            y,
            rows[y][x - 1],
        ) == paired_until(rows, x + 1, y),
{
    let a = paired_until(rows, x, y);
    let b = paired_until(rows, x + 1, y);
    if x % 2 == 0 {
        assert forall|j: int| 0 <= j < rows.len() implies a[j] == b[j] by {
            assert(a[j] =~= b[j]);
        }
        assert(a =~= b);
    } else {
        let c = with_pixel(a, x, y, rows[y][x - 1]);
        assert forall|j: int| 0 <= j < rows.len() implies c[j] == b[j] by {
            assert(c[j] =~= b[j]);
        }
        assert(c =~= b);
    }
}

proof fn lemma_paired_until_row(rows: Seq<Seq<Color3b>>, width: nat, y: int)
    requires
        rectangular(rows, width),
    ensures
        paired_until(rows, width as int, y) == paired_until(rows, 0, y + 1),
{
    let a = paired_until(rows, width as int, y);
    let b = paired_until(rows, 0, y + 1);
    assert forall|j: int| 0 <= j < rows.len() implies a[j] == b[j] by {
        assert(a[j] =~= b[j]);
    }
    assert(a =~= b);
}

proof fn lemma_paired_until_end(rows: Seq<Seq<Color3b>>)
    ensures
        paired_until(rows, 0, rows.len() as int) == paired(rows),
{
    let a = paired_until(rows, 0, rows.len() as int);
    let b = paired(rows);
    assert forall|j: int| 0 <= j < rows.len() implies a[j] == b[j] by {
        assert(a[j] =~= b[j]);
    }
    assert(a =~= b);
}

/// Gives every pixel in an odd column the colour of the pixel left of it.
///
/// Pixels in even columns keep their colour; so does the last pixel of a
/// row of odd length, which has no partner.
pub fn c64_multicolor_pixel_fix(image: &mut Image)
    ensures
        image_width(*final(image)) == image_width(*old(image)),
        image_rows(*final(image)) == paired(image_rows(*old(image))),
        is_paired(image_rows(*final(image))),
{
    let width = image.width();
    let height = image.height();
    let ghost orig = image_rows(*image);
    proof {
        lemma_paired_until_start(orig);
    }
    let mut y: u32 = 0;
    while y < height
        invariant
            rectangular(orig, width as nat),
            height == orig.len(),
            y <= height,
            image_width(*image) == width,
            image_rows(*image) == paired_until(orig, 0, y as int),
        decreases height - y,
    {
        let mut x: u32 = 0;
        while x < width
            invariant
                rectangular(orig, width as nat),
                height == orig.len(),
                y < height,
                x <= width,
                image_width(*image) == width,
                image_rows(*image) == paired_until(orig, x as int, y as int),
            decreases width - x,
        {
            proof {
                lemma_paired_until_step(orig, x as int, y as int);
            }
            if x % 2 != 0 {
                let left = image.get_pixel(x - 1, y);
                image.put_pixel(x, y, left);
            }
            x += 1;
        }
        proof {
            lemma_paired_until_row(orig, width as nat, y as int);
        }
        y += 1;
    }
    proof {
        lemma_paired_until_end(orig);
        lemma_paired_is_paired(orig);
    }
}

} // verus!
