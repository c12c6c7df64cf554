//! A stripe effect: in every second pair of rows, a pixel between two
//! pixels of one colour takes that colour.
//!
//! The effect is no part of the conversion. It can be applied to an image
//! on its own.

use vstd::prelude::*;
use crate::color::Color3b;
use crate::raster::{image_rows, image_width, rectangular, with_pixel, Image};

verus! {

/// Row `y` of an image of the given rows takes part in the effect: it is
/// neither among the first two nor among the last two rows, and it lies in
/// an odd pair of rows.
pub open spec fn in_band(rows: Seq<Seq<Color3b>>, y: int) -> bool {
    2 <= y < rows.len() - 2 && (y / 2) % 2 == 1
}

/// The row after the effect has gone from column 2 up to, but not into,
/// column `upto`. Each pixel is compared with its neighbours as they are
/// when its turn comes: the left one may have changed just before.
pub open spec fn striped_row(row: Seq<Color3b>, upto: int) -> Seq<Color3b>
    decreases upto,
{
    if upto <= 2 {
        row
    } else {
        let before = striped_row(row, upto - 1);
        if upto < row.len() && before[upto - 2] == before[upto] {
            before.update(upto - 1, before[upto - 2])
        } else {
            before
        }
    }
}

/// The image after the effect: in each row that takes part, the columns
/// from 2 to `width - 3` have been gone through.
pub open spec fn striped(rows: Seq<Seq<Color3b>>, width: nat) -> Seq<Seq<Color3b>> {
    Seq::new(
        rows.len(),
        |y: int|
            if in_band(rows, y) {
                striped_row(rows[y], width - 2)
            } else {
                rows[y]
            },
    )
}

/// The image in which the rows above `y` are done, and row `y` up to
/// column `x`.
spec fn striped_until(rows: Seq<Seq<Color3b>>, width: nat, x: int, y: int) -> Seq<Seq<Color3b>> {
    Seq::new(
        rows.len(),
        |j: int|
            if in_band(rows, j) && j < y {
                striped_row(rows[j], width - 2)
            } else if in_band(rows, j) && j == y {
                striped_row(rows[j], x)
            } else {
                rows[j]
            },
    )
}

/// The effect keeps the length of a row.
pub proof fn lemma_striped_row_len(row: Seq<Color3b>, upto: int)
    ensures
        striped_row(row, upto).len() == row.len(),
    decreases upto,
{
    if upto > 2 {
        lemma_striped_row_len(row, upto - 1);
    }
}

proof fn lemma_striped_until_start(rows: Seq<Seq<Color3b>>, width: nat)
    ensures
        striped_until(rows, width, 2, 2) == rows,
{
    let a = striped_until(rows, width, 2, 2);
    assert(a =~= rows);
}

proof fn lemma_striped_until_row(rows: Seq<Seq<Color3b>>, width: nat, x: int, y: int)
    requires
        x == width - 2 || (x == 2 && width - 2 <= 2) || !in_band(rows, y),
    ensures
        striped_until(rows, width, x, y) == striped_until(rows, width, 2, y + 1),
{
    let a = striped_until(rows, width, x, y);
    let b = striped_until(rows, width, 2, y + 1);
    assert forall|j: int| 0 <= j < rows.len() implies a[j] == b[j] by {
        if in_band(rows, j) && j == y && x != width - 2 {
            assert(striped_row(rows[j], x) == rows[j]);
            assert(striped_row(rows[j], width - 2) == rows[j]);
        }
    }
    assert(a =~= b);
}

proof fn lemma_striped_until_end(rows: Seq<Seq<Color3b>>, width: nat, y: int)
    requires
        y >= rows.len() - 2,
    ensures
        striped_until(rows, width, 2, y) == striped(rows, width),
{
    assert(striped_until(rows, width, 2, y) =~= striped(rows, width));
}

proof fn lemma_striped_until_step(rows: Seq<Seq<Color3b>>, width: nat, x: int, y: int)
    requires
        rectangular(rows, width),
        in_band(rows, y),
        2 <= x < width - 2,
    ensures
        striped_until(rows, width, x, y)[y] == striped_row(rows[y], x),
        striped_row(rows[y], x).len() == width,
        striped_row(rows[y], x)[x - 1] != striped_row(rows[y], x)[x + 1] ==> striped_until(
            rows,
            width,
            x,
            y,
        ) == striped_until(rows, width, x + 1, y),
        striped_row(rows[y], x)[x - 1] == striped_row(rows[y], x)[x + 1] ==> with_pixel(
            striped_until(rows, width, x, y),
            x,
            y,
            striped_row(rows[y], x)[x - 1],
        ) == striped_until(rows, width, x + 1, y),
{
    let a = striped_until(rows, width, x, y);
    let b = striped_until(rows, width, x + 1, y);
    let before = striped_row(rows[y], x);
    lemma_striped_row_len(rows[y], x);
    assert(rows[y].len() == width);
    assert(striped_row(rows[y], x + 1) == if before[x - 1] == before[x + 1] {
        before.update(x, before[x - 1])
    } else {
        before
    });
    if before[x - 1] == before[x + 1] {
        let c = with_pixel(a, x, y, before[x - 1]);
        assert forall|j: int| 0 <= j < rows.len() implies c[j] == b[j] by {
            if j == y {
                assert(c[j] =~= b[j]);
            }
        }
        assert(c =~= b);
    } else {
        assert(a =~= b);
    }
}

/// Applies the stripe effect.
///
/// The rows 2 to `height - 3` are gone through from the top, and of these
/// the rows `y` with `y / 2` odd are changed: there the columns 2 to
/// `width - 3` are gone through from the left, and a pixel whose left and
/// right neighbours have one colour takes that colour.
pub fn stripe_effect(image: &mut Image)
    requires
        image_rows(*old(image)).len() >= 2,
        image_rows(*old(image)).len() <= 4 || image_width(*old(image)) >= 2,
    ensures
        image_width(*final(image)) == image_width(*old(image)),
        image_rows(*final(image)) == striped(image_rows(*old(image)), image_width(*old(image))),
{
    let height = image.height();
    let width = image.width();
    let ghost orig = image_rows(*image);
    let ghost w = width as nat;
    proof {
        lemma_striped_until_start(orig, w);
    }
    let mut y: u32 = 2;
    while y < height - 2
        invariant
            rectangular(orig, w),
            w == width,
            height == orig.len(),
            height >= 2,
            height <= 4 || width >= 2,
            2 <= y,
            image_width(*image) == w,
            image_rows(*image) == striped_until(orig, w, 2, y as int),
        decreases height - y,
    {
        let mut x: u32 = 2;
        while x < width - 2
            invariant
                rectangular(orig, w),
                w == width,
                height == orig.len(),
                width >= 2,
                2 <= y < height - 2,
                2 <= x,
                x <= width - 2 || x == 2,
                image_width(*image) == w,
                image_rows(*image) == striped_until(orig, w, x as int, y as int),
            decreases width - x,
        {
            if (y / 2) % 2 == 0 {
                proof {
                    assert(striped_until(orig, w, x as int, y as int) =~= striped_until(
                        orig,
                        w,
                        x + 1,
                        y as int,
                    ));
                }
            } else {
                proof {
                    lemma_striped_until_step(orig, w, x as int, y as int);
                }
                let left = image.get_pixel(x - 1, y);
                let right = image.get_pixel(x + 1, y);
                if left == right {
                    image.put_pixel(x, y, left);
                }
            }
            x += 1;
        }
        proof {
            lemma_striped_until_row(orig, w, x as int, y as int);
        }
        y += 1;
    }
    proof {
        lemma_striped_until_end(orig, w, y as int);
    }
}

} // verus!
