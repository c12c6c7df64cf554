//! Error-diffusion dithering onto the palette, one pixel at a time.
//!
//! The image is walked row by row, and in each row from left to right
//! over the even columns only: the odd columns are filled by pixel pairing
//! afterwards. For each pixel of the walk the caller measures the distance
//! of the colour it wants there to each palette entry and hands the
//! sixteen distances in; the walk gives the pixel the best entry, says
//! which it was, and moves on. The error that the caller carries from
//! pixel to pixel starts afresh with each row, that is at each pixel in
//! column 0.

use vstd::prelude::*;
use crate::color::Color3b;
use crate::matcher::{is_best_entry, rgbv_error_table};
use crate::pairing::{
    c64_multicolor_pixel_fix, is_paired, lemma_pairing_spreads_palette, paired,
};
use crate::palette::{all_palette, c64_palette, is_palette_color};
use crate::raster::{image_rows, image_width, rectangular, with_pixel, Image};
use crate::reduce::c64_reduce_color_per_block;
use crate::tile::{reduced, reduction_keeps_pairs, reduction_keeps_palette, within_budget};

verus! {

/// A pixel that awaits its palette entry: its column, its row, and the
/// colour it holds now.
#[derive(Clone, Copy, Debug, PartialEq, Eq, Structural)]
pub struct Sample {
    pub x: u32,
    pub y: u32,
    pub color: Color3b,
}

/// The walk of an image that is being dithered.
pub struct Dither {
    image: Image,
    x: u32,
    y: u32,
    source: Ghost<Seq<Seq<Color3b>>>,
}

/// The pixel `(x, y)` lies in an even column and comes before the pixel
/// `(cx, cy)` when the image is read row by row.
pub open spec fn visited(x: int, y: int, cx: int, cy: int) -> bool {
    x % 2 == 0 && (y < cy || (y == cy && x < cx))
}

/// The column of the pixel that follows `(cx, cy)` in the walk of an image
/// of the given width.
pub open spec fn next_column(cx: int, width: int) -> int {
    if cx + 2 < width {
        cx + 2
    } else {
        0
    }
}

/// The row of the pixel that follows `(cx, cy)` in the walk of an image of
/// the given width.
pub open spec fn next_row(cx: int, cy: int, width: int) -> int {
    if cx + 2 < width {
        cy
    } else {
        cy + 1
    }
}

impl Dither {
    /// The pixels as they are now.
    pub closed spec fn rows(&self) -> Seq<Seq<Color3b>> {
        image_rows(self.image)
    }

    /// The pixels as they were when the walk began.
    pub closed spec fn source(&self) -> Seq<Seq<Color3b>> {
        self.source@
    }

    /// The width of the image.
    pub closed spec fn width(&self) -> nat {
        image_width(self.image)
    }

    /// The column of the pixel that the walk has reached.
    pub closed spec fn column(&self) -> int {
        self.x as int
    }

    /// The row of the pixel that the walk has reached.
    pub closed spec fn row(&self) -> int {
        self.y as int
    }

    /// The walk has passed the last pixel.
    pub open spec fn done(&self) -> bool {
        self.row() == self.rows().len()
    }

    /// The walk stands on a pixel of an even column, or behind the last
    /// row; every pixel that it has passed holds a palette colour, and
    /// every other pixel is as it was at the start.
    pub open spec fn wf(&self) -> bool {
        &&& rectangular(self.rows(), self.width())
        &&& rectangular(self.source(), self.width())
        &&& self.rows().len() == self.source().len()
        &&& self.width() <= u32::MAX
        &&& self.rows().len() <= u32::MAX
        &&& 0 <= self.row() <= self.rows().len()
        &&& self.row() < self.rows().len() ==> 0 <= self.column() < self.width() && self.column()
            % 2 == 0
        &&& self.row() == self.rows().len() ==> self.column() == 0
        &&& forall|x: int, y: int|
            0 <= y < self.rows().len() && 0 <= x < self.width() ==> if visited(
                x,
                y,
                self.column(),
                self.row(),
            ) {
                is_palette_color(#[trigger] self.rows()[y][x])
            } else {
                self.rows()[y][x] == self.source()[y][x]
            }
    }

    /// Starts the walk at the top left pixel. The walk of an image without
    /// pixels is done at once.
    pub fn begin(image: Image) -> (walk: Dither)
        ensures
            walk.wf(),
            walk.rows() == image_rows(image),
            walk.source() == image_rows(image),
            walk.width() == image_width(image),
            walk.column() == 0,
            walk.row() == if image_width(image) == 0 {
                image_rows(image).len() as int
            } else {
                0
            },
    {
        let ghost source = image_rows(image);
        let width = image.width();
        let height = image.height();
        let y = if width == 0 {
            height
        } else {
            0
        };
        Dither { image, x: 0, y, source: Ghost(source) }
    }

    /// Whether the walk has passed the last pixel.
    pub fn is_done(&self) -> (b: bool)
        requires
            self.wf(),
        ensures
            b == self.done(),
    {
        self.y == self.image.height()
    }

    /// The pixel that the walk has reached, or `None` when it is done.
    pub fn pending(&self) -> (r: Option<Sample>)
        requires
            self.wf(),
        ensures
            r.is_none() <==> self.done(),
            r matches Some(sample) ==> {
                &&& sample.x == self.column()
                &&& sample.y == self.row()
                &&& sample.color == self.rows()[self.row()][self.column()]
                &&& sample.color == self.source()[self.row()][self.column()]
            },
    {
        if self.y < self.image.height() {
            let color = self.image.get_pixel(self.x, self.y);
            assert(!visited(self.column(), self.row(), self.column(), self.row()));
            assert(self.rows()[self.row()][self.column()] == self.source()[self.row()][self.column()]);
            Some(Sample { x: self.x, y: self.y, color })
        } else {
            None
        }
    }

    /// Gives the pixel that the walk has reached the best palette entry
    /// for the given distances, and moves on to the next pixel.
    ///
    /// `distances[i]` is the distance of the colour wanted to palette
    /// entry `i`. The best entry is the first one with the least distance;
    /// its index is returned.
    pub fn resolve(&mut self, distances: &[u32; 16]) -> (entry: usize)
        requires
            old(self).wf(),
            !old(self).done(),
        ensures
            final(self).wf(),
            is_best_entry(distances@, entry as int),
            final(self).source() == old(self).source(),
            final(self).width() == old(self).width(),
            final(self).rows() == with_pixel(
                old(self).rows(),
                old(self).column(),
                old(self).row(),
                c64_palette()[entry as int],
            ),
            final(self).column() == next_column(old(self).column(), old(self).width() as int),
            final(self).row() == next_row(
                old(self).column(),
                old(self).row(),
                old(self).width() as int,
            ),
    {
        let ghost before = self.rows();
        let ghost cx = self.column();
        let ghost cy = self.row();
        let errors = rgbv_error_table(distances);
        let best = errors[0];
        let width = self.image.width();
        self.image.put_pixel(self.x, self.y, best.color);
        if width - self.x > 2 {
            self.x = self.x + 2;
        } else {
            self.x = 0;
            self.y = self.y + 1;
        }
        proof {
            let after = self.rows();
            let nx = self.column();
            let ny = self.row();
            assert(after == with_pixel(before, cx, cy, best.color));
            assert forall|x: int, y: int| 0 <= y < after.len() && 0 <= x < self.width() implies if visited(
                x,
                y,
                nx,
                ny,
            ) {
                is_palette_color(#[trigger] after[y][x])
            } else {
                after[y][x] == self.source()[y][x]
            } by {
                assert(visited(x, y, nx, ny) == (visited(x, y, cx, cy) || (x == cx && y == cy)));
                if !(x == cx && y == cy) {
                    assert(after[y][x] == before[y][x]);
                    if visited(x, y, cx, cy) {
                        assert(is_palette_color(before[y][x]));
                    } else {
                        assert(before[y][x] == self.source()[y][x]);
                    }
                }
            }
            assert(rectangular(after, self.width())) by {
                assert forall|y: int| 0 <= y < after.len() implies (#[trigger] after[y]).len()
                    == self.width() by {
                    assert(before[y].len() == self.width());
                }
            }
        }
        best.entry
    }

    /// Hands the image out as the walk leaves it, neither paired nor
    /// reduced.
    pub fn into_image(self) -> (image: Image)
        ensures
            image_width(image) == self.width(),
            image_rows(image) == self.rows(),
    {
        self.image
    }

    /// Ends the walk: pairs the pixels, brings every tile within its
    /// budget of four colours, and hands the image out.
    ///
    /// Every pixel pair of the result has one colour, and every whole tile
    /// holds at most four. After a walk that was done, every pixel holds a
    /// palette colour.
    pub fn finish(self) -> (image: Image)
        requires
            self.wf(),
        ensures
            image_width(image) == self.width(),
            image_rows(image) == reduced(paired(self.rows()), self.width()),
            is_paired(image_rows(image)),
            within_budget(image_rows(image), image_width(image)),
            self.done() ==> all_palette(image_rows(image)),
    {
        let ghost rows = self.rows();
        let ghost width = self.width();
        let ghost done = self.done();
        let mut image = self.image;
        c64_multicolor_pixel_fix(&mut image);
        proof {
            let p = paired(rows);
            assert(rectangular(p, width)) by {
                assert forall|y: int| 0 <= y < p.len() implies (#[trigger] p[y]).len() == width by {
                    assert(rows[y].len() == width);
                }
            }
            reduction_keeps_pairs(p, width);
            if done {
                assert forall|x: int, y: int|
                    0 <= y < rows.len() && 0 <= x < rows[y].len() && x % 2 == 0 implies is_palette_color(
                    #[trigger] rows[y][x],
                ) by {
                    assert(rows[y].len() == width);
                    assert(visited(x, y, self.column(), self.row()));
                }
                lemma_pairing_spreads_palette(rows);
                reduction_keeps_palette(p, width);
            }
        }
        c64_reduce_color_per_block(&mut image);
        image
    }
}

} // verus!
