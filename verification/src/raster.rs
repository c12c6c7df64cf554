//! The pixel grid that every stage works on.
//!
//! The grid is stored in an `image::RgbImage`. Verus cannot look inside
//! that buffer, so this module names what it holds and states, method by
//! method, what the buffer's accessors do to it. Everything else in the
//! crate is proved against these statements.

use vstd::prelude::*;
use crate::color::Color3b;
use image::DynamicImage;
use image::RgbImage;

verus! {

/// A grid of byte colours, `width` columns by `height` rows.
///
/// The pixels live in an `image::RgbImage`, which stays hidden from the
/// proofs: what is known of an image is what `image_rows` and
/// `image_width` name and what the accessors below state of them.
#[verifier::external_body]
pub struct Image {
    buffer: RgbImage,
}

/// `image::DynamicImage`: a decoded image of whatever pixel format.
/// Nothing is stated of what is inside.
#[verifier::external_type_specification]
#[verifier::external_body]
pub struct ExDynamicImage(DynamicImage);

/// Why a decoded image cannot be converted.
#[derive(Clone, Copy, Debug, PartialEq, Eq, Structural)]
pub enum ConvertError {
    /// The decoded image does not hold 8-bit RGB pixels.
    UnsupportedFormat,
}

impl ConvertError {
    /// The error in words.
    pub fn message(&self) -> (text: &'static str)
        ensures
            text@ == "Could not get mut rgb8"@,
    {
        "Could not get mut rgb8"
    }
}

/// The pixels of an image, row by row from the top, each row from the left.
pub uninterp spec fn image_rows(image: Image) -> Seq<Seq<Color3b>>;

/// The number of pixels in each row of an image.
pub uninterp spec fn image_width(image: Image) -> nat;

/// Every row of `rows` has `width` pixels.
pub open spec fn rectangular(rows: Seq<Seq<Color3b>>, width: nat) -> bool {
    forall|y: int| 0 <= y < rows.len() ==> (#[trigger] rows[y]).len() == width
}

/// The grid that `height` rows of `width` pixels of packed RGB bytes describe.
pub open spec fn rows_of_bytes(data: Seq<u8>, width: nat, height: nat) -> Seq<Seq<Color3b>> {
    Seq::new(
        height,
        |y: int|
            Seq::new(
                width,
                |x: int|
                    Color3b {
                        r: data[3 * (y * width + x)],
                        g: data[3 * (y * width + x) + 1],
                        b: data[3 * (y * width + x) + 2],
                    },
            ),
    )
}

/// `rows` with the pixel in column `x` of row `y` replaced by `c`.
pub open spec fn with_pixel(rows: Seq<Seq<Color3b>>, x: int, y: int, c: Color3b) -> Seq<
    Seq<Color3b>,
> {
    rows.update(y, rows[y].update(x, c))
}

/// `ImageBuffer::from_raw` on a buffer of at least three bytes per pixel:
/// the buffer is accepted, and pixel `(x, y)` is made of the three bytes
/// that start at `3 * (y * width + x)`.
#[verifier::external_body]
fn buffer_from_raw(width: u32, height: u32, data: Vec<u8>) -> (r: Option<Image>)
    requires
        3 * width <= usize::MAX,
        3 * width * height <= data.len(),
    ensures
        r.is_some(),
        image_width(r.unwrap()) == width,
        image_rows(r.unwrap()) == rows_of_bytes(data@, width as nat, height as nat),
{
    RgbImage::from_raw(width, height, data).map(|buffer| Image { buffer })
}

/// `ImageBuffer::into_raw`: the sample buffer, which starts with three
/// bytes for each pixel in row-major order.
#[verifier::external_body]
fn buffer_into_raw(image: Image) -> (data: Vec<u8>)
    ensures
        data.len() >= 3 * image_width(image) * image_rows(image).len(),
        rows_of_bytes(data@, image_width(image), image_rows(image).len()) == image_rows(image),
{
    image.buffer.into_raw()
}

/// `ImageBuffer::width`: the number of columns, which is the length of
/// every row.
#[verifier::external_body]
fn buffer_width(image: &Image) -> (w: u32)
    ensures
        w == image_width(*image),
        rectangular(image_rows(*image), w as nat),
{
    image.buffer.width()
}

/// `ImageBuffer::height`: the number of rows.
#[verifier::external_body]
fn buffer_height(image: &Image) -> (h: u32)
    ensures
        h == image_rows(*image).len(),
{
    image.buffer.height()
}

/// `ImageBuffer::get_pixel`: the channels of the pixel in column `x` of
/// row `y`. The outside method panics out of bounds.
#[verifier::external_body]
fn buffer_get_pixel(image: &Image, x: u32, y: u32) -> (c: Color3b)
    requires
        x < image_width(*image),
        y < image_rows(*image).len(),
    ensures
        c == image_rows(*image)[y as int][x as int],
{
    let p = image.buffer.get_pixel(x, y).0;
    Color3b { r: p[0], g: p[1], b: p[2] }
}

/// `ImageBuffer::get_pixel_mut`, written through: the pixel in column `x`
/// of row `y` takes the channels of `c`; no other pixel and no dimension
/// changes. The outside method panics out of bounds.
#[verifier::external_body]
fn buffer_set_pixel(image: &mut Image, x: u32, y: u32, c: Color3b)
    requires
        x < image_width(*old(image)),
        y < image_rows(*old(image)).len(),
    ensures
        image_width(*final(image)) == image_width(*old(image)),
        image_rows(*final(image)) == with_pixel(image_rows(*old(image)), x as int, y as int, c),
{
    image.buffer.get_pixel_mut(x, y).0 = [c.r, c.g, c.b];
}

/// The 8-bit RGB image that a decoded image holds: one image, or none
/// where the decoded image has another pixel format.
pub uninterp spec fn decoded_rgb8_content(decoded: DynamicImage) -> Seq<Image>;

/// `DynamicImage::as_mut_rgb8`, with the buffer taken out: the 8-bit RGB
/// image that the decoded image holds, or `None` where it holds none.
#[verifier::external_body]
fn decoded_rgb8(decoded: DynamicImage) -> (r: Option<Image>)
    ensures
        r matches Some(image) ==> decoded_rgb8_content(decoded) == seq![image],
        r is None ==> decoded_rgb8_content(decoded) == Seq::<Image>::empty(),
{
    let mut decoded = decoded;
    match decoded.as_mut_rgb8() {
        Some(buffer) => Some(Image { buffer: std::mem::take(buffer) }),
        None => None,
    }
}

impl Image {
    /// The image that a decoder found, or the error that it holds no 8-bit
    /// RGB pixels.
    pub fn from_decoded(rgb8: Option<Image>) -> (r: Result<Image, ConvertError>)
        ensures
            rgb8 matches Some(image) ==> r == Ok::<Image, ConvertError>(image),
            rgb8 is None ==> r == Err::<Image, ConvertError>(ConvertError::UnsupportedFormat),
    {
        match rgb8 {
            Some(image) => Ok(image),
            None => Err(ConvertError::UnsupportedFormat),
        }
    }

    /// The 8-bit RGB image that a decoded image holds. A decoded image of
    /// any other pixel format is refused.
    pub fn from_dynamic(decoded: DynamicImage) -> (r: Result<Image, ConvertError>)
        ensures
            r == if decoded_rgb8_content(decoded).len() == 1 {
                Ok::<Image, ConvertError>(decoded_rgb8_content(decoded)[0])
            } else {
                Err::<Image, ConvertError>(ConvertError::UnsupportedFormat)
            },
    {
        Image::from_decoded(decoded_rgb8(decoded))
    }

    /// An image of `width` by `height` pixels from packed RGB bytes in
    /// row-major order, or `None` if there are fewer than three bytes for
    /// each pixel or a row has more bytes than can be counted.
    pub fn from_raw(width: u32, height: u32, data: Vec<u8>) -> (r: Option<Image>)
        ensures
            r.is_some() <==> 3 * width <= usize::MAX && 3 * width * height <= data.len(),
            r matches Some(image) ==> {
                &&& image_width(image) == width
                &&& image_rows(image) == rows_of_bytes(data@, width as nat, height as nat)
            },
    {
        assert(width * height <= 0xffff_ffff * 0xffff_ffff) by (nonlinear_arith)
            requires
                width <= 0xffff_ffff,
                height <= 0xffff_ffff,
        ;
        let area: u128 = (width as u128) * (height as u128);
        let need: u128 = 3 * area;
        assert(need == 3 * width * height) by (nonlinear_arith)
            requires
                need == 3 * (width * height),
        ;
        if 3 * (width as u128) <= usize::MAX as u128 && need <= data.len() as u128 {
            buffer_from_raw(width, height, data)
        } else {
            None
        }
    }

    /// The sample buffer of the image: it starts with the packed RGB bytes
    /// of the pixels, row by row.
    pub fn into_raw(self) -> (data: Vec<u8>)
        ensures
            data.len() >= 3 * image_width(self) * image_rows(self).len(),
            rows_of_bytes(data@, image_width(self), image_rows(self).len()) == image_rows(self),
    {
        buffer_into_raw(self)
    }

    /// The number of columns.
    pub fn width(&self) -> (w: u32)
        ensures
            w == image_width(*self),
            rectangular(image_rows(*self), w as nat),
    {
        buffer_width(self)
    }

    /// The number of rows.
    pub fn height(&self) -> (h: u32)
        ensures
            h == image_rows(*self).len(),
    {
        buffer_height(self)
    }

    /// The colour of the pixel in column `x` of row `y`.
    pub fn get_pixel(&self, x: u32, y: u32) -> (c: Color3b)
        requires
            x < image_width(*self),
            y < image_rows(*self).len(),
        ensures
            c == image_rows(*self)[y as int][x as int],
    {
        buffer_get_pixel(self, x, y)
    }

    /// Gives the pixel in column `x` of row `y` the colour `c`.
    pub fn put_pixel(&mut self, x: u32, y: u32, c: Color3b)
        requires
            x < image_width(*old(self)),
            y < image_rows(*old(self)).len(),
        ensures
            image_width(*final(self)) == image_width(*old(self)),
            image_rows(*final(self)) == with_pixel(image_rows(*old(self)), x as int, y as int, c),
    {
        buffer_set_pixel(self, x, y, c)
    }
}

} // verus!
