use c64_dither::color::Color3b;
use c64_dither::raster::{ConvertError, Image};
use image::{DynamicImage, GrayImage, RgbImage, RgbaImage};

#[test]
fn from_raw_reads_packed_rgb() {
    let image = Image::from_raw(2, 1, vec![1, 2, 3, 4, 5, 6]).unwrap();
    assert_eq!(image.width(), 2);
    assert_eq!(image.height(), 1);
    assert_eq!(image.get_pixel(0, 0), Color3b::new(1, 2, 3));
    assert_eq!(image.get_pixel(1, 0), Color3b::new(4, 5, 6));
}

#[test]
fn from_raw_reads_rows_from_the_top() {
    let data: Vec<u8> = (0..18).collect();
    let image = Image::from_raw(3, 2, data).unwrap();
    assert_eq!(image.get_pixel(2, 0), Color3b::new(6, 7, 8));
    assert_eq!(image.get_pixel(0, 1), Color3b::new(9, 10, 11));
    assert_eq!(image.get_pixel(2, 1), Color3b::new(15, 16, 17));
}

#[test]
fn from_raw_rejects_a_short_buffer() {
    assert!(Image::from_raw(2, 2, vec![0; 11]).is_none());
    assert!(Image::from_raw(1, 1, vec![]).is_none());
}

#[test]
fn from_raw_accepts_a_full_or_longer_buffer() {
    assert!(Image::from_raw(2, 2, vec![0; 12]).is_some());
    assert!(Image::from_raw(2, 2, vec![0; 13]).is_some());
    assert!(Image::from_raw(0, 5, vec![]).is_some());
}

#[test]
fn put_pixel_changes_one_pixel_only() {
    let mut image = Image::from_raw(2, 2, vec![0; 12]).unwrap();
    image.put_pixel(1, 0, Color3b::new(7, 8, 9));
    assert_eq!(image.get_pixel(0, 0), Color3b::new(0, 0, 0));
    assert_eq!(image.get_pixel(1, 0), Color3b::new(7, 8, 9));
    assert_eq!(image.get_pixel(0, 1), Color3b::new(0, 0, 0));
    assert_eq!(image.get_pixel(1, 1), Color3b::new(0, 0, 0));
    assert_eq!(image.width(), 2);
    assert_eq!(image.height(), 2);
}

#[test]
fn into_raw_gives_the_bytes_back() {
    let mut image = Image::from_raw(2, 1, vec![1, 2, 3, 4, 5, 6]).unwrap();
    image.put_pixel(0, 0, Color3b::new(9, 8, 7));
    assert_eq!(image.into_raw(), vec![9, 8, 7, 4, 5, 6]);
}

#[test]
fn from_dynamic_takes_rgb8() {
    let mut rgb = RgbImage::new(2, 1);
    rgb.put_pixel(1, 0, image::Rgb([10, 20, 30]));
    let image = Image::from_dynamic(DynamicImage::ImageRgb8(rgb)).unwrap();
    assert_eq!(image.width(), 2);
    assert_eq!(image.height(), 1);
    assert_eq!(image.get_pixel(0, 0), Color3b::new(0, 0, 0));
    assert_eq!(image.get_pixel(1, 0), Color3b::new(10, 20, 30));
}

#[test]
fn from_dynamic_refuses_other_formats() {
    let rgba = Image::from_dynamic(DynamicImage::ImageRgba8(RgbaImage::new(2, 2)));
    assert_eq!(rgba.err(), Some(ConvertError::UnsupportedFormat));
    let gray = Image::from_dynamic(DynamicImage::ImageLuma8(GrayImage::new(2, 2)));
    assert_eq!(gray.err(), Some(ConvertError::UnsupportedFormat));
}

#[test]
fn from_decoded_maps_the_missing_buffer_to_the_error() {
    assert_eq!(Image::from_decoded(None).err(), Some(ConvertError::UnsupportedFormat));
    let image = Image::from_raw(1, 1, vec![1, 2, 3]).unwrap();
    let back = Image::from_decoded(Some(image)).unwrap();
    assert_eq!(back.get_pixel(0, 0), Color3b::new(1, 2, 3));
}

#[test]
fn unsupported_format_has_its_message() {
    assert_eq!(ConvertError::UnsupportedFormat.message(), "Could not get mut rgb8");
}
