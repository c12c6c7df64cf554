use c64_dither::color::Color3b;
use c64_dither::dither::{Dither, Sample};
use c64_dither::palette::{c64_palette_all_3b, palette_color};
use c64_dither::raster::{ConvertError, Image};
use image::{DynamicImage, GrayImage, RgbImage};
use palette::{IntoColor, Lab, Srgb};
use vecmath::{vec3_add, vec3_len, vec3_scale, vec3_sub};

fn lab_of(color: Color3b) -> [f32; 3] {
    let rgb = Srgb::from_components((
        color.r as f32 / 255.0,
        color.g as f32 / 255.0,
        color.b as f32 / 255.0,
    ));
    let lab: Lab = rgb.into_lab();
    [lab.l, lab.a, lab.b]
}

fn clamp(s: f32, min: f32, max: f32) -> f32 {
    assert!(min <= max);
    let mut x = s;
    if x < min {
        x = min;
    }
    if x > max {
        x = max;
    }
    x
}

fn measure(color: Color3b, error: [f32; 3]) -> ([u32; 16], [[f32; 3]; 16]) {
    let mut trial = vec3_add(lab_of(color), vec3_scale(error, 0.7));
    trial[0] = clamp(trial[0], 0.0, 100.0);
    trial[1] = clamp(trial[1], -128.0, 127.0);
    trial[2] = clamp(trial[2], -128.0, 127.0);
    let mut distances = [0u32; 16];
    let mut residuals = [[0.0f32; 3]; 16];
    for i in 0..16 {
        let sub = vec3_sub(trial, lab_of(palette_color(i)));
        distances[i] = (vec3_len(sub) * 255.0).abs() as u32;
        residuals[i] = sub;
    }
    (distances, residuals)
}

fn dither(image: Image) -> Dither {
    let mut walk = Dither::begin(image);
    let mut error = [0.0f32; 3];
    while let Some(sample) = walk.pending() {
        if sample.x == 0 {
            error = [0.0, 0.0, 0.0];
        }
        let (distances, residuals) = measure(sample.color, error);
        let entry = walk.resolve(&distances);
        error = vec3_scale(vec3_add(error, residuals[entry]), 0.5);
    }
    walk
}

fn convert(decoded: DynamicImage) -> Result<Image, ConvertError> {
    let image = Image::from_dynamic(decoded)?;
    Ok(dither(image).finish())
}

fn uniform(width: u32, height: u32, color: Color3b) -> Image {
    let mut data = Vec::new();
    for _ in 0..(width * height) {
        data.push(color.r);
        data.push(color.g);
        data.push(color.b);
    }
    Image::from_raw(width, height, data).unwrap()
}

fn gradient(width: u32, height: u32) -> Image {
    let mut data = Vec::new();
    for y in 0..height {
        for x in 0..width {
            data.push((x * 255 / width.max(1)) as u8);
            data.push((y * 255 / height.max(1)) as u8);
            data.push(((x * 7 + y * 13) % 256) as u8);
        }
    }
    Image::from_raw(width, height, data).unwrap()
}

fn only(entry: usize) -> [u32; 16] {
    let mut distances = [1000u32; 16];
    distances[entry] = 1;
    distances
}

#[test]
fn walk_visits_even_columns_row_by_row() {
    let mut walk = Dither::begin(gradient(5, 2));
    let mut visited = Vec::new();
    while let Some(sample) = walk.pending() {
        visited.push((sample.x, sample.y));
        walk.resolve(&only(3));
    }
    assert_eq!(visited, vec![(0, 0), (2, 0), (4, 0), (0, 1), (2, 1), (4, 1)]);
    assert!(walk.is_done());
    assert_eq!(walk.pending(), None);
}

#[test]
fn walk_of_even_width_stops_before_the_last_column() {
    let mut walk = Dither::begin(gradient(4, 1));
    let mut visited = Vec::new();
    while let Some(sample) = walk.pending() {
        visited.push((sample.x, sample.y));
        walk.resolve(&only(0));
    }
    assert_eq!(visited, vec![(0, 0), (2, 0)]);
}

#[test]
fn pending_shows_the_colour_of_the_pixel() {
    let walk = Dither::begin(gradient(4, 4));
    assert!(!walk.is_done());
    assert_eq!(
        walk.pending(),
        Some(Sample { x: 0, y: 0, color: gradient(4, 4).get_pixel(0, 0) })
    );
}

#[test]
fn resolve_gives_the_pixel_the_best_entry() {
    let mut walk = Dither::begin(gradient(3, 1));
    assert_eq!(walk.resolve(&only(7)), 7);
    assert_eq!(walk.resolve(&only(12)), 12);
    assert!(walk.is_done());
    let image = walk.into_image();
    assert_eq!(image.get_pixel(0, 0), palette_color(7));
    assert_eq!(image.get_pixel(1, 0), gradient(3, 1).get_pixel(1, 0));
    assert_eq!(image.get_pixel(2, 0), palette_color(12));
}

#[test]
fn resolve_takes_the_first_of_equal_distances() {
    let mut walk = Dither::begin(gradient(1, 1));
    let mut distances = [9u32; 16];
    distances[4] = 2;
    distances[11] = 2;
    assert_eq!(walk.resolve(&distances), 4);
    assert_eq!(walk.into_image().get_pixel(0, 0), palette_color(4));
}

#[test]
fn the_walk_leaves_odd_columns_as_they_were() {
    let walk = dither(gradient(6, 3));
    let image = walk.into_image();
    let palette = c64_palette_all_3b();
    for y in 0..3 {
        for x in 0..6 {
            if x % 2 == 0 {
                assert!(palette.contains(&image.get_pixel(x, y)));
            } else {
                assert_eq!(image.get_pixel(x, y), gradient(6, 3).get_pixel(x, y));
            }
        }
    }
}

#[test]
fn an_image_without_pixels_is_done_at_once() {
    let walk = Dither::begin(Image::from_raw(0, 4, vec![]).unwrap());
    assert!(walk.is_done());
    assert_eq!(walk.pending(), None);
    let image = walk.finish();
    assert_eq!(image.width(), 0);
    assert_eq!(image.height(), 4);
    let flat = Dither::begin(Image::from_raw(4, 0, vec![]).unwrap());
    assert!(flat.is_done());
    assert_eq!(flat.finish().height(), 0);
}

#[test]
fn a_uniform_palette_image_stays_as_it_is() {
    for entry in 0..16 {
        let color = palette_color(entry);
        let (distances, _) = measure(color, [0.0, 0.0, 0.0]);
        assert_eq!(distances[entry], 0);
        let walk = dither(uniform(16, 8, color));
        let dithered = walk.finish();
        assert_eq!(dithered.into_raw(), uniform(16, 8, color).into_raw());
    }
}

#[test]
fn a_uniform_palette_image_matches_its_own_entry() {
    let color = palette_color(6);
    let mut walk = Dither::begin(uniform(4, 2, color));
    let mut entries = Vec::new();
    let mut error = [0.0f32; 3];
    while let Some(sample) = walk.pending() {
        if sample.x == 0 {
            error = [0.0, 0.0, 0.0];
        }
        let (distances, residuals) = measure(sample.color, error);
        let entry = walk.resolve(&distances);
        error = vec3_scale(vec3_add(error, residuals[entry]), 0.5);
        entries.push(entry);
    }
    assert_eq!(entries, vec![6, 6, 6, 6]);
}

#[test]
fn the_finished_image_meets_every_constraint() {
    let image = dither(gradient(27, 19)).finish();
    assert_eq!(image.width(), 27);
    assert_eq!(image.height(), 19);
    let palette = c64_palette_all_3b();
    for y in 0..19 {
        for x in 0..27 {
            assert!(palette.contains(&image.get_pixel(x, y)));
            if x % 2 == 0 && x + 1 < 27 {
                assert_eq!(image.get_pixel(x, y), image.get_pixel(x + 1, y));
            }
        }
    }
    for ty in 0..2 {
        for tx in 0..3 {
            let mut seen = Vec::new();
            for y in 0..8 {
                for x in 0..8 {
                    let c = image.get_pixel(tx * 8 + x, ty * 8 + y);
                    if !seen.contains(&c) {
                        seen.push(c);
                    }
                }
            }
            assert!(seen.len() <= 4);
        }
    }
}

#[test]
fn width_seven_pairs_six_columns_and_keeps_the_seventh() {
    let dithered = dither(gradient(7, 3)).into_image();
    let finished = dither(gradient(7, 3)).finish();
    for y in 0..3 {
        for x in 0..7 {
            let source_x = if x % 2 == 1 { x - 1 } else { x };
            assert_eq!(finished.get_pixel(x, y), dithered.get_pixel(source_x, y));
        }
        assert_eq!(finished.get_pixel(6, y), dithered.get_pixel(6, y));
    }
}

#[test]
fn dithering_is_deterministic() {
    let first = dither(gradient(20, 10)).finish().into_raw();
    let second = dither(gradient(20, 10)).finish().into_raw();
    assert_eq!(first, second);
}

#[test]
fn a_failing_item_does_not_stop_the_batch() {
    let corrupt = image::load_from_memory(&[0x89, 0x50, 0x4e, 0x47, 1, 2, 3, 4]);
    assert!(corrupt.is_err());
    let items: Vec<Result<DynamicImage, image::ImageError>> = vec![
        Ok(DynamicImage::ImageRgb8(RgbImage::new(8, 8))),
        corrupt,
        Ok(DynamicImage::ImageRgb8(RgbImage::new(3, 5))),
    ];
    let mut failures = Vec::new();
    let mut outputs = Vec::new();
    for (i, item) in items.into_iter().enumerate() {
        match item {
            Ok(decoded) => match convert(decoded) {
                Ok(image) => outputs.push((i, image.width(), image.height())),
                Err(_) => failures.push(i),
            },
            Err(_) => failures.push(i),
        }
    }
    assert_eq!(failures, vec![1]);
    assert_eq!(outputs, vec![(0, 8, 8), (2, 3, 5)]);
}

#[test]
fn an_item_of_another_pixel_format_fails_alone() {
    let items = vec![
        DynamicImage::ImageRgb8(RgbImage::new(2, 2)),
        DynamicImage::ImageLuma8(GrayImage::new(2, 2)),
        DynamicImage::ImageRgb8(RgbImage::new(2, 2)),
    ];
    let results: Vec<Result<Image, ConvertError>> = items.into_iter().map(convert).collect();
    assert!(results[0].is_ok());
    assert_eq!(results[1].as_ref().err(), Some(&ConvertError::UnsupportedFormat));
    assert!(results[2].is_ok());
}
