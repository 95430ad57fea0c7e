use cch23::day11::{task2_bull_mode_activated, PixelRefusal};
use std::io::Cursor;

fn png_of(img: image::DynamicImage) -> Vec<u8> {
    let mut out = Cursor::new(Vec::new());
    img.write_to(&mut out, image::ImageOutputFormat::Png).unwrap();
    out.into_inner()
}

#[test]
fn rgb_image_is_accepted() {
    let bytes = png_of(image::DynamicImage::ImageRgb8(image::RgbImage::new(3, 2)));
    assert!(matches!(task2_bull_mode_activated(&bytes), Ok(true)));
}

#[test]
fn grey_image_has_no_rgb_pixels() {
    let bytes = png_of(image::DynamicImage::ImageLuma8(image::GrayImage::new(3, 2)));
    assert!(matches!(task2_bull_mode_activated(&bytes), Err(PixelRefusal::NoRgbPixels)));
}

#[test]
fn garbage_is_undecodable() {
    assert!(matches!(task2_bull_mode_activated(b"not an image"), Err(PixelRefusal::Undecodable(_))));
    assert!(matches!(task2_bull_mode_activated(&[]), Err(PixelRefusal::Undecodable(_))));
}
