use vstd::prelude::*;

verus! {

#[verifier::external_type_specification]
#[verifier::external_body]
pub struct ExImageError(image::ImageError);

/// What a decoded image is, as far as the red-pixel check cares.
#[derive(Debug, Clone, Copy, PartialEq, Eq)]
pub enum ImageShape {
    /// It decoded, but not to 8-bit RGB pixels.
    NotRgb8,
    /// It decoded to 8-bit RGB pixels, `width` by `height`.
    Rgb8 { width: u32, height: u32 },
}

/// What `image::load_from_memory` (the format guessed from the bytes) makes of
/// `bytes`: `None` where it cannot decode them, else the shape of the image.
pub uninterp spec fn image_decoding(bytes: Seq<u8>) -> Option<ImageShape>;

/// `image::load_from_memory`, then `DynamicImage::as_rgb8` and the size of the
/// RGB buffer: named by `image_decoding`.
#[verifier::external_body]
fn decode_image(bytes: &[u8]) -> (r: Result<ImageShape, image::ImageError>)
    ensures
        match image_decoding(bytes@) {
            None => r is Err,
            Some(shape) => r matches Ok(s) && s == shape,
        },
{
    image::load_from_memory(bytes).map(|img| match img.as_rgb8() {
        Some(p) => ImageShape::Rgb8 { width: p.width(), height: p.height() },
        None => ImageShape::NotRgb8,
    })
}

/// Why an uploaded image is refused.
#[derive(Debug)]
pub enum PixelRefusal {
    /// The bytes do not decode as an image.
    Undecodable(image::ImageError),
    /// The image has no 8-bit RGB pixels.
    NoRgbPixels,
}

/// Checks an uploaded image: refused where it does not decode or has no 8-bit
/// RGB pixels; else `Ok`, with whether it has a pixel at (0, 0) (it is not empty).
pub fn task2_bull_mode_activated(bytes: &[u8]) -> (r: Result<bool, PixelRefusal>)
    ensures
        match image_decoding(bytes@) {
            None => r matches Err(PixelRefusal::Undecodable(_)),
            Some(ImageShape::NotRgb8) => r matches Err(PixelRefusal::NoRgbPixels),
            Some(ImageShape::Rgb8 { width, height }) => r matches Ok(b) && b == (width > 0 && height
                > 0),
        },
{
    match decode_image(bytes) {
        Err(e) => Err(PixelRefusal::Undecodable(e)),
        Ok(ImageShape::NotRgb8) => Err(PixelRefusal::NoRgbPixels),
        Ok(ImageShape::Rgb8 { width, height }) => Ok(width > 0 && height > 0),
    }
}

} // verus!
