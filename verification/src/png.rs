//! PNG encoding of frame pixels, done by the `image` crate.
use vstd::prelude::*;
use image::ImageEncoder;

verus! {

#[verifier::external_type_specification]
#[verifier::external_body]
pub struct ExImageError(image::ImageError);

/// The bytes of the PNG file that `image`'s PNG encoder writes for `pixels`,
/// an image of `width` by `height` pixels of 8-bit red, green, blue (and, if
/// `has_alpha`, alpha) channels; `None` where the encoder reports an error.
pub uninterp spec fn png_image(pixels: Seq<u8>, width: u32, height: u32, has_alpha: bool) -> Option<
    Seq<u8>,
>;

/// The number of bytes per pixel.
pub open spec fn channels(has_alpha: bool) -> int {
    if has_alpha {
        4
    } else {
        3
    }
}

/// Encodes `pixels` as a PNG image with `image::codecs::png::PngEncoder::write_image`
/// (color type `Rgb8`, or `Rgba8` where `has_alpha`, default compression and
/// filter), writing into a byte vector; this is what `image::save_buffer` writes
/// to a `.png` path. Claimed, not proved: the call succeeds exactly where
/// `png_image` is `Some`, and then returns those bytes. `write_image` asserts
/// that the buffer holds `width * height` pixels, so `requires` asks for that.
#[verifier::external_body]
pub(crate) fn encode_png(pixels: &[u8], width: u32, height: u32, has_alpha: bool) -> (res: Result<
    Vec<u8>,
    image::ImageError,
>)
    requires
        pixels@.len() == width * height * channels(has_alpha),
    ensures
        res is Ok <==> png_image(pixels@, width, height, has_alpha) is Some,
        res matches Ok(bytes) ==> png_image(pixels@, width, height, has_alpha) == Some(bytes@),
{
    let color = if has_alpha { image::ColorType::Rgba8 } else { image::ColorType::Rgb8 };
    let mut out: Vec<u8> = Vec::new();
    match image::codecs::png::PngEncoder::new(&mut out).write_image(pixels, width, height, color) {
        Ok(()) => Ok(out),
        Err(e) => Err(e),
    }
}

} // verus!
