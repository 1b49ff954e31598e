//! The bridge to the external image codecs: decoding an encoded byte
//! buffer into a width, a height and a flat row-major RGB byte buffer,
//! and encoding such a buffer as PNG bytes.
//!
//! Both codec calls compute a result from their arguments alone, so each
//! result is given a name that the callers' contracts speak of exactly.

use vstd::prelude::*;

verus! {

/// What decoding an encoded image byte buffer yields: `None` when the
/// buffer cannot be decoded, otherwise the width, the height, and the
/// flat row-major RGB bytes (three per pixel) of the decoded image.
pub uninterp spec fn png_decode_rgb(bytes: Seq<u8>) -> Option<(u32, u32, Seq<u8>)>;

/// What PNG-encoding a flat row-major RGB byte buffer of the given
/// dimensions yields: `None` when encoding fails, otherwise the encoded
/// PNG bytes.
pub uninterp spec fn png_encode_rgb(data: Seq<u8>, w: int, h: int) -> Option<Seq<u8>>;

/// Relies on `image::load_from_memory` followed by
/// `DynamicImage::to_rgb8`: decoding is a function of the bytes alone;
/// the decoded `RgbImage` holds exactly `3 * width * height` raw bytes,
/// row-major with interleaved R, G, B channels.
#[verifier::external_body]
pub(crate) fn decode_rgb_image(bytes: &Vec<u8>) -> (r: Option<(u32, u32, Vec<u8>)>)
    ensures
        r matches Some(t) ==> png_decode_rgb(bytes@) == Some((t.0, t.1, t.2@))
            && t.2@.len() == 3 * (t.0 as int) * (t.1 as int),
        r is None ==> png_decode_rgb(bytes@) is None,
{
    match image::load_from_memory(bytes) {
        Err(_) => None,
        Ok(decoded) => {
            let rgb = decoded.to_rgb8();
            let (w, h) = (rgb.width(), rgb.height());
            Some((w, h, rgb.into_raw()))
        }
    }
}

/// Relies on `lodepng::encode_memory` with 8-bit RGB color: encoding is
/// a function of the buffer and the dimensions alone. The buffer must
/// hold exactly three bytes per pixel: on a size mismatch the call
/// asserts in debug builds rather than returning an error.
#[verifier::external_body]
pub(crate) fn encode_rgb_png(data: &Vec<u8>, w: usize, h: usize) -> (r: Option<Vec<u8>>)
    requires
        w <= u32::MAX,
        h <= u32::MAX,
        data@.len() == 3 * (w as int) * (h as int),
    ensures
        r matches Some(v) ==> png_encode_rgb(data@, w as int, h as int) == Some(v@),
        r is None ==> png_encode_rgb(data@, w as int, h as int) is None,
{
    match lodepng::encode_memory(data, w, h, lodepng::ColorType::RGB, 8) {
        Err(_) => None,
        Ok(v) => Some(v),
    }
}

} // verus!
