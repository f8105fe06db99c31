//! Where encoded image bytes become alpha samples: the one place that calls
//! the image decoder.

use vstd::prelude::*;

verus! {

/// The error type of the image crate. Nothing here looks inside it.
#[verifier::external_type_specification]
#[verifier::external_body]
pub struct ExImageError(::image::ImageError);

/// Decodes `data` with `load_from_memory` of the image crate, which guesses
/// the format from the bytes, converts the image with `to_rgba16`, and takes
/// the width, the height and the fourth sample of each pixel, in the order of
/// `pixels`, which is row by row.
///
/// Nothing is claimed of the outcome. The image crate lets a program register
/// further formats and decoders while it runs, and `load_from_memory` consults
/// them, so the same bytes need not decode alike at every call.
#[verifier::external_body]
pub(crate) fn decode_alpha(data: &Vec<u8>) -> Result<(u32, u32, Vec<u16>), ::image::ImageError> {
    let rgba = ::image::load_from_memory(data)?.to_rgba16();
    Ok((rgba.width(), rgba.height(), rgba.pixels().map(|pixel| pixel.0[3]).collect()))
}

} // verus!
