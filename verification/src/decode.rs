use vstd::prelude::*;
use image::{DynamicImage, ImageFormat};

verus! {

#[verifier::external_type_specification]
#[verifier::external_body]
pub struct ExImageFormat(ImageFormat);

/// The image format that `ImageFormat::from_extension` gives a file
/// extension (compared without regard to case), if it names one.
pub uninterp spec fn format_for(ext: Seq<char>) -> Option<ImageFormat>;

/// Calls `ImageFormat::from_extension` on the extension. The result depends
/// on the text alone.
#[verifier::external_body]
fn format_of_extension(ext: &str) -> (r: Option<ImageFormat>)
    ensures
        r == format_for(ext@),
{
    ImageFormat::from_extension(ext)
}

/// The image that the built-in decoder of `format` reads from the bytes
/// under the default limits, if they hold one that it decodes.
pub uninterp spec fn decoded_as(bytes: Seq<u8>, format: ImageFormat) -> Option<DynamicImage>;

/// Calls `ImageReader::with_format(Cursor::new(bytes), format).decode()`.
/// With the format given, the reader takes the crate's own decoder for it and
/// consults no hooks, so whether it succeeds and the image it gives depend on
/// the bytes and the format alone. The text of a failure is the decoder's
/// error message, of which nothing is stated.
#[verifier::external_body]
fn decode_as(bytes: &[u8], format: ImageFormat) -> (r: Result<DynamicImage, String>)
    ensures
        r is Ok == decoded_as(bytes@, format) is Some,
        r is Ok ==> r->Ok_0 == decoded_as(bytes@, format)->0,
{
    image::ImageReader::with_format(std::io::Cursor::new(bytes), format).decode().map_err(|e| e.to_string())
}

/// Why an image file could not be decoded.
pub enum DecodeError {
    /// The file extension names no image format.
    UnknownFormat,
    /// The decoder refused the bytes, with its message.
    Invalid(String),
}

/// The image that a file with these bytes and this extension holds: decoded
/// in the format that its extension names.
pub open spec fn file_image(bytes: Seq<u8>, ext: Seq<char>) -> Option<DynamicImage> {
    match format_for(ext) {
        Some(f) => decoded_as(bytes, f),
        None => None,
    }
}

/// Decodes the contents of an image file in the format that its extension
/// names.
pub fn decode_file(bytes: &[u8], ext: &str) -> (r: Result<DynamicImage, DecodeError>)
    ensures
        r is Ok <==> file_image(bytes@, ext@) is Some,
        r is Ok ==> r->Ok_0 == file_image(bytes@, ext@)->0,
        (r matches Err(DecodeError::UnknownFormat)) <==> format_for(ext@) is None,
{
    match format_of_extension(ext) {
        None => Err(DecodeError::UnknownFormat),
        Some(format) => match decode_as(bytes, format) {
            Ok(img) => Ok(img),
            Err(msg) => Err(DecodeError::Invalid(msg)),
        },
    }
}

} // verus!
