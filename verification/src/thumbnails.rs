use vstd::prelude::*;
use vstd::utf8::encode_utf8;
use crate::hasher::{sha256, sha256_bytes};
use crate::text::{hex_lower, push_str};
use crate::decode::{decode_file, file_image};
use image::DynamicImage;

verus! {

/// File name of the cached thumbnail of the image at `path`: the SHA-256
/// digest of the path's UTF-8 bytes in hexadecimal, with the extension png.
pub open spec fn spec_thumb_name(path: Seq<char>) -> Seq<char> {
    hex_lower(sha256(encode_utf8(path))) + ".png"@
}

/// File name, within the thumbnail cache, of the thumbnail of `path`.
pub fn thumb_path(path: &str) -> (r: String)
    ensures
        r@ == spec_thumb_name(path@),
        r@.len() == 68,
{
    let mut name = sha256_bytes(path.as_bytes());
    push_str(&mut name, ".png");
    proof {
        reveal_strlit(".png");
    }
    name
}

/// Largest width and height of a thumbnail.
pub const THUMB_SIZE: u32 = 320;

/// The thumbnail that `DynamicImage::thumbnail` makes of an image to fit in
/// `max` by `max` pixels.
pub uninterp spec fn thumbnail_of(img: DynamicImage, max: u32) -> DynamicImage;

/// Calls `DynamicImage::thumbnail(max, max)`: the image scaled down, aspect
/// ratio kept, to fit in `max` by `max` pixels. It depends on the image and
/// the size alone.
#[verifier::external_body]
fn scaled_thumbnail(img: &DynamicImage, max: u32) -> (t: DynamicImage)
    ensures
        t == thumbnail_of(*img, max),
{
    img.thumbnail(max, max)
}

/// The thumbnail shown for an image: scaled to fit in [`THUMB_SIZE`] by
/// [`THUMB_SIZE`] pixels.
pub fn thumbnail(img: &DynamicImage) -> (t: DynamicImage)
    ensures
        t == thumbnail_of(*img, THUMB_SIZE),
{
    scaled_thumbnail(img, THUMB_SIZE)
}

/// The thumbnail of an image file, from its contents and extension: the
/// decoded image through [`thumbnail`]; none when it does not decode.
pub fn thumbnail_of_file(bytes: &[u8], ext: &str) -> (r: Option<DynamicImage>)
    ensures
        r is Some <==> file_image(bytes@, ext@) is Some,
        r is Some ==> r->0 == thumbnail_of(file_image(bytes@, ext@)->0, THUMB_SIZE),
{
    match decode_file(bytes, ext) {
        Ok(img) => Some(thumbnail(&img)),
        Err(_) => None,
    }
}

} // verus!
