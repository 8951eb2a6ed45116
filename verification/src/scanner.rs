use vstd::prelude::*;
use vstd::string::StringExecFns;

verus! {

/// Lower-case ASCII letters, other characters unchanged.
pub open spec fn ascii_lower(s: Seq<char>) -> Seq<char> {
    s.map_values(|c: char| if 'A' <= c && c <= 'Z' { ((c as u32) + 32) as char } else { c })
}

/// The text that `str::to_lowercase` makes of a string.
pub uninterp spec fn lowercase(s: Seq<char>) -> Seq<char>;

/// Calls `str::to_lowercase`: the lower-case form of the text by the Unicode
/// `Lowercase` property, which on ASCII text lowers the letters A to Z.
#[verifier::external_body]
fn to_lowercase(s: &str) -> (r: String)
    ensures
        r@ == lowercase(s@),
        vstd::string::is_ascii(s) ==> r@ == ascii_lower(s@),
{
    s.to_lowercase()
}

/// The file extensions, in lower case, that the scan takes as images.
pub open spec fn image_extensions() -> Seq<Seq<char>> {
    seq!["jpg"@, "jpeg"@, "png"@, "webp"@, "gif"@, "tiff"@, "tif"@, "bmp"@]
}

fn extension_at(k: usize) -> (e: &'static str)
    requires
        k < 8,
    ensures
        e@ == image_extensions()[k as int],
{
    if k == 0 {
        "jpg"
    } else if k == 1 {
        "jpeg"
    } else if k == 2 {
        "png"
    } else if k == 3 {
        "webp"
    } else if k == 4 {
        "gif"
    } else if k == 5 {
        "tiff"
    } else if k == 6 {
        "tif"
    } else {
        "bmp"
    }
}

/// Whether a file with extension `ext` is taken as an image: its lower-case
/// form is one of jpg, jpeg, png, webp, gif, tiff, tif and bmp.
pub fn is_image_extension(ext: &str) -> (r: bool)
    ensures
        r == image_extensions().contains(lowercase(ext@)),
{
    let lower = to_lowercase(ext);
    let mut k: usize = 0;
    while k < 8
        invariant
            k <= 8,
            lower@ == lowercase(ext@),
            forall|q: int| 0 <= q < k ==> image_extensions()[q] != lower@,
        decreases 8 - k,
    {
        let candidate = String::from_str(extension_at(k));
        if lower == candidate {
            return true;
        }
        k = k + 1;
    }
    assert(image_extensions().len() == 8);
    false
}

/// Whether the path `path` lies at or under the path `base`, component by
/// component, as `std::path::Path::starts_with` decides it.
pub uninterp spec fn path_starts_with(path: Seq<char>, base: Seq<char>) -> bool;

/// Calls `Path::starts_with` on the two paths. The result depends on the two
/// texts alone.
#[verifier::external_body]
fn starts_with_path(path: &str, base: &str) -> (r: bool)
    ensures
        r == path_starts_with(path@, base@),
{
    std::path::Path::new(path).starts_with(base)
}

/// Whether a path lies in one of the excluded folders, or below one.
pub fn is_excluded(path: &str, excluidas: &[String]) -> (r: bool)
    ensures
        r == exists|k: int| 0 <= k < excluidas@.len() && path_starts_with(path@, (#[trigger] excluidas@[k])@),
{
    for k in 0..excluidas.len()
        invariant
            forall|q: int| 0 <= q < k ==> !path_starts_with(path@, (#[trigger] excluidas@[q])@),
    {
        if starts_with_path(path, excluidas[k].as_str()) {
            return true;
        }
    }
    false
}

} // verus!
