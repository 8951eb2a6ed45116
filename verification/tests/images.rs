use image::{DynamicImage, GenericImageView, Rgb, RgbImage};
use imagen_duplicada::commands::{any_changed, changed_mask, compare_images, diff_files, hash_selection, DiffError};
use imagen_duplicada::decode::{decode_file, DecodeError};
use imagen_duplicada::metadata::{fill_dimensions, Meta};
use imagen_duplicada::thumbnails::thumbnail_of_file;
use imagen_duplicada::hasher::{dhash_image, sha256_bytes};
use imagen_duplicada::scanner::is_excluded;
use imagen_duplicada::thumbnails::{thumbnail, THUMB_SIZE};

fn flat(w: u32, h: u32, v: u8) -> DynamicImage {
    DynamicImage::ImageRgb8(RgbImage::from_pixel(w, h, Rgb([v, v, v])))
}

#[test]
fn mask_marks_pixels_past_threshold() {
    let a = [0, 0, 0, 100, 100, 100, 62, 0, 0, 63, 0, 0, 20, 20, 20, 21, 21, 21];
    let b = [0u8; 18];
    assert_eq!(changed_mask(&a, &b), vec![false, true, false, true, false, true]);
    assert_eq!(changed_mask(&b, &a), vec![false, true, false, true, false, true]);
    assert_eq!(changed_mask(&[], &[]), Vec::<bool>::new());
}

#[test]
fn any_change_in_mask() {
    assert!(!any_changed(&[]));
    assert!(!any_changed(&[false, false]));
    assert!(any_changed(&[false, true, false]));
}

#[test]
fn comparison_of_equal_and_different_images() {
    let dark = flat(4, 2, 10);
    let light = flat(4, 2, 200);
    let c = compare_images(&dark, &light).ok().unwrap();
    assert_eq!((c.width, c.height), (4, 2));
    assert_eq!(c.a, vec![10u8; 24]);
    assert_eq!(c.b, vec![200u8; 24]);
    assert_eq!(c.changed, vec![true; 8]);
    assert!(any_changed(&c.changed));

    let same = compare_images(&dark, &dark).ok().unwrap();
    assert_eq!(same.changed, vec![false; 8]);
    assert!(!any_changed(&same.changed));
}

#[test]
fn comparison_of_different_sizes_is_refused() {
    let r = compare_images(&flat(4, 2, 0), &flat(3, 2, 0));
    assert_eq!(r.err(), Some(((4, 2), (3, 2))));
}

#[test]
fn comparison_map_is_capped_in_width() {
    let c = compare_images(&flat(3200, 2, 0), &flat(3200, 2, 50)).ok().unwrap();
    assert_eq!((c.width, c.height), (1600, 1));
    assert_eq!(c.a.len(), 1600 * 3);
    assert_eq!(c.changed.len(), 1600);
}

#[test]
fn thumbnail_fits_the_box() {
    assert_eq!(THUMB_SIZE, 320);
    let t = thumbnail(&flat(640, 320, 5));
    assert_eq!(t.dimensions(), (320, 160));
    let t = thumbnail(&flat(100, 400, 5));
    assert_eq!(t.dimensions(), (80, 320));
}

#[test]
fn dhash_of_decoded_images() {
    assert_eq!(dhash_image(&flat(9, 8, 77)), 0);
    let mut falling = RgbImage::new(9, 8);
    let mut rising = RgbImage::new(9, 8);
    for y in 0..8 {
        for x in 0..9 {
            let v = 20 * x as u8 + 10;
            falling.put_pixel(x, y, Rgb([200 - v, 200 - v, 200 - v]));
            rising.put_pixel(x, y, Rgb([v, v, v]));
        }
    }
    assert_eq!(dhash_image(&DynamicImage::ImageRgb8(falling)), u64::MAX);
    assert_eq!(dhash_image(&DynamicImage::ImageRgb8(rising)), 0);
}

#[test]
fn digest_text_has_sixty_four_digits() {
    for input in [&b""[..], b"a", b"una ruta/larga/foto.jpg"] {
        let h = sha256_bytes(input);
        assert_eq!(h.len(), 64);
        assert!(h.chars().all(|c| c.is_ascii_hexdigit() && !c.is_ascii_uppercase()));
    }
}

#[test]
fn excluded_folders_match_whole_components() {
    let ex = vec!["/a/b".to_string()];
    assert!(is_excluded("/a/b/c.jpg", &ex));
    assert!(is_excluded("/a/b", &ex));
    assert!(!is_excluded("/a/bc/d.jpg", &ex));
    assert!(!is_excluded("/a/b/c.jpg", &[]));
    assert!(is_excluded("/x/y.png", &["/z".to_string(), "/x".to_string()]));
}

fn png_bytes(img: &DynamicImage) -> Vec<u8> {
    let mut out = std::io::Cursor::new(Vec::new());
    img.write_to(&mut out, image::ImageFormat::Png).unwrap();
    out.into_inner()
}

#[test]
fn files_decode_by_extension() {
    let bytes = png_bytes(&flat(5, 3, 90));
    let img = decode_file(&bytes, "png").ok().unwrap();
    assert_eq!(img.dimensions(), (5, 3));
    assert!(decode_file(&bytes, "PNG").is_ok());
    assert!(matches!(decode_file(&bytes, "txt"), Err(DecodeError::UnknownFormat)));
    assert!(matches!(decode_file(&bytes, ""), Err(DecodeError::UnknownFormat)));
    assert!(matches!(decode_file(&bytes, "jpg"), Err(DecodeError::Invalid(_))));
    assert!(matches!(decode_file(b"not a picture", "png"), Err(DecodeError::Invalid(_))));
}

#[test]
fn thumbnail_from_file_contents() {
    let bytes = png_bytes(&flat(640, 320, 5));
    assert_eq!(thumbnail_of_file(&bytes, "png").unwrap().dimensions(), (320, 160));
    assert!(thumbnail_of_file(&bytes, "gif").is_none());
    assert!(thumbnail_of_file(b"", "png").is_none());
}

#[test]
fn file_comparison_errors_come_in_order() {
    let a = png_bytes(&flat(4, 2, 10));
    let b = png_bytes(&flat(4, 2, 200));
    let c = png_bytes(&flat(3, 3, 10));
    assert!(matches!(diff_files(b"x", "png", b"y", "png"), Err(DiffError::DecodeA(_))));
    assert!(matches!(diff_files(&a, "png", b"y", "png"), Err(DiffError::DecodeB(_))));
    assert!(matches!(diff_files(&a, "bmp", &b, "png"), Err(DiffError::DecodeA(_))));
    assert!(matches!(diff_files(&a, "png", &c, "png"), Err(DiffError::Sizes((4, 2), (3, 3)))));
    let d = diff_files(&a, "png", &b, "png").ok().unwrap();
    assert_eq!(d.changed, vec![true; 8]);
}

#[test]
fn file_comparison_is_symmetric() {
    let mut left = RgbImage::from_pixel(6, 4, Rgb([50, 50, 50]));
    left.put_pixel(2, 1, Rgb([250, 0, 0]));
    left.put_pixel(5, 3, Rgb([60, 60, 60]));
    let right = RgbImage::from_pixel(6, 4, Rgb([50, 50, 50]));
    let a = png_bytes(&DynamicImage::ImageRgb8(left));
    let b = png_bytes(&DynamicImage::ImageRgb8(right));
    let ab = diff_files(&a, "png", &b, "png").ok().unwrap();
    let ba = diff_files(&b, "png", &a, "png").ok().unwrap();
    assert_eq!(ab.changed, ba.changed);
    assert_eq!(ab.a, ba.b);
    assert_eq!(ab.changed.iter().filter(|x| **x).count(), 1);
    assert!(ab.changed[1 * 6 + 2]);
    let aa = diff_files(&a, "png", &a, "png").ok().unwrap();
    assert!(!any_changed(&aa.changed));
}

#[test]
fn hashing_takes_all_or_the_candidates() {
    let cands = vec![vec![0, 3], vec![1, 4]];
    let sizes = vec![10, 20, 30, 10, 20];
    assert_eq!(hash_selection(true, &sizes, &cands), vec![0, 1, 2, 3, 4]);
    assert_eq!(hash_selection(false, &sizes, &cands), vec![0, 3, 1, 4]);
    assert_eq!(hash_selection(true, &vec![], &cands), Vec::<usize>::new());
}

#[test]
fn hashing_keeps_files_of_shared_size() {
    // Files 2 and 5 share a size but not a signature: they may be
    // byte-identical, so they are hashed too; file 4 is alone in its size.
    let cands = vec![vec![0, 3]];
    let sizes = vec![10, 11, 50, 10, 70, 50, 11];
    assert_eq!(hash_selection(false, &sizes, &cands), vec![0, 3, 1, 2, 5, 6]);
    assert_eq!(hash_selection(false, &sizes, &vec![]), vec![0, 1, 2, 3, 5, 6]);
}

#[test]
fn header_dimensions_fill_missing_ones() {
    let m = Meta { date_taken: None, camera: None, width: Some(10), height: None };
    let r = fill_dimensions(m, Some((30, 40)));
    assert_eq!((r.width, r.height), (Some(30), Some(40)));
    let m = Meta { date_taken: None, camera: None, width: Some(10), height: Some(20) };
    let r = fill_dimensions(m, Some((30, 40)));
    assert_eq!((r.width, r.height), (Some(10), Some(20)));
    let m = Meta { date_taken: None, camera: None, width: None, height: None };
    let r = fill_dimensions(m, None);
    assert_eq!((r.width, r.height), (None, None));
}
