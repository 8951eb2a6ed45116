use imagen_duplicada::scanner::is_image_extension;
use imagen_duplicada::thumbnails::thumb_path;

#[test]
fn image_extensions_in_any_case() {
    for ext in ["jpg", "jpeg", "png", "webp", "gif", "tiff", "tif", "bmp", "JPG", "Png", "TIFF"] {
        assert!(is_image_extension(ext), "{ext}");
    }
    for ext in ["", "txt", "jpgx", "heic", "raw", "pn"] {
        assert!(!is_image_extension(ext), "{ext}");
    }
}

#[test]
fn thumbnail_name_is_path_digest() {
    assert_eq!(
        thumb_path("a/b/foto.jpg"),
        "e884812e61f00e554e07f9eb66848b95e3a1aa367691e492bbba6797c78c381e.png"
    );
    assert_eq!(thumb_path("a/b/foto.jpg"), thumb_path("a/b/foto.jpg"));
    assert_ne!(thumb_path("a/b/foto.jpg"), thumb_path("a/b/foto2.jpg"));
}
