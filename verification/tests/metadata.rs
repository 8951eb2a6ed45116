use imagen_duplicada::metadata::{
    ascii_str, extract_from_bytes, meta_from_fields, normalize_date, signature, ExifFields,
};

#[test]
fn signature_joins_date_dimensions_camera() {
    assert_eq!(
        signature(Some("2020-01-01 10:00:00"), None, Some(800), Some(600), Some("Cam")),
        Some("2020-01-01 10:00:00|800x600|Cam".to_string())
    );
    assert_eq!(
        signature(None, Some("2021-02-02 00:00:00"), Some(1), Some(2), None),
        Some("2021-02-02 00:00:00|1x2|".to_string())
    );
    assert_eq!(
        signature(Some("d"), Some("m"), Some(10), Some(0), None),
        Some("d|10x0|".to_string())
    );
    assert_eq!(signature(None, None, Some(1), Some(1), Some("Cam")), None);
    assert_eq!(signature(Some("d"), None, None, Some(1), None), None);
    assert_eq!(signature(Some("d"), None, Some(1), None, None), None);
}

#[test]
fn normalizes_common_date_forms() {
    assert_eq!(normalize_date("2020:01:02 03:04:05"), Some("2020-01-02 03:04:05".to_string()));
    assert_eq!(normalize_date("  2020/01/02 03:04:05 "), Some("2020-01-02 03:04:05".to_string()));
    assert_eq!(normalize_date("2020-01-02 03:04:05"), Some("2020-01-02 03:04:05".to_string()));
    assert_eq!(normalize_date("ayer"), Some("ayer".to_string()));
    assert_eq!(normalize_date("  "), Some(String::new()));
}

#[test]
fn ascii_fields_are_trimmed() {
    assert_eq!(ascii_str(b"Canon\0\0"), "Canon");
    assert_eq!(ascii_str(b"  EOS 5D \0"), "EOS 5D");
    assert_eq!(ascii_str(b"\0 x \0"), "x");
    assert_eq!(ascii_str(b""), "");
}

fn fields() -> ExifFields {
    ExifFields {
        date_time_original: None,
        date_time_digitized: None,
        date_time: None,
        make: None,
        model: None,
        pixel_x_dimension: None,
        image_width: None,
        pixel_y_dimension: None,
        image_length: None,
    }
}

#[test]
fn meta_prefers_original_date_and_pixel_dimensions() {
    let mut f = fields();
    f.date_time_original = Some("2019:05:06 07:08:09".to_string());
    f.date_time = Some("2000:01:01 00:00:00".to_string());
    f.make = Some("Canon".to_string());
    f.model = Some("EOS".to_string());
    f.pixel_x_dimension = Some(100);
    f.image_width = Some(50);
    f.image_length = Some(40);
    let m = meta_from_fields(&f);
    assert_eq!(m.date_taken, Some("2019-05-06 07:08:09".to_string()));
    assert_eq!(m.camera, Some("Canon EOS".to_string()));
    assert_eq!(m.width, Some(100));
    assert_eq!(m.height, Some(40));
}

#[test]
fn camera_from_make_or_model_alone() {
    let mut f = fields();
    f.make = Some("Nikon".to_string());
    f.model = Some(String::new());
    assert_eq!(meta_from_fields(&f).camera, Some("Nikon".to_string()));
    let mut g = fields();
    g.model = Some("D750".to_string());
    assert_eq!(meta_from_fields(&g).camera, Some("D750".to_string()));
    assert_eq!(meta_from_fields(&fields()).camera, None);
    assert_eq!(meta_from_fields(&fields()).date_taken, None);
}

#[test]
fn date_falls_back_to_digitized_then_file_date() {
    let mut f = fields();
    f.date_time_digitized = Some("2018:01:01 01:01:01".to_string());
    f.date_time = Some("2000:01:01 00:00:00".to_string());
    assert_eq!(meta_from_fields(&f).date_taken, Some("2018-01-01 01:01:01".to_string()));
    let mut g = fields();
    g.date_time = Some("2000:01:01 00:00:00".to_string());
    assert_eq!(meta_from_fields(&g).date_taken, Some("2000-01-01 00:00:00".to_string()));
}

#[test]
fn unreadable_bytes_give_empty_metadata() {
    let m = extract_from_bytes(b"plain text, no image");
    assert_eq!(m.date_taken, None);
    assert_eq!(m.camera, None);
    assert_eq!(m.width, None);
    assert_eq!(m.height, None);
}

#[test]
fn header_dimensions_fill_in_without_exif() {
    // A minimal BMP header: 3 by 2 pixels, 24 bits per pixel.
    let mut bmp: Vec<u8> = Vec::new();
    bmp.extend_from_slice(b"BM");
    bmp.extend_from_slice(&(54u32 + 24).to_le_bytes());
    bmp.extend_from_slice(&[0, 0, 0, 0]);
    bmp.extend_from_slice(&54u32.to_le_bytes());
    bmp.extend_from_slice(&40u32.to_le_bytes());
    bmp.extend_from_slice(&3i32.to_le_bytes());
    bmp.extend_from_slice(&2i32.to_le_bytes());
    bmp.extend_from_slice(&1u16.to_le_bytes());
    bmp.extend_from_slice(&24u16.to_le_bytes());
    bmp.extend_from_slice(&[0u8; 24]);
    bmp.extend_from_slice(&[0u8; 24]);
    let m = extract_from_bytes(&bmp);
    assert_eq!(m.width, Some(3));
    assert_eq!(m.height, Some(2));
    assert_eq!(m.date_taken, None);
}

fn tiff_with_exif() -> Vec<u8> {
    // Little-endian TIFF with one IFD: ImageWidth, ImageLength, Make, Model, DateTime.
    let make = b"Canon\0";
    let model = b"EOS 5\0";
    let date = b"2020:01:02 03:04:05\0";
    let entries = 5u16;
    let ifd_start = 8u32;
    let data_start = ifd_start + 2 + 12 * entries as u32 + 4;
    let mut out: Vec<u8> = Vec::new();
    out.extend_from_slice(b"II");
    out.extend_from_slice(&42u16.to_le_bytes());
    out.extend_from_slice(&ifd_start.to_le_bytes());
    out.extend_from_slice(&entries.to_le_bytes());
    let mut entry = |tag: u16, typ: u16, count: u32, value: u32| {
        out.extend_from_slice(&tag.to_le_bytes());
        out.extend_from_slice(&typ.to_le_bytes());
        out.extend_from_slice(&count.to_le_bytes());
        out.extend_from_slice(&value.to_le_bytes());
    };
    entry(0x0100, 3, 1, 3);
    entry(0x0101, 3, 1, 2);
    entry(0x010F, 2, make.len() as u32, data_start);
    entry(0x0110, 2, model.len() as u32, data_start + make.len() as u32);
    entry(0x0132, 2, date.len() as u32, data_start + (make.len() + model.len()) as u32);
    out.extend_from_slice(&0u32.to_le_bytes());
    out.extend_from_slice(make);
    out.extend_from_slice(model);
    out.extend_from_slice(date);
    out
}

#[test]
fn exif_metadata_is_read() {
    let m = extract_from_bytes(&tiff_with_exif());
    assert_eq!(m.camera, Some("Canon EOS 5".to_string()));
    assert_eq!(m.date_taken, Some("2020-01-02 03:04:05".to_string()));
    assert_eq!(m.width, Some(3));
    assert_eq!(m.height, Some(2));
}

#[test]
fn invalid_utf8_is_replaced() {
    assert_eq!(ascii_str(b"a\xffb"), "a\u{FFFD}b");
}
