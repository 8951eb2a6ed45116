use vstd::prelude::*;
use crate::{opt_str_view, opt_string_view};
use crate::text::{decimal, push_decimal, push_str, trimmed, trim_chars, chars_of, string_from_chars, trim_white};
use vstd::utf8::{valid_utf8, decode_utf8};
use chrono::{NaiveDate, NaiveDateTime};
use exif::{Exif, In, Reader, Tag};

verus! {

/// The key under which two photos count as probably the same: the date they
/// were taken (or else the file's modification date), their dimensions and
/// the camera. There is none without a date or without both dimensions.
pub open spec fn spec_signature(
    date_taken: Option<Seq<char>>,
    modified: Option<Seq<char>>,
    width: Option<u32>,
    height: Option<u32>,
    camera: Option<Seq<char>>,
) -> Option<Seq<char>> {
    let date = if date_taken is Some { date_taken } else { modified };
    if date is Some && width is Some && height is Some {
        Some(date->0 + seq!['|'] + decimal(width->0 as nat) + seq!['x'] + decimal(height->0 as nat)
            + seq!['|'] + (if camera is Some { camera->0 } else { Seq::empty() }))
    } else {
        None
    }
}

/// Builds the metadata signature `date|WxH|camera` of a photo.
pub fn signature(
    date_taken: Option<&str>,
    modified: Option<&str>,
    width: Option<u32>,
    height: Option<u32>,
    camera: Option<&str>,
) -> (r: Option<String>)
    ensures
        crate::opt_string_view(r) == spec_signature(
            opt_str_view(date_taken),
            opt_str_view(modified),
            width,
            height,
            opt_str_view(camera),
        ),
{
    let date = match date_taken {
        Some(d) => d,
        None => match modified {
            Some(m) => m,
            None => return None,
        },
    };
    let w = match width {
        Some(w) => w,
        None => return None,
    };
    let h = match height {
        Some(h) => h,
        None => return None,
    };
    let mut key = String::new();
    push_str(&mut key, date);
    key.push('|');
    push_decimal(&mut key, w as u64);
    key.push('x');
    push_decimal(&mut key, h as u64);
    key.push('|');
    match camera {
        Some(c) => push_str(&mut key, c),
        None => {},
    }
    proof {
        let cam = if camera is Some { camera->0@ } else { Seq::<char>::empty() };
        assert(key@ == date@ + seq!['|'] + decimal(w as nat) + seq!['x'] + decimal(h as nat)
            + seq!['|'] + cam);
    }
    Some(key)
}

/// What the metadata of a photo tells of it.
pub struct Meta {
    pub date_taken: Option<String>,
    pub camera: Option<String>,
    pub width: Option<u32>,
    pub height: Option<u32>,
}

/// The mathematical value of a [`Meta`].
pub struct MetaView {
    pub date_taken: Option<Seq<char>>,
    pub camera: Option<Seq<char>>,
    pub width: Option<u32>,
    pub height: Option<u32>,
}

impl View for Meta {
    type V = MetaView;

    open spec fn view(&self) -> MetaView {
        MetaView {
            date_taken: opt_string_view(self.date_taken),
            camera: opt_string_view(self.camera),
            width: self.width,
            height: self.height,
        }
    }
}

/// The text that `String::from_utf8_lossy` makes of a byte string.
pub uninterp spec fn utf8_lossy(bytes: Seq<u8>) -> Seq<char>;

/// Calls `String::from_utf8_lossy`: the text of the bytes, each invalid
/// sequence replaced by U+FFFD; bytes that are valid UTF-8 decode unchanged.
#[verifier::external_body]
fn from_utf8_lossy(bytes: &[u8]) -> (s: String)
    ensures
        s@ == utf8_lossy(bytes@),
        valid_utf8(bytes@) ==> s@ == decode_utf8(bytes@),
{
    String::from_utf8_lossy(bytes).into_owned()
}

/// The text of an ASCII metadata field: its bytes read as UTF-8, without
/// leading or trailing NUL characters, then without leading or trailing white
/// space.
pub open spec fn ascii_text(bytes: Seq<u8>) -> Seq<char> {
    trimmed(trimmed(utf8_lossy(bytes), true), false)
}

/// The text of an ASCII metadata field.
pub fn ascii_str(bytes: &[u8]) -> (r: String)
    ensures
        r@ == ascii_text(bytes@),
{
    let raw = from_utf8_lossy(bytes);
    let cs = chars_of(raw.as_str());
    let no_nul = trim_chars(cs.as_slice(), true);
    let t = trim_chars(no_nul.as_slice(), false);
    string_from_chars(t.as_slice())
}

/// The date `s` parsed by `chrono::NaiveDateTime` with the format `fmt` and
/// written back with the format `out`, if it parses.
pub uninterp spec fn datetime_reformatted(s: Seq<char>, fmt: Seq<char>, out: Seq<char>) -> Option<Seq<char>>;

/// The date `s` parsed by `chrono::NaiveDate` with the format `fmt` and
/// written back with the format `out`, if it parses.
pub uninterp spec fn date_reformatted(s: Seq<char>, fmt: Seq<char>, out: Seq<char>) -> Option<Seq<char>>;

/// How dates are written: `%Y-%m-%d %H:%M:%S`.
pub open spec fn datetime_out_format() -> Seq<char> {
    "%Y-%m-%d %H:%M:%S"@
}

/// How dates without a time of day are written: `%Y-%m-%d 00:00:00`.
pub open spec fn date_out_format() -> Seq<char> {
    "%Y-%m-%d 00:00:00"@
}

/// Calls `NaiveDateTime::parse_from_str(s, fmt)` and, when it parses,
/// `format(out)` of the result, written out with `to_string`. The result
/// depends on the three strings alone; `out` is the library's output format,
/// on which the formatting does not fail.
#[verifier::external_body]
fn reformat_datetime(s: &str, fmt: &str, out: &str) -> (r: Option<String>)
    requires
        out@ == datetime_out_format(),
    ensures
        opt_string_view(r) == datetime_reformatted(s@, fmt@, out@),
{
    match NaiveDateTime::parse_from_str(s, fmt) {
        Ok(dt) => Some(dt.format(out).to_string()),
        Err(_) => None,
    }
}

/// Calls `NaiveDate::parse_from_str(s, fmt)` and, when it parses,
/// `format(out)` of the result, written out with `to_string`. The result
/// depends on the three strings alone; `out` is the library's output format
/// for dates, on which the formatting does not fail.
#[verifier::external_body]
fn reformat_date(s: &str, fmt: &str, out: &str) -> (r: Option<String>)
    requires
        out@ == date_out_format(),
    ensures
        opt_string_view(r) == date_reformatted(s@, fmt@, out@),
{
    match NaiveDate::parse_from_str(s, fmt) {
        Ok(d) => Some(d.format(out).to_string()),
        Err(_) => None,
    }
}

/// The date formats tried, in order.
pub open spec fn date_format(k: int) -> Seq<char> {
    if k == 0 {
        "%Y:%m:%d %H:%M:%S"@
    } else if k == 1 {
        "%Y-%m-%d %H:%M:%S"@
    } else if k == 2 {
        "%Y/%m/%d %H:%M:%S"@
    } else if k == 3 {
        "%Y:%m:%d"@
    } else {
        "%Y-%m-%d"@
    }
}

fn date_format_str(k: usize) -> (f: &'static str)
    requires
        k < 5,
    ensures
        f@ == date_format(k as int),
{
    if k == 0 {
        "%Y:%m:%d %H:%M:%S"
    } else if k == 1 {
        "%Y-%m-%d %H:%M:%S"
    } else if k == 2 {
        "%Y/%m/%d %H:%M:%S"
    } else if k == 3 {
        "%Y:%m:%d"
    } else {
        "%Y-%m-%d"
    }
}

/// Whether `s` holds the character `c`.
fn contains_char(s: &str, c: char) -> (r: bool)
    ensures
        r == s@.contains(c),
{
    let cs = chars_of(s);
    for i in 0..cs.len()
        invariant
            cs@ == s@,
            forall|k: int| 0 <= k < i ==> cs@[k] != c,
    {
        if cs[i] == c {
            assert(s@[i as int] == c);
            return true;
        }
    }
    false
}

/// The normalised form of the trimmed date text `t`, trying the formats from
/// the `k`-th on: the first format under which `t` parses as a date and time
/// gives it in the output format; a format with an hour field under which `t`
/// parses as a date alone gives that date at midnight; if none does, `t`
/// itself.
pub open spec fn normalized_from(t: Seq<char>, k: nat) -> Seq<char>
    decreases 5 - k,
{
    if k >= 5 {
        t
    } else if datetime_reformatted(t, date_format(k as int), datetime_out_format()) is Some {
        datetime_reformatted(t, date_format(k as int), datetime_out_format())->0
    } else if date_format(k as int).contains('H') && date_reformatted(
        t,
        date_format(k as int),
        date_out_format(),
    ) is Some {
        date_reformatted(t, date_format(k as int), date_out_format())->0
    } else {
        normalized_from(t, k + 1)
    }
}

/// The normalised form of a date text.
pub open spec fn spec_normalize_date(raw: Seq<char>) -> Seq<char> {
    normalized_from(trimmed(raw, false), 0)
}

/// Brings a date written in one of the usual EXIF ways to the form
/// `YYYY-MM-DD HH:MM:SS`; a text that parses under none of them comes back
/// trimmed. There is always a result.
pub fn normalize_date(raw: &str) -> (r: Option<String>)
    ensures
        opt_string_view(r) == Some(spec_normalize_date(raw@)),
{
    let t = trim_white(raw);
    let out_dt = "%Y-%m-%d %H:%M:%S";
    let out_d = "%Y-%m-%d 00:00:00";
    let mut k: usize = 0;
    while k < 5
        invariant
            k <= 5,
            t@ == trimmed(raw@, false),
            out_dt@ == datetime_out_format(),
            out_d@ == date_out_format(),
            normalized_from(t@, 0) == normalized_from(t@, k as nat),
        decreases 5 - k,
    {
        let fmt = date_format_str(k);
        match reformat_datetime(t.as_str(), fmt, out_dt) {
            Some(d) => {
                return Some(d);
            },
            None => {},
        }
        if contains_char(fmt, 'H') {
            match reformat_date(t.as_str(), fmt, out_d) {
                Some(d) => {
                    return Some(d);
                },
                None => {},
            }
        }
        k = k + 1;
    }
    Some(t)
}

/// The EXIF fields that the metadata of a photo is read from: the text of
/// each ASCII field that is present, and each numeric field that is present.
pub struct ExifFields {
    pub date_time_original: Option<String>,
    pub date_time_digitized: Option<String>,
    pub date_time: Option<String>,
    pub make: Option<String>,
    pub model: Option<String>,
    pub pixel_x_dimension: Option<u32>,
    pub image_width: Option<u32>,
    pub pixel_y_dimension: Option<u32>,
    pub image_length: Option<u32>,
}

/// The mathematical value of an [`ExifFields`].
pub struct ExifFieldsView {
    pub date_time_original: Option<Seq<char>>,
    pub date_time_digitized: Option<Seq<char>>,
    pub date_time: Option<Seq<char>>,
    pub make: Option<Seq<char>>,
    pub model: Option<Seq<char>>,
    pub pixel_x_dimension: Option<u32>,
    pub image_width: Option<u32>,
    pub pixel_y_dimension: Option<u32>,
    pub image_length: Option<u32>,
}

impl View for ExifFields {
    type V = ExifFieldsView;

    open spec fn view(&self) -> ExifFieldsView {
        ExifFieldsView {
            date_time_original: opt_string_view(self.date_time_original),
            date_time_digitized: opt_string_view(self.date_time_digitized),
            date_time: opt_string_view(self.date_time),
            make: opt_string_view(self.make),
            model: opt_string_view(self.model),
            pixel_x_dimension: self.pixel_x_dimension,
            image_width: self.image_width,
            pixel_y_dimension: self.pixel_y_dimension,
            image_length: self.image_length,
        }
    }
}

/// The first of two optional values that is present.
pub open spec fn or_else<T>(a: Option<T>, b: Option<T>) -> Option<T> {
    if a is Some { a } else { b }
}

/// The text of an optional field, empty when it is missing.
pub open spec fn or_empty(a: Option<Seq<char>>) -> Seq<char> {
    if a is Some { a->0 } else { Seq::empty() }
}

/// The camera of a photo from its maker and model: both joined by a space,
/// or whichever is not empty, or none.
pub open spec fn spec_camera(make: Seq<char>, model: Seq<char>) -> Option<Seq<char>> {
    if make.len() == 0 {
        if model.len() == 0 { None } else { Some(model) }
    } else if model.len() == 0 {
        Some(make)
    } else {
        Some(make + seq![' '] + model)
    }
}

/// The metadata that the EXIF fields of a photo give: the original date (or
/// else the digitised date, or else the file date) normalised; the camera;
/// the pixel dimensions (or else the image dimensions).
pub open spec fn spec_meta(f: ExifFieldsView) -> MetaView {
    let date = or_else(f.date_time_original, or_else(f.date_time_digitized, f.date_time));
    MetaView {
        date_taken: if date is Some { Some(spec_normalize_date(date->0)) } else { None },
        camera: spec_camera(or_empty(f.make), or_empty(f.model)),
        width: or_else(f.pixel_x_dimension, f.image_width),
        height: or_else(f.pixel_y_dimension, f.image_length),
    }
}

fn first_present<'a>(a: &'a Option<String>, b: &'a Option<String>, c: &'a Option<String>) -> (r: Option<&'a str>)
    ensures
        opt_str_view(r) == or_else(opt_string_view(*a), or_else(opt_string_view(*b), opt_string_view(*c))),
{
    match a {
        Some(x) => Some(x.as_str()),
        None => match b {
            Some(y) => Some(y.as_str()),
            None => match c {
                Some(z) => Some(z.as_str()),
                None => None,
            },
        },
    }
}

fn text_or_empty(a: &Option<String>) -> (r: String)
    ensures
        r@ == or_empty(opt_string_view(*a)),
{
    match a {
        Some(x) => x.clone(),
        None => String::new(),
    }
}

/// The metadata of a photo from its EXIF fields.
pub fn meta_from_fields(f: &ExifFields) -> (m: Meta)
    ensures
        m@ == spec_meta(f@),
{
    let date = match first_present(&f.date_time_original, &f.date_time_digitized, &f.date_time) {
        Some(d) => normalize_date(d),
        None => None,
    };
    let make = text_or_empty(&f.make);
    let model = text_or_empty(&f.model);
    let make_empty = make.as_str().is_empty();
    let model_empty = model.as_str().is_empty();
    let camera = if make_empty {
        if model_empty {
            None
        } else {
            Some(model)
        }
    } else if model_empty {
        Some(make)
    } else {
        let mut both = make;
        both.push(' ');
        push_str(&mut both, model.as_str());
        Some(both)
    };
    let width = match f.pixel_x_dimension {
        Some(w) => Some(w),
        None => f.image_width,
    };
    let height = match f.pixel_y_dimension {
        Some(h) => Some(h),
        None => f.image_length,
    };
    let m = Meta { date_taken: date, camera, width, height };
    assert(m@.date_taken == spec_meta(f@).date_taken);
    assert(m@.camera == spec_meta(f@).camera);
    assert(m@.width == spec_meta(f@).width);
    m
}

#[verifier::external_type_specification]
#[verifier::external_body]
pub struct ExExif(Exif);

#[verifier::external_type_specification]
#[verifier::external_body]
pub struct ExTag(Tag);

/// The EXIF fields that the metadata is read from.
pub enum ExifTag {
    DateTimeOriginal,
    DateTimeDigitized,
    DateTime,
    Make,
    Model,
    PixelXDimension,
    ImageWidth,
    PixelYDimension,
    ImageLength,
}

/// The `exif::Tag` of each field read.
pub uninterp spec fn tag_value(t: ExifTag) -> Tag;

/// The `exif::Tag` constant of each field, one arm each.
#[verifier::external_body]
fn exif_tag(t: ExifTag) -> (r: Tag)
    ensures
        r == tag_value(t),
{
    match t {
        ExifTag::DateTimeOriginal => Tag::DateTimeOriginal,
        ExifTag::DateTimeDigitized => Tag::DateTimeDigitized,
        ExifTag::DateTime => Tag::DateTime,
        ExifTag::Make => Tag::Make,
        ExifTag::Model => Tag::Model,
        ExifTag::PixelXDimension => Tag::PixelXDimension,
        ExifTag::ImageWidth => Tag::ImageWidth,
        ExifTag::PixelYDimension => Tag::PixelYDimension,
        ExifTag::ImageLength => Tag::ImageLength,
    }
}

/// Whether `exif::Reader::read_from_container` finds and parses EXIF data in
/// the bytes.
pub uninterp spec fn exif_readable(bytes: Seq<u8>) -> bool;

/// The value that field `tag` of the primary image has in the EXIF data that
/// `exif::Reader::read_from_container` parses from the bytes, as
/// `Exif::get_field` gives it.
pub uninterp spec fn exif_field(bytes: Seq<u8>, tag: Tag) -> Option<FieldValueView>;

/// The first number of field `tag` of the primary image in the EXIF data
/// parsed from the bytes, if the field is there and holds a number.
pub uninterp spec fn exif_uint(bytes: Seq<u8>, tag: Tag) -> Option<u32>;

/// Calls `exif::Reader::new().read_from_container` on the bytes. The result
/// is present exactly when the bytes hold EXIF data that parses. The parsed
/// data is not itself a function of the bytes (its field index is a hash map
/// with a hasher seeded anew each time), but what each field holds is: every
/// field read from it is the field that the bytes hold.
#[verifier::external_body]
fn read_exif(bytes: &[u8]) -> (r: Option<Exif>)
    ensures
        r is Some == exif_readable(bytes@),
        r is Some ==> forall|t: Tag| #[trigger] field_value(r->0, t) == exif_field(bytes@, t),
        r is Some ==> forall|t: Tag| #[trigger] field_first_uint(r->0, t) == exif_uint(bytes@, t),
{
    Reader::new().read_from_container(&mut std::io::BufReader::new(std::io::Cursor::new(bytes))).ok()
}

/// The value of an EXIF field, as far as the metadata reads it: every string
/// of an ASCII value, or a value of another type.
pub enum FieldValue {
    Ascii(Vec<Vec<u8>>),
    Other,
}

/// The mathematical value of a [`FieldValue`].
pub enum FieldValueView {
    Ascii(Seq<Seq<u8>>),
    Other,
}

/// The view of an optional field value.
pub open spec fn field_view(v: Option<FieldValue>) -> Option<FieldValueView> {
    match v {
        Some(FieldValue::Ascii(arr)) => Some(FieldValueView::Ascii(arr@.map_values(|b: Vec<u8>| b@))),
        Some(FieldValue::Other) => Some(FieldValueView::Other),
        None => None,
    }
}

/// The value of field `tag` of the primary image in the parsed data, if the
/// field is there.
pub uninterp spec fn field_value(exif: Exif, tag: Tag) -> Option<FieldValueView>;

/// Calls `Exif::get_field(tag, In::PRIMARY)` and tells an ASCII value, whose
/// strings it gives, from a value of any other type. The result depends on
/// the parsed data and the tag alone.
#[verifier::external_body]
fn get_field_value(exif: &Exif, tag: Tag) -> (r: Option<FieldValue>)
    ensures
        field_view(r) == field_value(*exif, tag),
{
    let field = exif.get_field(tag, In::PRIMARY)?;
    match &field.value {
        exif::Value::Ascii(arr) => Some(FieldValue::Ascii(arr.clone())),
        _ => Some(FieldValue::Other),
    }
}

/// The first number of field `tag` of the primary image in the parsed data,
/// if the field is there and holds a number.
pub uninterp spec fn field_first_uint(exif: Exif, tag: Tag) -> Option<u32>;

/// Calls `Exif::get_field(tag, In::PRIMARY)` and `Value::get_uint(0)`. The
/// result depends on the parsed data and the tag alone.
#[verifier::external_body]
fn field_uint(exif: &Exif, tag: Tag) -> (r: Option<u32>)
    ensures
        r == field_first_uint(*exif, tag),
{
    exif.get_field(tag, In::PRIMARY)?.value.get_uint(0)
}

/// The text of an ASCII field: its first string, trimmed; none for a missing
/// field, a value of another type or an ASCII value without strings.
pub open spec fn ascii_field_text(v: Option<FieldValueView>) -> Option<Seq<char>> {
    match v {
        Some(FieldValueView::Ascii(arr)) => if arr.len() > 0 { Some(ascii_text(arr[0])) } else { None },
        _ => None,
    }
}

/// The fields of parsed EXIF data that the metadata is read from.
pub open spec fn exif_fields_of(e: Exif) -> ExifFieldsView {
    ExifFieldsView {
        date_time_original: ascii_field_text(field_value(e, tag_value(ExifTag::DateTimeOriginal))),
        date_time_digitized: ascii_field_text(field_value(e, tag_value(ExifTag::DateTimeDigitized))),
        date_time: ascii_field_text(field_value(e, tag_value(ExifTag::DateTime))),
        make: ascii_field_text(field_value(e, tag_value(ExifTag::Make))),
        model: ascii_field_text(field_value(e, tag_value(ExifTag::Model))),
        pixel_x_dimension: field_first_uint(e, tag_value(ExifTag::PixelXDimension)),
        image_width: field_first_uint(e, tag_value(ExifTag::ImageWidth)),
        pixel_y_dimension: field_first_uint(e, tag_value(ExifTag::PixelYDimension)),
        image_length: field_first_uint(e, tag_value(ExifTag::ImageLength)),
    }
}

/// The fields that the metadata is read from, as the EXIF data in the bytes
/// holds them.
pub open spec fn exif_fields_in(bytes: Seq<u8>) -> ExifFieldsView {
    ExifFieldsView {
        date_time_original: ascii_field_text(exif_field(bytes, tag_value(ExifTag::DateTimeOriginal))),
        date_time_digitized: ascii_field_text(exif_field(bytes, tag_value(ExifTag::DateTimeDigitized))),
        date_time: ascii_field_text(exif_field(bytes, tag_value(ExifTag::DateTime))),
        make: ascii_field_text(exif_field(bytes, tag_value(ExifTag::Make))),
        model: ascii_field_text(exif_field(bytes, tag_value(ExifTag::Model))),
        pixel_x_dimension: exif_uint(bytes, tag_value(ExifTag::PixelXDimension)),
        image_width: exif_uint(bytes, tag_value(ExifTag::ImageWidth)),
        pixel_y_dimension: exif_uint(bytes, tag_value(ExifTag::PixelYDimension)),
        image_length: exif_uint(bytes, tag_value(ExifTag::ImageLength)),
    }
}

/// The first number of a numeric field of the parsed EXIF data.
fn field_u32(exif: &Exif, tag: ExifTag) -> (r: Option<u32>)
    ensures
        r == field_first_uint(*exif, tag_value(tag)),
{
    let t = exif_tag(tag);
    field_uint(exif, t)
}

/// The text of an ASCII field of the parsed EXIF data.
fn field_str(exif: &Exif, tag: ExifTag) -> (r: Option<String>)
    ensures
        opt_string_view(r) == ascii_field_text(field_value(*exif, tag_value(tag))),
{
    let t = exif_tag(tag);
    match get_field_value(exif, t) {
        Some(FieldValue::Ascii(arr)) => {
            if arr.len() > 0 {
                let text = ascii_str(arr[0].as_slice());
                assert(arr@.map_values(|b: Vec<u8>| b@)[0] == arr@[0]@);
                Some(text)
            } else {
                None
            }
        },
        Some(FieldValue::Other) => None,
        None => None,
    }
}

/// The metadata of parsed EXIF data.
fn parse_exif(exif: &Exif) -> (m: Meta)
    ensures
        m@ == spec_meta(exif_fields_of(*exif)),
{
    let fields = ExifFields {
        date_time_original: field_str(exif, ExifTag::DateTimeOriginal),
        date_time_digitized: field_str(exif, ExifTag::DateTimeDigitized),
        date_time: field_str(exif, ExifTag::DateTime),
        make: field_str(exif, ExifTag::Make),
        model: field_str(exif, ExifTag::Model),
        pixel_x_dimension: field_u32(exif, ExifTag::PixelXDimension),
        image_width: field_u32(exif, ExifTag::ImageWidth),
        pixel_y_dimension: field_u32(exif, ExifTag::PixelYDimension),
        image_length: field_u32(exif, ExifTag::ImageLength),
    };
    assert(fields@ == exif_fields_of(*exif));
    meta_from_fields(&fields)
}

/// Calls `image::ImageReader::new` on the bytes, `with_guessed_format` and
/// `into_dimensions`: the dimensions in the image header, when a format is
/// recognised and the header reads. Nothing is promised of the result: the
/// format guess consults hooks that any code of the process may register.
#[verifier::external_body]
fn image_dimensions(bytes: &[u8]) -> (r: Option<(u32, u32)>) {
    image::ImageReader::new(std::io::Cursor::new(bytes)).with_guessed_format().ok()?.into_dimensions().ok()
}

/// The metadata `m` with the image dimensions filled in where a dimension is
/// missing and the header gives them.
pub open spec fn with_dimensions(m: MetaView, dims: Option<(u32, u32)>) -> MetaView {
    if (m.width is None || m.height is None) && dims is Some {
        let d = dims->0;
        MetaView { width: Some(d.0), height: Some(d.1), ..m }
    } else {
        m
    }
}

/// Metadata with nothing known.
pub open spec fn empty_meta() -> MetaView {
    MetaView { date_taken: None, camera: None, width: None, height: None }
}

/// Fills in the width and height from the image header where the metadata
/// lacks one of them and the header gave them.
pub fn fill_dimensions(m: Meta, dims: Option<(u32, u32)>) -> (r: Meta)
    ensures
        r@ == with_dimensions(m@, dims),
{
    let mut m = m;
    if m.width.is_none() || m.height.is_none() {
        match dims {
            Some(d) => {
                m.width = Some(d.0);
                m.height = Some(d.1);
            },
            None => {},
        }
    }
    m
}

/// Reads the metadata of the photo in `bytes`: from its EXIF data when it
/// has any, the dimensions from the image header where EXIF lacks one.
/// Whatever the header read gives, the result is the EXIF metadata (or
/// nothing, without EXIF) completed by [`fill_dimensions`] with it.
pub fn extract_from_bytes(bytes: &[u8]) -> (m: Meta)
    ensures
        exif_readable(bytes@) ==> exists|d: Option<(u32, u32)>|
            m@ == #[trigger] with_dimensions(spec_meta(exif_fields_in(bytes@)), d),
        !exif_readable(bytes@) ==> exists|d: Option<(u32, u32)>| m@ == #[trigger] with_dimensions(empty_meta(), d),
{
    match read_exif(bytes) {
        Some(exif) => {
            let meta = parse_exif(&exif);
            assert(exif_fields_of(exif) == exif_fields_in(bytes@));
            if meta.width.is_none() || meta.height.is_none() {
                let dims = image_dimensions(bytes);
                let r = fill_dimensions(meta, dims);
                assert(r@ == with_dimensions(spec_meta(exif_fields_in(bytes@)), dims));
                r
            } else {
                let ghost none: Option<(u32, u32)> = None;
                assert(meta@ == with_dimensions(spec_meta(exif_fields_in(bytes@)), none));
                meta
            }
        },
        None => {
            let meta = Meta { date_taken: None, camera: None, width: None, height: None };
            let dims = image_dimensions(bytes);
            let r = fill_dimensions(meta, dims);
            assert(r@ == with_dimensions(empty_meta(), dims));
            r
        },
    }
}

/// Which EXIF field each part of the metadata comes from. The date taken is
/// the original date when the photo has one, whatever its digitised or file
/// date; else the digitised date; else the file date; each normalised. The
/// width is the pixel width when present, else the image width; likewise
/// the height. The camera is the make and the model joined by a space, or
/// whichever of them is not empty.
pub proof fn lemma_meta_field_precedence(f: ExifFieldsView)
    ensures
        f.date_time_original is Some ==> spec_meta(f).date_taken == Some(
            spec_normalize_date(f.date_time_original->0),
        ),
        f.date_time_original is None && f.date_time_digitized is Some ==> spec_meta(f).date_taken == Some(
            spec_normalize_date(f.date_time_digitized->0),
        ),
        f.date_time_original is None && f.date_time_digitized is None && f.date_time is Some
            ==> spec_meta(f).date_taken == Some(spec_normalize_date(f.date_time->0)),
        f.date_time_original is None && f.date_time_digitized is None && f.date_time is None
            ==> spec_meta(f).date_taken is None,
        f.pixel_x_dimension is Some ==> spec_meta(f).width == f.pixel_x_dimension,
        f.pixel_x_dimension is None ==> spec_meta(f).width == f.image_width,
        f.pixel_y_dimension is Some ==> spec_meta(f).height == f.pixel_y_dimension,
        f.pixel_y_dimension is None ==> spec_meta(f).height == f.image_length,
        f.make is Some && f.make->0.len() > 0 && f.model is Some && f.model->0.len() > 0
            ==> spec_meta(f).camera == Some(f.make->0 + seq![' '] + f.model->0),
        (f.make is None || f.make->0.len() == 0) && f.model is Some && f.model->0.len() > 0
            ==> spec_meta(f).camera == Some(f.model->0),
        f.make is Some && f.make->0.len() > 0 && (f.model is None || f.model->0.len() == 0)
            ==> spec_meta(f).camera == Some(f.make->0),
        (f.make is None || f.make->0.len() == 0) && (f.model is None || f.model->0.len() == 0)
            ==> spec_meta(f).camera is None,
{
}

} // verus!
