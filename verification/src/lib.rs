//! Duplicate image detection: exact copies by SHA-256 digest, probable
//! copies by photo metadata, and visually close images by difference hash.

pub mod text;
pub mod hasher;
pub mod decode;
pub mod metadata;
pub mod matcher;
pub mod scanner;
pub mod thumbnails;
pub mod commands;

use vstd::prelude::*;
use std::sync::Arc;
use std::sync::atomic::{AtomicBool, Ordering};

verus! {

/// The view of an optional owned string.
pub open spec fn opt_string_view(o: Option<String>) -> Option<Seq<char>> {
    match o {
        Some(s) => Some(s@),
        None => None,
    }
}

/// The view of an optional borrowed string.
pub open spec fn opt_str_view(o: Option<&str>) -> Option<Seq<char>> {
    match o {
        Some(s) => Some(s@),
        None => None,
    }
}

/// A copy of an optional string.
pub fn copy_opt_string(o: &Option<String>) -> (r: Option<String>)
    ensures
        opt_string_view(r) == opt_string_view(*o),
{
    match o {
        Some(s) => Some(s.clone()),
        None => None,
    }
}

/// Borrows the string inside an optional string.
pub fn as_opt_str(o: &Option<String>) -> (r: Option<&str>)
    ensures
        opt_str_view(r) == opt_string_view(*o),
{
    match o {
        Some(s) => Some(s.as_str()),
        None => None,
    }
}

/// One image file found during a scan, with what was learned about it.
#[derive(Clone, Debug)]
pub struct ImageInfo {
    pub path: String,
    pub file_name: String,
    pub dir: String,
    pub size_bytes: u64,
    pub modified: Option<String>,
    pub date_taken: Option<String>,
    pub camera: Option<String>,
    pub width: Option<u32>,
    pub height: Option<u32>,
    pub hash: String,
    pub thumbnail: Option<String>,
    pub dhash: Option<u64>,
}

/// The mathematical value of an [`ImageInfo`].
pub struct ImageView {
    pub path: Seq<char>,
    pub file_name: Seq<char>,
    pub dir: Seq<char>,
    pub size_bytes: u64,
    pub modified: Option<Seq<char>>,
    pub date_taken: Option<Seq<char>>,
    pub camera: Option<Seq<char>>,
    pub width: Option<u32>,
    pub height: Option<u32>,
    pub hash: Seq<char>,
    pub thumbnail: Option<Seq<char>>,
    pub dhash: Option<u64>,
}

impl View for ImageInfo {
    type V = ImageView;

    open spec fn view(&self) -> ImageView {
        ImageView {
            path: self.path@,
            file_name: self.file_name@,
            dir: self.dir@,
            size_bytes: self.size_bytes,
            modified: opt_string_view(self.modified),
            date_taken: opt_string_view(self.date_taken),
            camera: opt_string_view(self.camera),
            width: self.width,
            height: self.height,
            hash: self.hash@,
            thumbnail: opt_string_view(self.thumbnail),
            dhash: self.dhash,
        }
    }
}

impl ImageInfo {
    /// A copy of this record.
    pub fn duplicate(&self) -> (r: ImageInfo)
        ensures
            r@ == self@,
    {
        ImageInfo {
            path: self.path.clone(),
            file_name: self.file_name.clone(),
            dir: self.dir.clone(),
            size_bytes: self.size_bytes,
            modified: copy_opt_string(&self.modified),
            date_taken: copy_opt_string(&self.date_taken),
            camera: copy_opt_string(&self.camera),
            width: self.width,
            height: self.height,
            hash: self.hash.clone(),
            thumbnail: copy_opt_string(&self.thumbnail),
            dhash: self.dhash,
        }
    }
}

/// A set of images taken as copies of one another.
#[derive(Debug)]
pub struct DupGroup {
    pub confidence: String,
    pub images: Vec<ImageInfo>,
    pub total_size: u64,
}

/// The mathematical value of a [`DupGroup`].
pub struct DupGroupView {
    pub confidence: Seq<char>,
    pub images: Seq<ImageView>,
    pub total_size: u64,
}

impl View for DupGroup {
    type V = DupGroupView;

    open spec fn view(&self) -> DupGroupView {
        DupGroupView {
            confidence: self.confidence@,
            images: self.images@.map_values(|im: ImageInfo| im@),
            total_size: self.total_size,
        }
    }
}

/// Where a scan stands, as reported to the user.
#[derive(Clone, Debug)]
pub struct ScanProgress {
    pub phase: String,
    pub done: usize,
    pub total: usize,
    pub detail: Option<String>,
}

/// The outcome of a scan: the duplicate groups and how many files could not
/// be read.
#[derive(Debug)]
pub struct ScanResult {
    pub groups: Vec<DupGroup>,
    pub skipped: usize,
}

/// The files that the user asked to delete.
#[derive(Clone, Debug)]
pub struct DeleteRequest {
    pub paths: Vec<String>,
}

/// A flag, shared between threads, that asks a running scan to stop.
#[derive(Clone)]
pub struct CancelToken {
    flag: Arc<AtomicBool>,
}

impl CancelToken {
    /// A token that does not ask to stop.
    pub fn new() -> Self {
        CancelToken { flag: Arc::new(AtomicBool::new(false)) }
    }

    /// Asks the scan to stop.
    pub fn cancel(&self) {
        self.flag.store(true, Ordering::Relaxed);
    }

    /// Whether a stop was asked for.
    pub fn is_cancelled(&self) -> bool {
        self.flag.load(Ordering::Relaxed)
    }

    /// Clears the request to stop.
    pub fn reset(&self) {
        self.flag.store(false, Ordering::Relaxed);
    }
}

} // verus!
