//! The photo record: one physical image file and its metadata.

use vstd::prelude::*;

use crate::uid::UID;

verus! {

/// One photo of the gallery. `path` is the logical directory holding the
/// file, relative to the photo root; `full_path` is where the file lives on
/// disk. The identifier `uid` is globally unique and never changes once
/// assigned; `md5` is the content hash used for rename and move detection.
#[derive(Debug)]
pub struct Photo {
    /// Row id assigned by the persisted store.
    pub id: u32,
    /// File name inside `path`.
    pub filename: String,
    /// Logical directory path, relative to the photo root.
    pub path: String,
    /// Filesystem path of the image file.
    pub full_path: String,
    /// Short public identifier.
    pub uid: UID,
    /// Content hash, used only to detect renames and moves.
    pub md5: String,
    /// Manual sort-order key.
    pub sort_order: u32,
    /// Whether the photo is hidden.
    pub hidden: bool,
    /// Whether the descriptive metadata below has been read from the file.
    pub metadata_parsed: bool,
    /// Pixel width.
    pub width: u32,
    /// Pixel height.
    pub height: u32,
    /// Average color of the image, as six lower-case hex digits.
    pub color: String,
    /// Optional descriptive fields.
    pub title: String,
    pub place: String,
    pub date_taken: String,
    pub camera_model: String,
    pub lens_model: String,
    pub focal_length: String,
    pub aperture: String,
    pub exposure_time: String,
    pub sensitivity: String,
}

impl Photo {
    /// A blank record, used for a file newly discovered on disk before its
    /// hash, identifier and metadata are filled in.
    pub fn new() -> (r: Photo)
        ensures
            r.id == 0,
            r.filename@.len() == 0,
            r.path@.len() == 0,
            r.full_path@.len() == 0,
            r.uid@.len() == 0,
            r.md5@.len() == 0,
            r.sort_order == 0,
            !r.hidden,
            !r.metadata_parsed,
            r.width == 0,
            r.height == 0,
            r.color@.len() == 0,
            r.title@.len() == 0,
            r.place@.len() == 0,
            r.date_taken@.len() == 0,
            r.camera_model@.len() == 0,
            r.lens_model@.len() == 0,
            r.focal_length@.len() == 0,
            r.aperture@.len() == 0,
            r.exposure_time@.len() == 0,
            r.sensitivity@.len() == 0,
    {
        Photo {
            id: 0,
            filename: String::new(),
            path: String::new(),
            full_path: String::new(),
            uid: UID::empty(),
            md5: String::new(),
            sort_order: 0,
            hidden: false,
            metadata_parsed: false,
            width: 0,
            height: 0,
            color: String::new(),
            title: String::new(),
            place: String::new(),
            date_taken: String::new(),
            camera_model: String::new(),
            lens_model: String::new(),
            focal_length: String::new(),
            aperture: String::new(),
            exposure_time: String::new(),
            sensitivity: String::new(),
        }
    }
}

impl Clone for Photo {
    fn clone(&self) -> (r: Self)
        ensures
            r == *self,
    {
        Photo {
            id: self.id,
            filename: self.filename.clone(),
            path: self.path.clone(),
            full_path: self.full_path.clone(),
            uid: self.uid.clone(),
            md5: self.md5.clone(),
            sort_order: self.sort_order,
            hidden: self.hidden,
            metadata_parsed: self.metadata_parsed,
            width: self.width,
            height: self.height,
            color: self.color.clone(),
            title: self.title.clone(),
            place: self.place.clone(),
            date_taken: self.date_taken.clone(),
            camera_model: self.camera_model.clone(),
            lens_model: self.lens_model.clone(),
            focal_length: self.focal_length.clone(),
            aperture: self.aperture.clone(),
            exposure_time: self.exposure_time.clone(),
            sensitivity: self.sensitivity.clone(),
        }
    }
}

} // verus!
