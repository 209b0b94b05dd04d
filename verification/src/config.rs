//! The resolved configuration and the per-directory override mechanism.
//!
//! Every directory of the photo tree may carry a small override document.
//! Resolution is strictly top-down: a child's override replaces only the
//! keys it defines. Two keys never propagate downward: `HIDDEN` always
//! resets, and `PASSWORD` resets everywhere below the root.

use vstd::prelude::*;

verus! {

/// Raster formats available for resized photos in the cache.
#[allow(non_camel_case_types)]
#[derive(Debug, Clone, Copy, PartialEq, Eq, Structural)]
pub enum ImageFormat {
    JPEG,
    WEBP,
}

/// The application's resolved configuration. Field names match the keys of
/// the configuration document.
#[allow(non_snake_case)]
#[derive(Debug)]
pub struct Config {
    /// Address to serve on.
    pub ADDRESS: String,
    /// Port to serve on.
    pub PORT: u16,
    /// Title shown in the page header.
    pub TITLE: String,
    /// Instagram handle linked in the header; empty for none.
    pub INSTAGRAM: String,
    /// Path of the directory holding the photos.
    pub PHOTOS_DIR: String,
    /// Path of the cache directory for resized photos; write access needed.
    pub CACHE_DIR: String,
    /// Path of the persisted photo index.
    pub DATABASE_PATH: String,
    /// Whether subdirectories are indexed recursively.
    pub INDEX_SUBDIRS: bool,
    /// Number of parallel workers used while loading new photos.
    pub LOADING_WORKERS: usize,
    /// Whether descriptive metadata is read from new photos.
    pub READ_EXIF: bool,
    /// Whether resized versions are generated eagerly at load time.
    pub PRE_GENERATE_THUMBNAILS: bool,
    /// Password required to access the gallery; empty for none. Overridable.
    pub PASSWORD: String,
    /// Whether a directory's listing also shows the photos of its
    /// subdirectories. Overridable.
    pub SHOW_PHOTOS_FROM_SUBDIRS: bool,
    /// Whether the navigation panel is shown.
    pub SHOW_NAVIGATION_PANEL: bool,
    /// Whether the navigation panel starts open.
    pub OPEN_NAVIGATION_PANEL_BY_DEFAULT: bool,
    /// Comma-separated list of fields that orders a directory's photos.
    /// Overridable.
    pub SORT_ORDER: String,
    /// Whether the sort order is reversed. Overridable.
    pub REVERSE_SORT_ORDER: bool,
    /// Height of a grid row, as a percentage of the viewport height.
    pub DEFAULT_ROW_HEIGHT: usize,
    /// Zoom step applied to the row height, in percent.
    pub ROW_HEIGHT_STEP: usize,
    /// Maximum crop factor tolerated by the grid layout.
    pub MAX_CROP: usize,
    /// Whether photo metadata can be shown in loupe mode.
    pub SHOW_METADATA: bool,
    /// Whether the filename appears among the metadata.
    pub SHOW_FILENAME_IN_METADATA: bool,
    /// Whether metadata starts visible in loupe mode.
    pub METADATA_VISIBLE_BY_DEFAULT: bool,
    /// Whether a download button is offered.
    pub SHOW_DOWNLOAD_BUTTON: bool,
    /// Prefix of downloaded file names.
    pub DOWNLOAD_PREFIX: String,
    /// Delay between photos in slideshow mode, in milliseconds.
    pub SLIDESHOW_DELAY: usize,
    /// Bounding size of thumbnails, in pixels.
    pub THUMBNAIL_MAX_SIZE: usize,
    /// Encoding quality of thumbnails, in percent.
    pub THUMBNAIL_QUALITY: usize,
    /// Bounding size of large views, in pixels.
    pub LARGE_VIEW_MAX_SIZE: usize,
    /// Encoding quality of large views, in percent.
    pub LARGE_VIEW_QUALITY: usize,
    /// Format of resized photos in the cache.
    pub RESIZED_IMAGE_FORMAT: ImageFormat,
    /// Whether this directory is indexed at all. Only meaningful in a
    /// directory's own override document.
    pub INDEX: bool,
    /// Whether this directory is hidden from navigation. Never inherited.
    pub HIDDEN: bool,
}

impl Clone for Config {
    fn clone(&self) -> (r: Self)
        ensures
            r == *self,
    {
        Config {
            ADDRESS: self.ADDRESS.clone(),
            PORT: self.PORT,
            TITLE: self.TITLE.clone(),
            INSTAGRAM: self.INSTAGRAM.clone(),
            PHOTOS_DIR: self.PHOTOS_DIR.clone(),
            CACHE_DIR: self.CACHE_DIR.clone(),
            DATABASE_PATH: self.DATABASE_PATH.clone(),
            INDEX_SUBDIRS: self.INDEX_SUBDIRS,
            LOADING_WORKERS: self.LOADING_WORKERS,
            READ_EXIF: self.READ_EXIF,
            PRE_GENERATE_THUMBNAILS: self.PRE_GENERATE_THUMBNAILS,
            PASSWORD: self.PASSWORD.clone(),
            SHOW_PHOTOS_FROM_SUBDIRS: self.SHOW_PHOTOS_FROM_SUBDIRS,
            SHOW_NAVIGATION_PANEL: self.SHOW_NAVIGATION_PANEL,
            OPEN_NAVIGATION_PANEL_BY_DEFAULT: self.OPEN_NAVIGATION_PANEL_BY_DEFAULT,
            SORT_ORDER: self.SORT_ORDER.clone(),
            REVERSE_SORT_ORDER: self.REVERSE_SORT_ORDER,
            DEFAULT_ROW_HEIGHT: self.DEFAULT_ROW_HEIGHT,
            ROW_HEIGHT_STEP: self.ROW_HEIGHT_STEP,
            MAX_CROP: self.MAX_CROP,
            SHOW_METADATA: self.SHOW_METADATA,
            SHOW_FILENAME_IN_METADATA: self.SHOW_FILENAME_IN_METADATA,
            METADATA_VISIBLE_BY_DEFAULT: self.METADATA_VISIBLE_BY_DEFAULT,
            SHOW_DOWNLOAD_BUTTON: self.SHOW_DOWNLOAD_BUTTON,
            DOWNLOAD_PREFIX: self.DOWNLOAD_PREFIX.clone(),
            SLIDESHOW_DELAY: self.SLIDESHOW_DELAY,
            THUMBNAIL_MAX_SIZE: self.THUMBNAIL_MAX_SIZE,
            THUMBNAIL_QUALITY: self.THUMBNAIL_QUALITY,
            LARGE_VIEW_MAX_SIZE: self.LARGE_VIEW_MAX_SIZE,
            LARGE_VIEW_QUALITY: self.LARGE_VIEW_QUALITY,
            RESIZED_IMAGE_FORMAT: self.RESIZED_IMAGE_FORMAT,
            INDEX: self.INDEX,
            HIDDEN: self.HIDDEN,
        }
    }
}

// Default values for the configuration keys.

pub fn config_default_address() -> (r: String)
    ensures
        r@ == "127.0.0.1"@,
{
    "127.0.0.1".to_owned()
}

pub fn config_default_port() -> (r: u16)
    ensures
        r == 8000,
{
    8000
}

pub fn config_default_title() -> (r: String)
    ensures
        r@ == "Niobium"@,
{
    "Niobium".to_owned()
}

pub fn config_default_photos_dir() -> (r: String)
    ensures
        r@ == "photos"@,
{
    "photos".to_owned()
}

pub fn config_default_cache_dir() -> (r: String)
    ensures
        r@ == "cache"@,
{
    "cache".to_owned()
}

pub fn config_default_true() -> (r: bool)
    ensures
        r,
{
    true
}

pub fn config_default_false() -> (r: bool)
    ensures
        !r,
{
    false
}

pub fn config_default_database_path() -> (r: String)
    ensures
        r@ == "niobium.sqlite"@,
{
    "niobium.sqlite".to_owned()
}

pub fn config_default_sort_order() -> (r: String)
    ensures
        r@ == "filename"@,
{
    "filename".to_owned()
}

pub fn config_default_row_height() -> (r: usize)
    ensures
        r == 23,
{
    23
}

pub fn config_default_max_zoom() -> (r: usize)
    ensures
        r == 2,
{
    2
}

pub fn config_default_row_height_step() -> (r: usize)
    ensures
        r == 10,
{
    10
}

pub fn config_default_slideshow_delay() -> (r: usize)
    ensures
        r == 5000,
{
    5000
}

pub fn config_default_thumbnail_max_size() -> (r: usize)
    ensures
        r == 600,
{
    600
}

pub fn config_default_thumbnail_quality() -> (r: usize)
    ensures
        r == 75,
{
    75
}

pub fn config_default_large_view_max_size() -> (r: usize)
    ensures
        r == 1920,
{
    1920
}

pub fn config_default_large_view_quality() -> (r: usize)
    ensures
        r == 85,
{
    85
}

pub fn config_default_resized_image_format() -> (r: ImageFormat)
    ensures
        r == ImageFormat::WEBP,
{
    ImageFormat::WEBP
}

pub fn config_default_dowload_prefix() -> (r: String)
    ensures
        r@ == "niobium_"@,
{
    "niobium_".to_owned()
}

pub fn config_default_loading_workers() -> (r: usize)
    ensures
        r == 16,
{
    16
}

impl Config {
    /// The configuration with every key at its default value.
    pub fn default() -> (r: Config)
        ensures
            r.ADDRESS@ == "127.0.0.1"@,
            r.PORT == 8000,
            r.TITLE@ == "Niobium"@,
            r.INSTAGRAM@.len() == 0,
            r.PHOTOS_DIR@ == "photos"@,
            r.CACHE_DIR@ == "cache"@,
            r.DATABASE_PATH@ == "niobium.sqlite"@,
            r.INDEX_SUBDIRS,
            r.LOADING_WORKERS == 16,
            r.READ_EXIF,
            !r.PRE_GENERATE_THUMBNAILS,
            r.PASSWORD@.len() == 0,
            r.SHOW_PHOTOS_FROM_SUBDIRS,
            r.SHOW_NAVIGATION_PANEL,
            r.OPEN_NAVIGATION_PANEL_BY_DEFAULT,
            r.SORT_ORDER@ == "filename"@,
            !r.REVERSE_SORT_ORDER,
            r.DEFAULT_ROW_HEIGHT == 23,
            r.ROW_HEIGHT_STEP == 10,
            r.MAX_CROP == 2,
            r.SHOW_METADATA,
            !r.SHOW_FILENAME_IN_METADATA,
            r.METADATA_VISIBLE_BY_DEFAULT,
            r.SHOW_DOWNLOAD_BUTTON,
            r.DOWNLOAD_PREFIX@ == "niobium_"@,
            r.SLIDESHOW_DELAY == 5000,
            r.THUMBNAIL_MAX_SIZE == 600,
            r.THUMBNAIL_QUALITY == 75,
            r.LARGE_VIEW_MAX_SIZE == 1920,
            r.LARGE_VIEW_QUALITY == 85,
            r.RESIZED_IMAGE_FORMAT == ImageFormat::WEBP,
            r.INDEX,
            !r.HIDDEN,
    {
        Config {
            ADDRESS: config_default_address(),
            PORT: config_default_port(),
            TITLE: config_default_title(),
            INSTAGRAM: String::new(),
            PHOTOS_DIR: config_default_photos_dir(),
            CACHE_DIR: config_default_cache_dir(),
            DATABASE_PATH: config_default_database_path(),
            INDEX_SUBDIRS: config_default_true(),
            LOADING_WORKERS: config_default_loading_workers(),
            READ_EXIF: config_default_true(),
            PRE_GENERATE_THUMBNAILS: config_default_false(),
            PASSWORD: String::new(),
            SHOW_PHOTOS_FROM_SUBDIRS: config_default_true(),
            SHOW_NAVIGATION_PANEL: config_default_true(),
            OPEN_NAVIGATION_PANEL_BY_DEFAULT: config_default_true(),
            SORT_ORDER: config_default_sort_order(),
            REVERSE_SORT_ORDER: config_default_false(),
            DEFAULT_ROW_HEIGHT: config_default_row_height(),
            ROW_HEIGHT_STEP: config_default_row_height_step(),
            MAX_CROP: config_default_max_zoom(),
            SHOW_METADATA: config_default_true(),
            SHOW_FILENAME_IN_METADATA: config_default_false(),
            METADATA_VISIBLE_BY_DEFAULT: config_default_true(),
            SHOW_DOWNLOAD_BUTTON: config_default_true(),
            DOWNLOAD_PREFIX: config_default_dowload_prefix(),
            SLIDESHOW_DELAY: config_default_slideshow_delay(),
            THUMBNAIL_MAX_SIZE: config_default_thumbnail_max_size(),
            THUMBNAIL_QUALITY: config_default_thumbnail_quality(),
            LARGE_VIEW_MAX_SIZE: config_default_large_view_max_size(),
            LARGE_VIEW_QUALITY: config_default_large_view_quality(),
            RESIZED_IMAGE_FORMAT: config_default_resized_image_format(),
            INDEX: config_default_true(),
            HIDDEN: config_default_false(),
        }
    }
}

/// The value an override document gives to the password key.
#[derive(Debug)]
pub enum PasswordSetting {
    /// A plain password string; empty disables the password.
    Value(String),
    /// The document held a value of the wrong type for the key; access is
    /// blocked with a random password so a typo never opens a directory.
    Invalid,
}

/// One directory's local override document: only the keys that the document
/// defines are present. Unknown keys of the document are ignored.
#[allow(non_snake_case)]
#[derive(Debug)]
pub struct DirOverride {
    pub INDEX: Option<bool>,
    pub HIDDEN: Option<bool>,
    pub PASSWORD: Option<PasswordSetting>,
    pub SHOW_PHOTOS_FROM_SUBDIRS: Option<bool>,
    pub SORT_ORDER: Option<String>,
    pub REVERSE_SORT_ORDER: Option<bool>,
}

impl DirOverride {
    /// An override that defines nothing: everything is inherited.
    pub fn none() -> (r: DirOverride)
        ensures
            r.INDEX is None,
            r.HIDDEN is None,
            r.PASSWORD is None,
            r.SHOW_PHOTOS_FROM_SUBDIRS is None,
            r.SORT_ORDER is None,
            r.REVERSE_SORT_ORDER is None,
    {
        DirOverride {
            INDEX: None,
            HIDDEN: None,
            PASSWORD: None,
            SHOW_PHOTOS_FROM_SUBDIRS: None,
            SORT_ORDER: None,
            REVERSE_SORT_ORDER: None,
        }
    }
}

/// A random password, long enough that it cannot be guessed, used to block
/// access when an override document holds an unusable password value.
fn random_block_password() -> (r: String)
    ensures
        r@.len() == 32,
{
    let mut r = String::new();
    let mut i: usize = 0;
    while i < 32
        invariant
            0 <= i <= 32,
            r@.len() == i,
        decreases 32 - i,
    {
        let draw = crate::uid::random_u64() % 16;
        let c = if draw < 10 {
            ((48 + draw) as u8) as char
        } else {
            ((87 + draw) as u8) as char
        };
        crate::strutil::push_char(&mut r, c);
        i = i + 1;
    }
    r
}

/// Resolve one directory's configuration from its parent's resolved
/// configuration and its own override document.
///
/// `HIDDEN` is reset before the override applies, so a hidden parent does
/// not hide its children; below the root the same holds for `PASSWORD`, so
/// a password guards exactly the subtree whose override defines it. Every
/// other overridable key is inherited unless the document defines it.
#[verifier::rlimit(60)]
pub fn apply_override(inherited: &Config, over: &DirOverride, is_root: bool) -> (r: Config)
    ensures
        r.INDEX == (if over.INDEX is Some {
            over.INDEX->0
        } else {
            inherited.INDEX
        }),
        r.HIDDEN == (if over.HIDDEN is Some {
            over.HIDDEN->0
        } else {
            false
        }),
        r.SHOW_PHOTOS_FROM_SUBDIRS == (if over.SHOW_PHOTOS_FROM_SUBDIRS is Some {
            over.SHOW_PHOTOS_FROM_SUBDIRS->0
        } else {
            inherited.SHOW_PHOTOS_FROM_SUBDIRS
        }),
        r.SORT_ORDER@ == (if over.SORT_ORDER is Some {
            over.SORT_ORDER->0@
        } else {
            inherited.SORT_ORDER@
        }),
        r.REVERSE_SORT_ORDER == (if over.REVERSE_SORT_ORDER is Some {
            over.REVERSE_SORT_ORDER->0
        } else {
            inherited.REVERSE_SORT_ORDER
        }),
        match over.PASSWORD {
            Some(PasswordSetting::Value(ref s)) => r.PASSWORD@ == s@,
            Some(PasswordSetting::Invalid) => r.PASSWORD@.len() == 32,
            None => r.PASSWORD@ == (if is_root {
                inherited.PASSWORD@
            } else {
                Seq::<char>::empty()
            }),
        },
        r.PHOTOS_DIR@ == inherited.PHOTOS_DIR@,
        r.CACHE_DIR@ == inherited.CACHE_DIR@,
        r.INDEX_SUBDIRS == inherited.INDEX_SUBDIRS,
        r.THUMBNAIL_MAX_SIZE == inherited.THUMBNAIL_MAX_SIZE,
        r.THUMBNAIL_QUALITY == inherited.THUMBNAIL_QUALITY,
        r.LARGE_VIEW_MAX_SIZE == inherited.LARGE_VIEW_MAX_SIZE,
        r.LARGE_VIEW_QUALITY == inherited.LARGE_VIEW_QUALITY,
        r.RESIZED_IMAGE_FORMAT == inherited.RESIZED_IMAGE_FORMAT,
{
    let index = match &over.INDEX {
        Some(v) => *v,
        None => inherited.INDEX,
    };
    let hidden = match &over.HIDDEN {
        Some(v) => *v,
        None => false,
    };
    let show_sub = match &over.SHOW_PHOTOS_FROM_SUBDIRS {
        Some(v) => *v,
        None => inherited.SHOW_PHOTOS_FROM_SUBDIRS,
    };
    let sort_order = match &over.SORT_ORDER {
        Some(v) => v.clone(),
        None => inherited.SORT_ORDER.clone(),
    };
    let reverse = match &over.REVERSE_SORT_ORDER {
        Some(v) => *v,
        None => inherited.REVERSE_SORT_ORDER,
    };
    let password = match &over.PASSWORD {
        Some(PasswordSetting::Value(s)) => s.clone(),
        Some(PasswordSetting::Invalid) => random_block_password(),
        None => if is_root {
            inherited.PASSWORD.clone()
        } else {
            String::new()
        },
    };
    Config {
        ADDRESS: inherited.ADDRESS.clone(),
        PORT: inherited.PORT,
        TITLE: inherited.TITLE.clone(),
        INSTAGRAM: inherited.INSTAGRAM.clone(),
        PHOTOS_DIR: inherited.PHOTOS_DIR.clone(),
        CACHE_DIR: inherited.CACHE_DIR.clone(),
        DATABASE_PATH: inherited.DATABASE_PATH.clone(),
        INDEX_SUBDIRS: inherited.INDEX_SUBDIRS,
        LOADING_WORKERS: inherited.LOADING_WORKERS,
        READ_EXIF: inherited.READ_EXIF,
        PRE_GENERATE_THUMBNAILS: inherited.PRE_GENERATE_THUMBNAILS,
        PASSWORD: password,
        SHOW_PHOTOS_FROM_SUBDIRS: show_sub,
        SHOW_NAVIGATION_PANEL: inherited.SHOW_NAVIGATION_PANEL,
        OPEN_NAVIGATION_PANEL_BY_DEFAULT: inherited.OPEN_NAVIGATION_PANEL_BY_DEFAULT,
        SORT_ORDER: sort_order,
        REVERSE_SORT_ORDER: reverse,
        DEFAULT_ROW_HEIGHT: inherited.DEFAULT_ROW_HEIGHT,
        ROW_HEIGHT_STEP: inherited.ROW_HEIGHT_STEP,
        MAX_CROP: inherited.MAX_CROP,
        SHOW_METADATA: inherited.SHOW_METADATA,
        SHOW_FILENAME_IN_METADATA: inherited.SHOW_FILENAME_IN_METADATA,
        METADATA_VISIBLE_BY_DEFAULT: inherited.METADATA_VISIBLE_BY_DEFAULT,
        SHOW_DOWNLOAD_BUTTON: inherited.SHOW_DOWNLOAD_BUTTON,
        DOWNLOAD_PREFIX: inherited.DOWNLOAD_PREFIX.clone(),
        SLIDESHOW_DELAY: inherited.SLIDESHOW_DELAY,
        THUMBNAIL_MAX_SIZE: inherited.THUMBNAIL_MAX_SIZE,
        THUMBNAIL_QUALITY: inherited.THUMBNAIL_QUALITY,
        LARGE_VIEW_MAX_SIZE: inherited.LARGE_VIEW_MAX_SIZE,
        LARGE_VIEW_QUALITY: inherited.LARGE_VIEW_QUALITY,
        RESIZED_IMAGE_FORMAT: inherited.RESIZED_IMAGE_FORMAT,
        INDEX: index,
        HIDDEN: hidden,
    }
}

} // verus!
