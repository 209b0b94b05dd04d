//! The resized-photo cache: deterministic file naming, quality clamping and
//! the cache-hit rule.
//!
//! The cache is addressed by identifier and profile, never by time: a
//! cached file is regenerated only if it is missing. Callers test for the
//! file and perform the decoding, resizing and encoding; this module
//! decides the path and the action.

use vstd::prelude::*;

use crate::config::{Config, ImageFormat};
use crate::strutil::spec_join;
use crate::uid::UID;

verus! {

/// The two resized variants kept in the cache.
#[allow(non_camel_case_types)]
#[derive(Debug, Clone, Copy, PartialEq, Eq, Structural)]
pub enum ResizedType {
    /// Grid thumbnails.
    THUMBNAIL,
    /// Large views for loupe mode.
    LARGE,
}

impl ResizedType {
    /// The file-name prefix of this variant in the cache.
    pub fn prefix(&self) -> (r: &'static str)
        ensures
            *self == ResizedType::THUMBNAIL ==> r@ == "thumbnail"@,
            *self == ResizedType::LARGE ==> r@ == "large"@,
    {
        match self {
            ResizedType::THUMBNAIL => "thumbnail",
            ResizedType::LARGE => "large",
        }
    }

    /// The configured bounding size of this variant, in pixels.
    pub fn max_size(&self, config: &Config) -> (r: usize)
        ensures
            *self == ResizedType::THUMBNAIL ==> r == config.THUMBNAIL_MAX_SIZE,
            *self == ResizedType::LARGE ==> r == config.LARGE_VIEW_MAX_SIZE,
    {
        match self {
            ResizedType::THUMBNAIL => config.THUMBNAIL_MAX_SIZE,
            ResizedType::LARGE => config.LARGE_VIEW_MAX_SIZE,
        }
    }

    /// The configured encoding quality of this variant, in percent.
    pub fn quality(&self, config: &Config) -> (r: usize)
        ensures
            *self == ResizedType::THUMBNAIL ==> r == config.THUMBNAIL_QUALITY,
            *self == ResizedType::LARGE ==> r == config.LARGE_VIEW_QUALITY,
    {
        match self {
            ResizedType::THUMBNAIL => config.THUMBNAIL_QUALITY,
            ResizedType::LARGE => config.LARGE_VIEW_QUALITY,
        }
    }
}

/// File extension of a cache format.
pub fn file_extension(format: ImageFormat) -> (r: &'static str)
    ensures
        format == ImageFormat::JPEG ==> r@ == "jpg"@,
        format == ImageFormat::WEBP ==> r@ == "webp"@,
{
    match format {
        ImageFormat::JPEG => "jpg",
        ImageFormat::WEBP => "webp",
    }
}

/// The cached file's name: `<prefix>_<identifier>.<extension>`.
pub open spec fn spec_resized_name(prefix: Seq<char>, uid: Seq<char>, ext: Seq<char>) -> Seq<
    char,
> {
    prefix + seq!['_'] + uid + seq!['.'] + ext
}

/// The name of the cached resized file for a photo and profile.
pub fn resized_file_name(resized_type: ResizedType, format: ImageFormat, uid: &UID) -> (r: String)
    ensures
        resized_type == ResizedType::THUMBNAIL && format == ImageFormat::JPEG ==> r@
            == spec_resized_name("thumbnail"@, uid@, "jpg"@),
        resized_type == ResizedType::THUMBNAIL && format == ImageFormat::WEBP ==> r@
            == spec_resized_name("thumbnail"@, uid@, "webp"@),
        resized_type == ResizedType::LARGE && format == ImageFormat::JPEG ==> r@
            == spec_resized_name("large"@, uid@, "jpg"@),
        resized_type == ResizedType::LARGE && format == ImageFormat::WEBP ==> r@
            == spec_resized_name("large"@, uid@, "webp"@),
    {
    let mut r = resized_type.prefix().to_owned();
    crate::strutil::push_char(&mut r, '_');
    let r2 = r.concat(uid.as_str());
    let mut r3 = r2;
    crate::strutil::push_char(&mut r3, '.');
    let r4 = r3.concat(file_extension(format));
    proof {
        assert(r4@ =~= spec_resized_name(
            (if resized_type == ResizedType::THUMBNAIL {
                "thumbnail"@
            } else {
                "large"@
            }),
            uid@,
            (if format == ImageFormat::JPEG {
                "jpg"@
            } else {
                "webp"@
            }),
        ));
    }
    r4
}

/// Where a photo's resized variant lives in the cache:
/// `<cache_root>/<logical path>/<file name>`.
pub open spec fn spec_resized_path(cache_dir: Seq<char>, path: Seq<char>, name: Seq<char>) -> Seq<
    char,
> {
    spec_join(cache_dir, spec_join(path, name))
}

/// The full cache path of a photo's resized variant.
pub fn resized_file_path(cache_dir: &str, path: &str, name: &str) -> (r: String)
    ensures
        r@ == spec_resized_path(cache_dir@, path@, name@),
{
    let rel = crate::strutil::join_path(path, name);
    crate::strutil::join_path(cache_dir, rel.as_str())
}

/// An encoder quality, clamped to what the encoders accept: values above
/// 255 fall back to 80 percent.
pub fn clamp_quality(quality: usize) -> (r: u8)
    ensures
        quality <= 255 ==> r == quality,
        quality > 255 ==> r == 80,
{
    if quality <= 255 {
        quality as u8
    } else {
        80
    }
}

/// What a request for a resized photo must do.
#[derive(Debug, PartialEq, Eq, Structural)]
pub enum ResizePlan {
    /// The cached file exists: serve it untouched, encode nothing.
    UseExisting,
    /// The cached file is missing: decode the source, resize it to fit the
    /// bounding size while preserving the aspect ratio, and encode it at
    /// the given quality.
    Generate { max_size: usize, quality: u8 },
}

/// Decide a resized-photo request from whether the cached file exists.
/// The cache is content-addressed, so presence of the file is the whole
/// test: an existing file is never re-encoded.
pub fn plan_resized(exists: bool, resized_type: ResizedType, config: &Config) -> (r: ResizePlan)
    ensures
        exists <==> r == ResizePlan::UseExisting,
        !exists ==> (r matches ResizePlan::Generate { max_size, quality } && max_size
            == (if resized_type == ResizedType::THUMBNAIL {
            config.THUMBNAIL_MAX_SIZE
        } else {
            config.LARGE_VIEW_MAX_SIZE
        }) && (resized_type.quality_spec(config) <= 255 ==> quality
            == resized_type.quality_spec(config)) && (resized_type.quality_spec(config) > 255
            ==> quality == 80)),
{
    if exists {
        ResizePlan::UseExisting
    } else {
        ResizePlan::Generate {
            max_size: resized_type.max_size(config),
            quality: clamp_quality(resized_type.quality(config)),
        }
    }
}

impl ResizedType {
    /// The configured quality of this variant, for contracts.
    pub open spec fn quality_spec(&self, config: &Config) -> usize {
        if *self == ResizedType::THUMBNAIL {
            config.THUMBNAIL_QUALITY
        } else {
            config.LARGE_VIEW_QUALITY
        }
    }
}

/// The set of cached paths after a request for `key` has been served: a
/// generated file joins the cache, an existing one leaves it unchanged.
pub open spec fn cache_after(cache: Set<Seq<char>>, key: Seq<char>) -> Set<Seq<char>> {
    cache.insert(key)
}

/// How many encodes a request for `key` performs against a given cache.
pub open spec fn encodes_for(cache: Set<Seq<char>>, key: Seq<char>) -> int {
    if cache.contains(key) {
        0
    } else {
        1
    }
}

/// Requesting the same resized file twice performs exactly one encode in
/// all: the first request adds the file to the cache, so the second finds
/// it and encodes nothing. The file's path is a function of the photo and
/// profile alone, so both requests name the same file.
pub proof fn lemma_resized_cache_hit(cache: Set<Seq<char>>, key: Seq<char>)
    ensures
        encodes_for(cache_after(cache, key), key) == 0,
        !cache.contains(key) ==> encodes_for(cache, key) + encodes_for(
            cache_after(cache, key),
            key,
        ) == 1,
        cache.contains(key) ==> encodes_for(cache, key) + encodes_for(
            cache_after(cache, key),
            key,
        ) == 0,
{
    broadcast use vstd::set::group_set_axioms;

    assert(cache_after(cache, key).contains(key));
}

} // verus!
