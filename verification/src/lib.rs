//! Core engine of a photo gallery server: an in-memory index of photo
//! metadata derived from a filesystem scan, reconciled against a persisted
//! store, guarded by a hierarchical password scheme, and paired with an
//! on-disk cache of resized images.
//!
//! The crate holds the logic only: callers perform filesystem, database and
//! image I/O and hand the results in as plain values.

pub mod config;
pub mod error;
pub mod hash;
pub mod index;
pub mod metadata;
pub mod nav_data;
pub mod password;
pub mod photo;
pub mod reconcile;
pub mod resize;
pub mod sort;
pub mod strutil;
pub mod subdirs;
pub mod uid;
