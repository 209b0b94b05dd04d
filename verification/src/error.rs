//! Error taxonomy of the library.
//!
//! Per-file failures during a scan are reported to the caller, who may log
//! them and skip the file; store-level failures abort the enclosing pass.

use vstd::prelude::*;

verus! {

/// General error type used across the crate.
///
/// `FileAccess` distinguishes "not found" from other failures, since a
/// missing path maps to a not-found response while other failures are fatal.
#[derive(Debug)]
pub enum Error {
    /// A path could not be read or written.
    FileAccess { path: String, not_found: bool },
    /// A source image could not be decoded.
    DecodeError { path: String },
    /// A resized image could not be encoded or written.
    EncodeError { path: String },
    /// Descriptive metadata could not be parsed from an image.
    MetadataParseError { path: String },
    /// The persisted store failed; aborts the enclosing reconciliation.
    PersistenceError { detail: String },
    /// A candidate identifier string had the wrong length or alphabet.
    MalformedIdentifier { value: String },
}

impl Error {
    /// A short, user-readable description of the error kind.
    pub fn message(&self) -> (r: String)
        ensures
            r@.len() > 0,
    {
        let r = match self {
            Error::FileAccess { path, not_found } => {
                if *not_found {
                    "path not found: ".to_owned().concat(path.as_str())
                } else {
                    "file access error: ".to_owned().concat(path.as_str())
                }
            },
            Error::DecodeError { path } => "unable to decode image: ".to_owned().concat(
                path.as_str(),
            ),
            Error::EncodeError { path } => "unable to encode image: ".to_owned().concat(
                path.as_str(),
            ),
            Error::MetadataParseError { path } => "unable to parse metadata: ".to_owned().concat(
                path.as_str(),
            ),
            Error::PersistenceError { detail } => "store error: ".to_owned().concat(
                detail.as_str(),
            ),
            Error::MalformedIdentifier { value } => "malformed identifier: ".to_owned().concat(
                value.as_str(),
            ),
        };
        proof {
            reveal_strlit("path not found: ");
            reveal_strlit("file access error: ");
            reveal_strlit("unable to decode image: ");
            reveal_strlit("unable to encode image: ");
            reveal_strlit("unable to parse metadata: ");
            reveal_strlit("store error: ");
            reveal_strlit("malformed identifier: ");
        }
        r
    }
}

} // verus!
