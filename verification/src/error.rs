//! The failures of building and querying an image.

use vstd::prelude::*;

verus! {

/// `std::io::Error`, carried as it comes from the archive readers.
#[verifier::external_type_specification]
#[verifier::external_body]
pub struct ExIoError(std::io::Error);

/// `serde_json::Error`, carried as it comes from reading a JSON document.
#[verifier::external_type_specification]
#[verifier::external_body]
pub struct ExJsonError(serde_json::Error);

/// `reqwest::Error`, carried as it comes from a request.
#[verifier::external_type_specification]
#[verifier::external_body]
pub struct ExHttpError(reqwest::Error);

/// Why an image could not be built, or a query not answered.
#[derive(Debug)]
pub enum ImageReaderError {
    /// A request failed.
    HttpError(reqwest::Error),
    /// A blob could not be read to its end.
    IoError(std::io::Error),
    /// The manifest document is not a manifest.
    ManifestParseError(serde_json::Error),
    /// The media type of a layer names no codec that can be read.
    UnsupportedFileType(String),
    /// The path is not in the index, or not in the layer that owns it.
    NotFound(String),
    /// The path is in the index but is no regular file.
    NotAFile(String),
}

impl From<reqwest::Error> for ImageReaderError {
    fn from(err: reqwest::Error) -> (e: ImageReaderError) {
        ImageReaderError::HttpError(err)
    }
}

impl vstd::std_specs::convert::FromSpecImpl<reqwest::Error> for ImageReaderError {
    open spec fn obeys_from_spec() -> bool {
        true
    }

    open spec fn from_spec(err: reqwest::Error) -> ImageReaderError {
        ImageReaderError::HttpError(err)
    }
}

impl From<std::io::Error> for ImageReaderError {
    fn from(err: std::io::Error) -> (e: ImageReaderError) {
        ImageReaderError::IoError(err)
    }
}

impl vstd::std_specs::convert::FromSpecImpl<std::io::Error> for ImageReaderError {
    open spec fn obeys_from_spec() -> bool {
        true
    }

    open spec fn from_spec(err: std::io::Error) -> ImageReaderError {
        ImageReaderError::IoError(err)
    }
}

impl From<serde_json::Error> for ImageReaderError {
    fn from(err: serde_json::Error) -> (e: ImageReaderError) {
        ImageReaderError::ManifestParseError(err)
    }
}

impl vstd::std_specs::convert::FromSpecImpl<serde_json::Error> for ImageReaderError {
    open spec fn obeys_from_spec() -> bool {
        true
    }

    open spec fn from_spec(err: serde_json::Error) -> ImageReaderError {
        ImageReaderError::ManifestParseError(err)
    }
}

} // verus!
