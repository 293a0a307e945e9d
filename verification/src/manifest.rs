//! The manifest of an image: its config blob and its layers in order, the
//! base first. The media type of a blob tells how it is packed and how
//! its file is named.

use std::collections::HashMap;
use vstd::prelude::*;
use vstd::string::{StrSliceExecFns, StringExecFns};
use crate::text::{find_last, last_position, lemma_last_position};

verus! {

/// A manifest document: the manifest of one image, or an index of the
/// manifests of an image for several platforms.
#[derive(Debug)]
pub enum Manifest {
    OCIManifest(ImageManifest),
    OCIIndex(ManifestList),
}

/// The manifest of one image.
#[derive(Debug)]
pub struct ImageManifest {
    /// Schema version declared by the manifest.
    pub schema_version: u32,
    /// Media type of the manifest.
    pub media_type: String,
    /// The configuration blob.
    pub config: Descriptor,
    /// The layers, the base first.
    pub layers: Vec<Descriptor>,
    /// Annotations, where the registry supplied any.
    pub annotations: Option<HashMap<String, String>>,
}

/// A reference to a blob.
#[derive(Debug)]
pub struct Descriptor {
    /// Digest of the blob.
    pub digest: String,
    /// Media type of the blob.
    pub media_type: String,
    /// Size of the blob in bytes.
    pub size: u64,
    /// Annotations, where the registry supplied any.
    pub annotations: Option<HashMap<String, String>>,
}

/// An index of manifests, one for each platform.
#[derive(Debug)]
pub struct ManifestList {
    /// Schema version declared by the index.
    pub schema_version: u32,
    /// Media type of the index.
    pub media_type: String,
    /// The manifests, in the order of the document.
    pub manifests: Vec<PlatformManifest>,
}

/// A reference to the manifest of an image for one platform.
#[derive(Debug)]
pub struct PlatformManifest {
    /// Digest of the manifest.
    pub digest: String,
    /// Media type of the manifest.
    pub media_type: String,
    /// The platform that the image is for.
    pub platform: Platform,
    /// Size of the manifest in bytes.
    pub size: u64,
    /// Annotations, where the registry supplied any.
    pub annotations: Option<HashMap<String, String>>,
}

/// A platform: architecture and operating system, and what narrows them
/// down.
#[derive(Debug)]
pub struct Platform {
    /// CPU architecture, such as `amd64` or `arm64`.
    pub architecture: String,
    /// Operating system, such as `linux`.
    pub os: String,
    /// Version of the operating system.
    pub os_version: Option<String>,
    /// Features of the operating system that the image needs.
    pub os_features: Option<Vec<String>>,
    /// Variant of the CPU, such as `v7`.
    pub variant: Option<String>,
}

/// One step of the history of an image.
#[derive(Debug, Clone)]
pub struct HistoryEntry {
    /// When the step was taken.
    pub created: String,
    /// The command that made the step.
    pub created_by: String,
    /// Whether the step left the filesystem as it was.
    pub empty_layer: bool,
    /// A comment on the step.
    pub comment: Option<String>,
}

/// The root filesystem of an image as its config describes it.
#[derive(Debug, Clone)]
pub struct RootFs {
    /// The kind of filesystem, as a rule `layers`.
    pub fs_type: String,
    /// The digests of the unpacked layers, the base first.
    pub diff_ids: Vec<String>,
}

/// The tag for media types that name no codec.
pub open spec fn default_file_type() -> Seq<char> {
    "tar"@
}

/// The codec tag of a media type: what follows its last `+`; without a
/// `+`, what follows its last `.`; without either, `tar`.
pub open spec fn file_type_of(media_type: Seq<char>) -> Seq<char> {
    match last_position(media_type, '+') {
        Some(i) => media_type.skip(i + 1),
        None => match last_position(media_type, '.') {
            Some(i) => media_type.skip(i + 1),
            None => default_file_type(),
        },
    }
}

/// The codec tag of a media type, which is also the extension of the
/// blob's file.
pub fn get_file_type<'a>(media_type: &'a str) -> (file_type: &'a str)
    ensures
        file_type@ == file_type_of(media_type@),
{
    let cut = match find_last(media_type, '+') {
        Some(i) => Some(i),
        None => find_last(media_type, '.'),
    };
    match cut {
        Some(i) => {
            proof {
                lemma_last_position(media_type@, '+');
                lemma_last_position(media_type@, '.');
            }
            let len = media_type.unicode_len();
            let tail = media_type.substring_char(i + 1, len);
            tail
        },
        None => "tar",
    }
}

/// The name of the file that holds the blob: its digest, a dot, and the
/// codec tag of its media type.
pub open spec fn blob_name_of(digest: Seq<char>, media_type: Seq<char>) -> Seq<char> {
    digest + "."@ + file_type_of(media_type)
}

impl Descriptor {
    /// The name of the file that holds the blob.
    pub fn blob_file_name(&self) -> (name: String)
        ensures
            name@ == blob_name_of(self.digest@, self.media_type@),
    {
        let mut name = self.digest.clone();
        name.append(".");
        name.append(get_file_type(self.media_type.as_str()));
        name
    }
}

} // verus!
