//! Image references as the command line takes them: `name:tag`, with or
//! without a registry in front.

use vstd::prelude::*;
use vstd::string::{StrSliceExecFns, StringExecFns};
use crate::error::ImageReaderError;
use crate::registry::RegistryError;
use crate::text::{
    find_first, find_last, first_position, last_position, lemma_first_position,
    lemma_last_position,
};

verus! {

/// `inquire::error::InquireError`, carried as it comes from a prompt.
#[verifier::external_type_specification]
#[verifier::external_body]
pub struct ExInquireError(inquire::error::InquireError);

/// Why a command could not be carried out.
#[derive(Debug)]
pub enum PeekoCliError {
    /// What the user typed cannot be read.
    Input(String),
    /// The image could not be read.
    ReaderRuntime(ImageReaderError),
    /// The registry could not be talked to.
    RegistryRuntime(RegistryError),
    /// The command failed while it ran.
    RuntimeError(String),
    /// A file could not be read or written.
    IoError(std::io::Error),
    /// A prompt failed.
    InteractionError(inquire::error::InquireError),
}

impl From<ImageReaderError> for PeekoCliError {
    fn from(err: ImageReaderError) -> (e: PeekoCliError) {
        PeekoCliError::ReaderRuntime(err)
    }
}

impl vstd::std_specs::convert::FromSpecImpl<ImageReaderError> for PeekoCliError {
    open spec fn obeys_from_spec() -> bool {
        true
    }

    open spec fn from_spec(err: ImageReaderError) -> PeekoCliError {
        PeekoCliError::ReaderRuntime(err)
    }
}

impl From<RegistryError> for PeekoCliError {
    fn from(err: RegistryError) -> (e: PeekoCliError) {
        PeekoCliError::RegistryRuntime(err)
    }
}

impl vstd::std_specs::convert::FromSpecImpl<RegistryError> for PeekoCliError {
    open spec fn obeys_from_spec() -> bool {
        true
    }

    open spec fn from_spec(err: RegistryError) -> PeekoCliError {
        PeekoCliError::RegistryRuntime(err)
    }
}

impl From<std::io::Error> for PeekoCliError {
    fn from(err: std::io::Error) -> (e: PeekoCliError) {
        PeekoCliError::IoError(err)
    }
}

impl vstd::std_specs::convert::FromSpecImpl<std::io::Error> for PeekoCliError {
    open spec fn obeys_from_spec() -> bool {
        true
    }

    open spec fn from_spec(err: std::io::Error) -> PeekoCliError {
        PeekoCliError::IoError(err)
    }
}

impl From<inquire::error::InquireError> for PeekoCliError {
    fn from(err: inquire::error::InquireError) -> (e: PeekoCliError) {
        PeekoCliError::InteractionError(err)
    }
}

impl vstd::std_specs::convert::FromSpecImpl<inquire::error::InquireError> for PeekoCliError {
    open spec fn obeys_from_spec() -> bool {
        true
    }

    open spec fn from_spec(err: inquire::error::InquireError) -> PeekoCliError {
        PeekoCliError::InteractionError(err)
    }
}

/// The registry that serves images whose reference names none.
pub open spec fn default_registry() -> Seq<char> {
    "https://registry-1.docker.io"@
}

/// The namespace of the images whose reference names none.
pub open spec fn library_prefix() -> Seq<char> {
    "library/"@
}

/// What stands in front of a registry's host name.
pub open spec fn scheme() -> Seq<char> {
    "https://"@
}

/// The two sides of the last `sep` in `s`, if `s` holds one.
pub open spec fn split_last(s: Seq<char>, sep: char) -> Option<(Seq<char>, Seq<char>)> {
    match last_position(s, sep) {
        Some(i) => Some((s.take(i), s.skip(i + 1))),
        None => None,
    }
}

/// The registry URL, the image name and the tag that a reference stands
/// for, or nothing where it has no tag.
///
/// The tag is what follows the last `:`. What stands before the first `/`
/// of the rest is a registry if it holds a `.`; then the image name is
/// what follows that `/`. Otherwise the registry is the default one and
/// the image name is all of the rest, in the namespace `library` if it
/// holds no `/`.
pub open spec fn parsed_reference(reference: Seq<char>) -> Option<
    (Seq<char>, Seq<char>, Seq<char>),
> {
    match split_last(reference, ':') {
        None => None,
        Some((name, tag)) => match first_position(name, '/') {
            Some(slash) => if first_position(name.take(slash), '.') is Some {
                Some((scheme() + name.take(slash), name.skip(slash + 1), tag))
            } else {
                Some((default_registry(), name, tag))
            },
            None => Some((default_registry(), library_prefix() + name, tag)),
        },
    }
}

/// Splits `s` at its last `sep`.
pub fn split_at_last<'a>(s: &'a str, sep: char) -> (r: Option<(&'a str, &'a str)>)
    ensures
        match r {
            Some((head, tail)) => split_last(s@, sep) == Some((head@, tail@)),
            None => split_last(s@, sep) is None,
        },
{
    match find_last(s, sep) {
        Some(i) => {
            proof {
                lemma_last_position(s@, sep);
            }
            let len = s.unicode_len();
            let head = s.substring_char(0, i);
            let tail = s.substring_char(i + 1, len);
            Some((head, tail))
        },
        None => None,
    }
}

/// Reads an image reference with a tag: the registry URL, the image name
/// and the tag. A reference without a tag is refused.
pub fn parse_image_url(image_url: &str) -> (r: Result<(String, String, String), PeekoCliError>)
    ensures
        match r {
            Ok((registry, image, tag)) => parsed_reference(image_url@) == Some(
                (registry@, image@, tag@),
            ),
            Err(e) => {
                &&& parsed_reference(image_url@) is None
                &&& e matches PeekoCliError::Input(message)
                &&& message@ == "Image tag is required"@
            },
        },
{
    let (name, tag) = match split_at_last(image_url, ':') {
        Some(parts) => parts,
        None => {
            return Err(PeekoCliError::Input("Image tag is required".to_owned()));
        },
    };
    match find_first(name, '/') {
        Some(slash) => {
            proof {
                lemma_first_position(name@, '/');
            }
            let len = name.unicode_len();
            let registry = name.substring_char(0, slash);
            match find_first(registry, '.') {
                Some(_) => {
                    let image = name.substring_char(slash + 1, len);
                    Ok(("https://".to_owned().concat(registry), image.to_owned(), tag.to_owned()))
                },
                None => Ok(
                    ("https://registry-1.docker.io".to_owned(), name.to_owned(), tag.to_owned()),
                ),
            }
        },
        None => Ok(
            (
                "https://registry-1.docker.io".to_owned(),
                "library/".to_owned().concat(name),
                tag.to_owned(),
            ),
        ),
    }
}

/// `s` with its last `from` replaced by `to`, or `s` as it is where it
/// holds no `from`.
pub open spec fn replace_last(s: Seq<char>, from: char, to: char) -> Seq<char> {
    match last_position(s, from) {
        Some(i) => s.update(i, to),
        None => s,
    }
}

/// The reference of an image that is kept in the directory `relative`,
/// given relative to the directory of all images: the last `/` of the
/// path, which parts the image's name from its tag, becomes a `:`.
pub fn image_reference(relative: &str) -> (reference: String)
    ensures
        reference@ == replace_last(relative@, '/', ':'),
{
    match split_at_last(relative, '/') {
        Some((name, tag)) => {
            let reference = name.to_owned().concat(":").concat(tag);
            proof {
                reveal_strlit(":");
                lemma_last_position(relative@, '/');
            }
            reference
        },
        None => relative.to_owned(),
    }
}

/// The references of the images that are kept in the given directories,
/// each given relative to the directory of all images, in the order of
/// the directories.
pub fn collect_images(directories: &Vec<String>) -> (images: Vec<String>)
    ensures
        images.len() == directories.len(),
        forall|i: int|
            0 <= i < images.len() ==> (#[trigger] images[i])@ == replace_last(
                directories[i]@,
                '/',
                ':',
            ),
{
    let mut images: Vec<String> = Vec::new();
    let mut i: usize = 0;
    while i < directories.len()
        invariant
            i <= directories.len(),
            images.len() == i,
            forall|j: int|
                0 <= j < i ==> (#[trigger] images[j])@ == replace_last(directories[j]@, '/', ':'),
        decreases directories.len() - i,
    {
        images.push(image_reference(directories[i].as_str()));
        i = i + 1;
    }
    images
}

/// The directory of an image below the directory of all images: its name,
/// a `/`, and its tag.
pub fn image_directory(image: &str, tag: &str) -> (dir: String)
    ensures
        dir@ == image@ + "/"@ + tag@,
{
    image.to_owned().concat("/").concat(tag)
}

} // verus!
