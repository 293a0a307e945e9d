//! What a registry client has to decide between its requests: which
//! manifest of an index to take, what a content type stands for, where a
//! token is to be had, which blobs an image is made of.
//!
//! The requests themselves are not made here.

use vstd::prelude::*;
use vstd::string::{StrSliceExecFns, StringExecFns};
use crate::manifest::{
    Descriptor, ImageManifest, Manifest, ManifestList, Platform, PlatformManifest,
};
use crate::text::{
    find_first, first_position, lemma_first_position, split, split_parts, starts_with, str_eq,
    strip_last, strip_prefix, trim, trimmed, without_last, without_prefix,
};

verus! {

/// Why a registry could not be talked to, or did not give what was asked
/// of it.
#[derive(Debug)]
pub enum RegistryError {
    /// The response lacks the header.
    HeaderNotFound(String),
    /// The token service answered with this status.
    TokenFetchFailed(u16),
    /// The token service answered without a token.
    TokenNotFound,
    /// The manifest has a content type that is not known.
    UnsupportedContentType(String),
    /// The registry has no manifest for the image, or none for the
    /// platform.
    ManifestNotFound,
    /// The manifest document is not a manifest.
    ManifestParseError(serde_json::Error),
    /// The registry answered a download with this status.
    DownloadError(u16),
    /// The request failed.
    HttpError(reqwest::Error),
    /// A file could not be written.
    IoError(std::io::Error),
}

impl From<serde_json::Error> for RegistryError {
    fn from(err: serde_json::Error) -> (e: RegistryError) {
        RegistryError::ManifestParseError(err)
    }
}

impl vstd::std_specs::convert::FromSpecImpl<serde_json::Error> for RegistryError {
    open spec fn obeys_from_spec() -> bool {
        true
    }

    open spec fn from_spec(err: serde_json::Error) -> RegistryError {
        RegistryError::ManifestParseError(err)
    }
}

impl From<reqwest::Error> for RegistryError {
    fn from(err: reqwest::Error) -> (e: RegistryError) {
        RegistryError::HttpError(err)
    }
}

impl vstd::std_specs::convert::FromSpecImpl<reqwest::Error> for RegistryError {
    open spec fn obeys_from_spec() -> bool {
        true
    }

    open spec fn from_spec(err: reqwest::Error) -> RegistryError {
        RegistryError::HttpError(err)
    }
}

impl From<std::io::Error> for RegistryError {
    fn from(err: std::io::Error) -> (e: RegistryError) {
        RegistryError::IoError(err)
    }
}

impl vstd::std_specs::convert::FromSpecImpl<std::io::Error> for RegistryError {
    open spec fn obeys_from_spec() -> bool {
        true
    }

    open spec fn from_spec(err: std::io::Error) -> RegistryError {
        RegistryError::IoError(err)
    }
}

/// A status that tells of success: one from 200 up to 299.
pub open spec fn is_success(status: u16) -> bool {
    200 <= status < 300
}

/// Reads the status with which a token service answered: anything but
/// success is refused.
pub fn token_answer(status: u16) -> (r: Result<(), RegistryError>)
    ensures
        match r {
            Ok(()) => is_success(status),
            Err(e) => {
                &&& !is_success(status)
                &&& e matches RegistryError::TokenFetchFailed(s)
                &&& s == status
            },
        },
{
    if 200 <= status && status < 300 {
        Ok(())
    } else {
        Err(RegistryError::TokenFetchFailed(status))
    }
}

/// Reads the status with which a registry answered the request for a
/// blob: anything but success is refused.
pub fn download_answer(status: u16) -> (r: Result<(), RegistryError>)
    ensures
        match r {
            Ok(()) => is_success(status),
            Err(e) => {
                &&& !is_success(status)
                &&& e matches RegistryError::DownloadError(s)
                &&& s == status
            },
        },
{
    if 200 <= status && status < 300 {
        Ok(())
    } else {
        Err(RegistryError::DownloadError(status))
    }
}

/// Takes the text of the header `name` out of a response: a header that
/// is not there, or is no text, is refused.
pub fn header_text<'a>(name: &str, value: Option<&'a str>) -> (r: Result<&'a str, RegistryError>)
    ensures
        match value {
            Some(text) => r == Ok::<&str, RegistryError>(text),
            None => r matches Err(RegistryError::HeaderNotFound(missing)) && missing@ == name@,
        },
{
    match value {
        Some(text) => Ok(text),
        None => Err(RegistryError::HeaderNotFound(name.to_owned())),
    }
}

/// What narrows down the platform for which an image is wanted. What is
/// left open fits every platform.
pub struct PlatformParam {
    /// The CPU architecture.
    pub architecture: Option<String>,
    /// The operating system.
    pub os: Option<String>,
    /// The variant of the CPU.
    pub variant: Option<String>,
}

/// Something that is told how downloads get on.
pub trait ProgressTracker: Send + Sync {
    /// The download of the blob `digest` begins; it has `total_bytes`
    /// bytes.
    fn start_download(&self, digest: &str, total_bytes: u64);

    /// `bytes` more bytes of the blob `digest` have come in.
    fn update(&self, digest: &str, bytes: u64);

    /// The blob `digest` is complete.
    fn finish(&self, digest: &str);
}

/// A tracker that tells nobody.
pub struct NoopProgress;

impl ProgressTracker for NoopProgress {
    fn start_download(&self, _digest: &str, _total_bytes: u64) {
    }

    fn update(&self, _digest: &str, _bytes: u64) {
    }

    fn finish(&self, _digest: &str) {
    }
}

/// The platform is one that is wanted: it has the architecture and the
/// operating system that are asked for, and where a variant is asked for
/// and the platform names one, that variant.
pub open spec fn wanted(platform: Platform, param: PlatformParam) -> bool {
    &&& param.architecture matches Some(arch) ==> platform.architecture@ == arch@
    &&& param.os matches Some(os) ==> platform.os@ == os@
    &&& (param.variant matches Some(variant) ==> (platform.variant matches Some(has) ==> has@
        == variant@))
}

/// Tells whether the platform is one that is wanted.
pub fn platform_matches(platform: &Platform, param: &PlatformParam) -> (r: bool)
    ensures
        r == wanted(*platform, *param),
{
    if let Some(arch) = &param.architecture {
        if !str_eq(platform.architecture.as_str(), arch.as_str()) {
            return false;
        }
    }
    if let Some(os) = &param.os {
        if !str_eq(platform.os.as_str(), os.as_str()) {
            return false;
        }
    }
    if let Some(variant) = &param.variant {
        if let Some(has) = &platform.variant {
            if !str_eq(has.as_str(), variant.as_str()) {
                return false;
            }
        }
    }
    true
}

/// The position of the first manifest of the index whose platform is
/// wanted, or the number of manifests where none is.
pub open spec fn first_wanted(manifests: Seq<PlatformManifest>, param: PlatformParam) -> int
    decreases manifests.len(),
{
    if manifests.len() == 0 {
        0
    } else if first_wanted(manifests.drop_last(), param) < manifests.len() - 1 {
        first_wanted(manifests.drop_last(), param)
    } else if wanted(manifests.last().platform, param) {
        manifests.len() - 1
    } else {
        manifests.len() as int
    }
}

/// What `first_wanted` finds: a manifest whose platform is wanted, with
/// none such before it; or the number of manifests exactly where none is
/// wanted.
pub proof fn lemma_first_wanted(manifests: Seq<PlatformManifest>, param: PlatformParam)
    ensures
        0 <= first_wanted(manifests, param) <= manifests.len(),
        first_wanted(manifests, param) < manifests.len() ==> wanted(
            manifests[first_wanted(manifests, param)].platform,
            param,
        ),
        forall|j: int|
            0 <= j < first_wanted(manifests, param) ==> !wanted((#[trigger] manifests[j]).platform, param),
    decreases manifests.len(),
{
    if manifests.len() > 0 {
        let front = manifests.drop_last();
        lemma_first_wanted(front, param);
        assert(forall|j: int| 0 <= j < front.len() ==> front[j] == manifests[j]);
    }
}

/// Picks from an index the first manifest whose platform is wanted. With
/// nothing asked for, that is the first manifest of the index.
pub fn match_manifest<'a>(manifest_list: &'a ManifestList, platform: &PlatformParam) -> (r: Option<
    &'a PlatformManifest,
>)
    ensures
        match r {
            Some(found) => first_wanted(manifest_list.manifests@, *platform)
                < manifest_list.manifests@.len() && *found == manifest_list.manifests@[first_wanted(
                manifest_list.manifests@,
                *platform,
            )],
            None => first_wanted(manifest_list.manifests@, *platform)
                == manifest_list.manifests@.len(),
        },
{
    let ghost all = manifest_list.manifests@;
    let mut i: usize = 0;
    while i < manifest_list.manifests.len()
        invariant
            i <= manifest_list.manifests.len(),
            all == manifest_list.manifests@,
            first_wanted(all.take(i as int), *platform) == i,
        decreases manifest_list.manifests.len() - i,
    {
        proof {
            assert(all.take(i + 1).drop_last() =~= all.take(i as int));
        }
        if platform_matches(&manifest_list.manifests[i].platform, platform) {
            proof {
                lemma_first_wanted_stays(all, *platform, i + 1);
            }
            return Some(&manifest_list.manifests[i]);
        }
        i = i + 1;
    }
    proof {
        assert(all.take(i as int) =~= all);
    }
    None
}

/// Once found among the first `n` manifests, a manifest stays the first
/// however many follow.
proof fn lemma_first_wanted_stays(manifests: Seq<PlatformManifest>, param: PlatformParam, n: int)
    requires
        0 <= n <= manifests.len(),
        first_wanted(manifests.take(n), param) < n,
    ensures
        first_wanted(manifests, param) == first_wanted(manifests.take(n), param),
    decreases manifests.len() - n,
{
    if n < manifests.len() {
        assert(manifests.take(n + 1).drop_last() =~= manifests.take(n));
        lemma_first_wanted_stays(manifests, param, n + 1);
    } else {
        assert(manifests.take(n) =~= manifests);
    }
}

/// What a manifest document is, by its content type.
#[derive(Clone, Copy, Debug, PartialEq, Eq, Structural)]
pub enum ManifestKind {
    /// The manifest of one image.
    Image,
    /// An index of manifests.
    Index,
}

/// The kind of document that a content type stands for, if it is one of
/// the four that are known.
pub open spec fn manifest_kind_of(content_type: Seq<char>) -> Option<ManifestKind> {
    if content_type == "application/vnd.oci.image.manifest.v1+json"@ || content_type
        == "application/vnd.docker.distribution.manifest.v2+json"@ {
        Some(ManifestKind::Image)
    } else if content_type == "application/vnd.oci.image.index.v1+json"@ || content_type
        == "application/vnd.docker.distribution.manifest.list.v2+json"@ {
        Some(ManifestKind::Index)
    } else {
        None
    }
}

/// Reads the content type of a manifest document. One that is not known
/// is refused.
pub fn manifest_kind(content_type: &str) -> (r: Result<ManifestKind, RegistryError>)
    ensures
        match r {
            Ok(kind) => manifest_kind_of(content_type@) == Some(kind),
            Err(e) => {
                &&& manifest_kind_of(content_type@) is None
                &&& e matches RegistryError::UnsupportedContentType(given)
                &&& given@ == content_type@
            },
        },
{
    if str_eq(content_type, "application/vnd.oci.image.manifest.v1+json") || str_eq(
        content_type,
        "application/vnd.docker.distribution.manifest.v2+json",
    ) {
        Ok(ManifestKind::Image)
    } else if str_eq(content_type, "application/vnd.oci.image.index.v1+json") || str_eq(
        content_type,
        "application/vnd.docker.distribution.manifest.list.v2+json",
    ) {
        Ok(ManifestKind::Index)
    } else {
        Err(RegistryError::UnsupportedContentType(content_type.to_owned()))
    }
}

/// What is to be done with a manifest document that a registry sent.
pub enum Resolution {
    /// It is the manifest of the image.
    Image(ImageManifest),
    /// It is an index; the manifest with this digest is to be fetched.
    Fetch(String),
    /// It is an index without a manifest for the platform.
    NotFound,
}

/// Decides what is to be done with the document that was sent for an
/// image and a tag.
pub fn resolve_manifest(manifest: Manifest, platform: &PlatformParam) -> (r: Resolution)
    ensures
        match manifest {
            Manifest::OCIManifest(image) => r == Resolution::Image(image),
            Manifest::OCIIndex(list) => if first_wanted(list.manifests@, *platform)
                < list.manifests@.len() {
                r matches Resolution::Fetch(digest) && digest@ == list.manifests@[first_wanted(
                    list.manifests@,
                    *platform,
                )].digest@
            } else {
                r is NotFound
            },
        },
{
    match manifest {
        Manifest::OCIManifest(image) => Resolution::Image(image),
        Manifest::OCIIndex(list) => match match_manifest(&list, platform) {
            Some(found) => Resolution::Fetch(found.digest.clone()),
            None => Resolution::NotFound,
        },
    }
}

/// Takes the manifest of an image out of the document that was sent for
/// a digest. An index in that place is refused.
pub fn expect_image(manifest: Manifest) -> (r: Result<ImageManifest, RegistryError>)
    ensures
        match manifest {
            Manifest::OCIManifest(image) => r == Ok::<ImageManifest, RegistryError>(image),
            Manifest::OCIIndex(_) => r matches Err(RegistryError::ManifestNotFound),
        },
{
    match manifest {
        Manifest::OCIManifest(image) => Ok(image),
        Manifest::OCIIndex(_) => Err(RegistryError::ManifestNotFound),
    }
}

/// The blobs that an image is made of: its layers, the base first, and
/// then its config.
pub fn blobs_of(manifest: &ImageManifest) -> (blobs: Vec<&Descriptor>)
    ensures
        blobs.len() == manifest.layers.len() + 1,
        forall|i: int| 0 <= i < manifest.layers.len() ==> *(#[trigger] blobs[i]) == manifest.layers[i],
        *blobs[manifest.layers.len() as int] == manifest.config,
{
    let mut blobs: Vec<&Descriptor> = Vec::new();
    let mut i: usize = 0;
    while i < manifest.layers.len()
        invariant
            i <= manifest.layers.len(),
            blobs.len() == i,
            forall|j: int| 0 <= j < i ==> *(#[trigger] blobs[j]) == manifest.layers[j],
        decreases manifest.layers.len() - i,
    {
        blobs.push(&manifest.layers[i]);
        i = i + 1;
    }
    blobs.push(&manifest.config);
    blobs
}

/// The address of the manifest of an image under a tag or a digest.
pub fn manifest_url(registry_url: &str, image: &str, reference: &str) -> (url: String)
    ensures
        url@ == registry_url@ + "/v2/"@ + image@ + "/manifests/"@ + reference@,
{
    registry_url.to_owned().concat("/v2/").concat(image).concat("/manifests/").concat(reference)
}

/// The address of a blob of an image.
pub fn blob_url(registry_url: &str, image: &str, digest: &str) -> (url: String)
    ensures
        url@ == registry_url@ + "/v2/"@ + image@ + "/blobs/"@ + digest@,
{
    registry_url.to_owned().concat("/v2/").concat(image).concat("/blobs/").concat(digest)
}

/// Picks the token out of the answer of a token service: the field
/// `token`, or else the field `access_token`.
pub fn pick_token(token: Option<String>, access_token: Option<String>) -> (r: Result<
    String,
    RegistryError,
>)
    ensures
        match token {
            Some(first) => r == Ok::<String, RegistryError>(first),
            None => match access_token {
                Some(second) => r == Ok::<String, RegistryError>(second),
                None => r matches Err(RegistryError::TokenNotFound),
            },
        },
{
    match token {
        Some(first) => Ok(first),
        None => match access_token {
            Some(second) => Ok(second),
            None => Err(RegistryError::TokenNotFound),
        },
    }
}

/// How a request is to be signed.
#[derive(Debug, PartialEq, Eq)]
pub enum Auth<'a> {
    /// With a bearer token.
    Bearer(&'a str),
    /// With a user name and a password.
    Basic(&'a str, &'a str),
    /// Not at all.
    Anonymous,
}

/// Decides how a request is to be signed: with the token where there is
/// one, else with user name and password where both are there.
pub fn auth_for<'a>(
    token: &'a Option<String>,
    username: &'a Option<String>,
    password: &'a Option<String>,
) -> (auth: Auth<'a>)
    ensures
        match (*token, *username, *password) {
            (Some(t), _, _) => auth matches Auth::Bearer(with) && with@ == t@,
            (None, Some(u), Some(p)) => auth matches Auth::Basic(user, pass) && user@ == u@ && pass@
                == p@,
            _ => auth is Anonymous,
        },
{
    match token {
        Some(t) => Auth::Bearer(t.as_str()),
        None => match (username, password) {
            (Some(u), Some(p)) => Auth::Basic(u.as_str(), p.as_str()),
            _ => Auth::Anonymous,
        },
    }
}

/// What a registry asks for when it refuses a request for want of a
/// token: where the token is to be had, for which service, and for which
/// scope.
pub struct Challenge {
    pub realm: String,
    pub service: String,
    pub scope: Option<String>,
}

/// A `Challenge` with its strings as sequences of characters.
pub struct ChallengeView {
    pub realm: Seq<char>,
    pub service: Seq<char>,
    pub scope: Option<Seq<char>>,
}

impl View for Challenge {
    type V = ChallengeView;

    open spec fn view(&self) -> ChallengeView {
        ChallengeView {
            realm: self.realm@,
            service: self.service@,
            scope: match self.scope {
                Some(scope) => Some(scope@),
                None => None,
            },
        }
    }
}

/// The value of a parameter: what stands between `prefix`, which ends
/// with the opening quote, and a closing quote at the end of `part`.
pub open spec fn quoted(part: Seq<char>, prefix: Seq<char>) -> Option<Seq<char>> {
    match without_prefix(part, prefix) {
        Some(rest) => without_last(rest, '"'),
        None => None,
    }
}

/// The value of a parameter, or nothing where it is not quoted.
pub open spec fn quoted_or_empty(part: Seq<char>, prefix: Seq<char>) -> Seq<char> {
    match quoted(part, prefix) {
        Some(value) => value,
        None => Seq::empty(),
    }
}

/// The challenge after one more part of the header is read. A part is
/// read without the white space around it. One that begins with
/// `Bearer realm=`, `service=` or `scope=` sets that parameter, to its
/// quoted value or, where it is not quoted, to nothing; any other part
/// is passed over.
pub open spec fn after_part(so_far: ChallengeView, part: Seq<char>) -> ChallengeView {
    let part = trimmed(part);
    if "Bearer realm="@.is_prefix_of(part) {
        ChallengeView { realm: quoted_or_empty(part, "Bearer realm=\""@), ..so_far }
    } else if "service="@.is_prefix_of(part) {
        ChallengeView { service: quoted_or_empty(part, "service=\""@), ..so_far }
    } else if "scope="@.is_prefix_of(part) {
        ChallengeView { scope: quoted(part, "scope=\""@), ..so_far }
    } else {
        so_far
    }
}

/// The challenge after the given parts of the header are read, the later
/// part overriding the earlier.
pub open spec fn after_parts(parts: Seq<Seq<char>>) -> ChallengeView
    decreases parts.len(),
{
    if parts.len() == 0 {
        ChallengeView { realm: Seq::empty(), service: Seq::empty(), scope: None }
    } else {
        after_part(after_parts(parts.drop_last()), parts.last())
    }
}

/// The challenge that a `www-authenticate` header states: its parts are
/// what stands between its commas.
pub open spec fn challenge_of(header: Seq<char>) -> ChallengeView {
    after_parts(split(header, ','))
}

fn quoted_value<'a>(part: &'a str, prefix: &str) -> (r: Option<&'a str>)
    ensures
        match r {
            Some(value) => quoted(part@, prefix@) == Some(value@),
            None => quoted(part@, prefix@) is None,
        },
{
    match strip_prefix(part, prefix) {
        Some(rest) => strip_last(rest, '"'),
        None => None,
    }
}

fn quoted_text(part: &str, prefix: &str) -> (r: String)
    ensures
        r@ == quoted_or_empty(part@, prefix@),
{
    match quoted_value(part, prefix) {
        Some(value) => value.to_owned(),
        None => String::new(),
    }
}

/// Reads the challenge out of a `www-authenticate` header.
pub fn parse_challenge(header: &str) -> (challenge: Challenge)
    ensures
        challenge@ == challenge_of(header@),
{
    let parts = split_parts(header, ',');
    let ghost all = split(header@, ',');
    let mut challenge = Challenge { realm: String::new(), service: String::new(), scope: None };
    let mut i: usize = 0;
    while i < parts.len()
        invariant
            i <= parts.len(),
            all == Seq::new(parts@.len(), |k: int| parts@[k]@),
            challenge@ == after_parts(all.take(i as int)),
        decreases parts.len() - i,
    {
        proof {
            assert(all.take(i + 1).drop_last() =~= all.take(i as int));
        }
        let part = trim(parts[i].as_str());
        if starts_with(part, "Bearer realm=") {
            challenge.realm = quoted_text(part, "Bearer realm=\"");
        } else if starts_with(part, "service=") {
            challenge.service = quoted_text(part, "service=\"");
        } else if starts_with(part, "scope=") {
            challenge.scope = match quoted_value(part, "scope=\"") {
                Some(value) => Some(value.to_owned()),
                None => None,
            };
        }
        i = i + 1;
    }
    proof {
        assert(all.take(i as int) =~= all);
    }
    challenge
}

/// The address at which the token for a challenge is to be had.
pub open spec fn token_url_of(challenge: ChallengeView) -> Seq<char> {
    let base = challenge.realm + "?service="@ + challenge.service;
    match challenge.scope {
        Some(scope) => base + "&scope="@ + scope,
        None => base,
    }
}

impl Challenge {
    /// The address at which the token is to be had.
    pub fn token_url(&self) -> (url: String)
        ensures
            url@ == token_url_of(self@),
    {
        let base = self.realm.clone().concat("?service=").concat(self.service.as_str());
        match &self.scope {
            Some(scope) => base.concat("&scope=").concat(scope.as_str()),
            None => base,
        }
    }
}

/// The digest as it is shown beside a progress bar. Of a digest with a
/// `:`, it is what follows the first `:`, up to the twelfth character
/// from the `:` on; of any other, its first twelve characters.
pub open spec fn short_digest_of(digest: Seq<char>) -> Seq<char> {
    match first_position(digest, ':') {
        Some(i) => digest.subrange(
            i + 1,
            if i + 12 < digest.len() {
                i + 12
            } else {
                digest.len() as int
            },
        ),
        None => digest.take(
            if 12 < digest.len() {
                12
            } else {
                digest.len() as int
            },
        ),
    }
}

/// Cuts a digest down for showing.
pub fn short_digest(digest: &str) -> (short: &str)
    ensures
        short@ == short_digest_of(digest@),
{
    let len = digest.unicode_len();
    match find_first(digest, ':') {
        Some(i) => {
            proof {
                lemma_first_position(digest@, ':');
            }
            let to = if len - i > 12 {
                i + 12
            } else {
                len
            };
            digest.substring_char(i + 1, to)
        },
        None => {
            let to = if len > 12 {
                12
            } else {
                len
            };
            let short = digest.substring_char(0, to);
            short
        },
    }
}

} // verus!
