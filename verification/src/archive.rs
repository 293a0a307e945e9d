//! Layer archives: which codec a media type calls for, and the entries
//! that an archive holds.
//!
//! Decompression and the tar format are the work of the `flate2`, `zstd`
//! and `tar` crates. What they return is a function of the bytes they are
//! given; the contracts here give those results names and say nothing more
//! of them.

use std::io::Read;
use vstd::prelude::*;
use vstd::utf8::{decode_utf8, valid_utf8};
use crate::path::normalize;
use crate::path::normalize_path;
use crate::text::str_eq;

verus! {

/// How a layer blob is packed.
#[derive(Clone, Copy, Debug, PartialEq, Eq, Structural)]
pub enum Codec {
    /// A plain tar archive.
    Tar,
    /// A gzip stream around a tar archive.
    Gzip,
    /// A zstd stream around a tar archive.
    Zstd,
}

/// The kind of an archive entry, as far as the index tells kinds apart.
#[derive(Clone, Copy, Debug, PartialEq, Eq, Structural)]
pub enum EntryKind {
    Regular,
    Directory,
    Symlink,
    Link,
    Other,
}

/// One entry of a layer archive: its path, kind, size in bytes and, for a
/// link, where it points.
#[derive(Debug, Clone, PartialEq, Eq)]
pub struct ArchiveEntry {
    pub path: String,
    pub kind: EntryKind,
    pub size: u64,
    pub link_name: Option<String>,
}

/// An `ArchiveEntry` with its strings as sequences of characters.
pub struct ArchiveEntryView {
    pub path: Seq<char>,
    pub kind: EntryKind,
    pub size: u64,
    pub link_name: Option<Seq<char>>,
}

impl View for ArchiveEntry {
    type V = ArchiveEntryView;

    open spec fn view(&self) -> ArchiveEntryView {
        ArchiveEntryView {
            path: self.path@,
            kind: self.kind,
            size: self.size,
            link_name: match self.link_name {
                Some(target) => Some(target@),
                None => None,
            },
        }
    }
}

/// The views of a list of entries.
pub open spec fn entry_views(entries: Seq<ArchiveEntry>) -> Seq<ArchiveEntryView> {
    Seq::new(entries.len(), |i: int| entries[i]@)
}

/// An entry as the tar reader hands it out: path and link name as the bytes
/// of the header, the kind as the header's type flag.
pub struct RawEntry {
    pub path: Vec<u8>,
    pub kind: u8,
    pub size: u64,
    pub link_name: Option<Vec<u8>>,
}

/// A `RawEntry` with its bytes as sequences.
pub struct RawEntryView {
    pub path: Seq<u8>,
    pub kind: u8,
    pub size: u64,
    pub link_name: Option<Seq<u8>>,
}

impl View for RawEntry {
    type V = RawEntryView;

    open spec fn view(&self) -> RawEntryView {
        RawEntryView {
            path: self.path@,
            kind: self.kind,
            size: self.size,
            link_name: match self.link_name {
                Some(target) => Some(target@),
                None => None,
            },
        }
    }
}

/// The views of a list of raw entries.
pub open spec fn raw_views(entries: Seq<RawEntry>) -> Seq<RawEntryView> {
    Seq::new(entries.len(), |i: int| entries[i]@)
}

/// The length of a block of a tar archive. Headers begin at multiples of
/// it.
pub open spec fn block_len() -> int {
    512
}

/// The block that begins at `at` has the marks of a GNU header for a
/// sparse file: the type flag `S`, and the magic `ustar ` with the
/// version ` \0`.
pub open spec fn sparse_header(data: Seq<u8>, at: int) -> bool {
    &&& 0 <= at
    &&& at + block_len() <= data.len()
    &&& data[at + 156] == 0x53
    &&& data[at + 257] == 0x75
    &&& data[at + 258] == 0x73
    &&& data[at + 259] == 0x74
    &&& data[at + 260] == 0x61
    &&& data[at + 261] == 0x72
    &&& data[at + 262] == 0x20
    &&& data[at + 263] == 0x20
    &&& data[at + 264] == 0x00
}

/// The block that begins at `at` has the marks of a GNU header for a
/// sparse file that goes on in further headers: those of a sparse
/// header, and the mark that more sparse headers follow.
pub open spec fn extended_sparse_header(data: Seq<u8>, at: int) -> bool {
    sparse_header(data, at) && data[at + 482] == 1
}

/// The archive can be handed to the tar reader to be listed: none of its
/// blocks has the marks of an extended sparse header.
///
/// The reader counts the further headers of such a file on without a
/// check, so that a header which claims a size near the greatest number
/// makes the count overflow. An archive with such a block is refused
/// before the reader sees it, whatever size the block claims.
pub open spec fn walkable(data: Seq<u8>) -> bool {
    forall|at: int| at % block_len() == 0 ==> !#[trigger] extended_sparse_header(data, at)
}

/// The archive can be handed to the tar reader to have an entry read:
/// none of its blocks has the marks of a sparse header.
///
/// The reader fills the holes of a sparse file with zeros as it reads,
/// and a header may claim holes far greater than any memory. An archive
/// with such a block is refused before an entry of it is read, whatever
/// holes the block claims.
pub open spec fn dense(data: Seq<u8>) -> bool {
    forall|at: int| at % block_len() == 0 ==> !#[trigger] sparse_header(data, at)
}

/// Tells whether the block that begins at `at` has the marks of a sparse
/// header.
fn marks_at(data: &[u8], at: usize) -> (r: bool)
    requires
        at + block_len() <= data@.len(),
    ensures
        r == sparse_header(data@, at as int),
{
    assert(at + block_len() <= data.len());
    data[at + 156] == 0x53 && data[at + 257] == 0x75 && data[at + 258] == 0x73 && data[at + 259]
        == 0x74 && data[at + 260] == 0x61 && data[at + 261] == 0x72 && data[at + 262] == 0x20
        && data[at + 263] == 0x20 && data[at + 264] == 0x00
}

/// Goes through the blocks of an archive and tells whether it can be
/// handed to the tar reader to be listed.
pub fn is_walkable(data: &[u8]) -> (r: bool)
    ensures
        r == walkable(data@),
{
    let mut at: usize = 0;
    while data.len() - at >= 512
        invariant
            at <= data@.len(),
            at % 512 == 0,
            forall|a: int| a % block_len() == 0 && a < at ==> !#[trigger] extended_sparse_header(data@, a),
        decreases data@.len() - at,
    {
        if marks_at(data, at) && data[at + 482] == 1 {
            assert(extended_sparse_header(data@, at as int));
            return false;
        }
        at = at + 512;
    }
    true
}

/// Goes through the blocks of an archive and tells whether it can be
/// handed to the tar reader to have an entry read.
pub fn is_dense(data: &[u8]) -> (r: bool)
    ensures
        r == dense(data@),
{
    let mut at: usize = 0;
    while data.len() - at >= 512
        invariant
            at <= data@.len(),
            at % 512 == 0,
            forall|a: int| a % block_len() == 0 && a < at ==> !#[trigger] sparse_header(data@, a),
        decreases data@.len() - at,
    {
        if marks_at(data, at) {
            return false;
        }
        at = at + 512;
    }
    true
}

/// What a gzip stream unpacks to, or nothing where the bytes are no gzip
/// stream.
pub uninterp spec fn gzip_payload(data: Seq<u8>) -> Option<Seq<u8>>;

/// What a zstd stream unpacks to, or nothing where the bytes are no zstd
/// stream.
pub uninterp spec fn zstd_payload(data: Seq<u8>) -> Option<Seq<u8>>;

/// The entries of a tar archive in the order in which they stand in it, or
/// nothing where the bytes cannot be read as an archive to the end.
pub uninterp spec fn tar_listing(data: Seq<u8>) -> Option<Seq<RawEntryView>>;

/// The content of the entry at position `index` of a tar archive:
/// nothing where the archive or the entry cannot be read, and no bytes
/// where the archive has no such entry.
pub uninterp spec fn tar_content(data: Seq<u8>, index: nat) -> Option<Option<Seq<u8>>>;

/// The text that bytes stand for, with each ill-formed UTF-8 sequence
/// replaced by U+FFFD.
pub uninterp spec fn utf8_lossy(bytes: Seq<u8>) -> Seq<char>;

/// Unpacks a gzip stream with `flate2::read::GzDecoder`, reading it to the
/// end. The result is named, not described: `Ok` with the payload where
/// the decoder reads the stream through, the decoder's error otherwise.
#[verifier::external_body]
fn gzip_decode(data: &[u8]) -> (r: Result<Vec<u8>, std::io::Error>)
    ensures
        match r {
            Ok(bytes) => gzip_payload(data@) == Some(bytes@),
            Err(_) => gzip_payload(data@) is None,
        },
{
    let mut bytes = Vec::new();
    flate2::read::GzDecoder::new(data).read_to_end(&mut bytes)?;
    Ok(bytes)
}

/// Unpacks a zstd stream with `zstd::stream::read::Decoder`, reading it to
/// the end. The result is named, not described: `Ok` with the payload
/// where the decoder reads the stream through, the decoder's error
/// otherwise.
#[verifier::external_body]
fn zstd_decode(data: &[u8]) -> (r: Result<Vec<u8>, std::io::Error>)
    ensures
        match r {
            Ok(bytes) => zstd_payload(data@) == Some(bytes@),
            Err(_) => zstd_payload(data@) is None,
        },
{
    let mut bytes = Vec::new();
    zstd::stream::read::Decoder::new(data)?.read_to_end(&mut bytes)?;
    Ok(bytes)
}

/// Walks a tar archive with `tar::Archive::entries` and hands out, for
/// each entry in turn, the bytes of `Entry::path_bytes`, the type flag of
/// its header, `Entry::size` and the bytes of the header's
/// `link_name_bytes`. The result is named, not described: `Ok` with the
/// list where the walk reaches the end of the archive, the first error
/// otherwise. An archive with an extended sparse header is not to be
/// handed over: on such a header the walk may overflow.
#[verifier::external_body]
fn tar_entries(data: &[u8]) -> (r: Result<Vec<RawEntry>, std::io::Error>)
    requires
        walkable(data@),
    ensures
        match r {
            Ok(entries) => tar_listing(data@) == Some(raw_views(entries@)),
            Err(_) => tar_listing(data@) is None,
        },
{
    let mut archive = tar::Archive::new(data);
    let mut entries = Vec::new();
    for item in archive.entries()? {
        let entry = item?;
        entries.push(RawEntry {
            path: entry.path_bytes().into_owned(),
            kind: entry.header().entry_type().as_byte(),
            size: entry.size(),
            link_name: entry.header().link_name_bytes().map(|bytes| bytes.into_owned()),
        });
    }
    Ok(entries)
}

/// Walks a tar archive with `tar::Archive::entries` to the entry at
/// position `index` and reads that entry to its end. The result is named,
/// not described: `Ok(None)` where the archive ends before that position,
/// `Ok` with the bytes where the entry is read through, the first error
/// otherwise. An archive with a sparse header is not to be handed over:
/// on an extended one the walk may overflow, and the holes that any of
/// them claims are filled with zeros as the entry is read.
#[verifier::external_body]
fn tar_entry_bytes(data: &[u8], index: usize) -> (r: Result<Option<Vec<u8>>, std::io::Error>)
    requires
        dense(data@),
    ensures
        match r {
            Ok(Some(bytes)) => tar_content(data@, index as nat) == Some(Some(bytes@)),
            Ok(None) => tar_content(data@, index as nat) == Some(None::<Seq<u8>>),
            Err(_) => tar_content(data@, index as nat) is None,
        },
{
    let mut archive = tar::Archive::new(data);
    match archive.entries()?.nth(index) {
        Some(item) => {
            let mut bytes = Vec::new();
            item?.read_to_end(&mut bytes)?;
            Ok(Some(bytes))
        },
        None => Ok(None),
    }
}

/// Turns bytes into text with `String::from_utf8_lossy`. Well-formed
/// UTF-8 is decoded as it stands; what else comes back is named, not
/// described.
#[verifier::external_body]
fn lossy_string(bytes: &[u8]) -> (text: String)
    ensures
        text@ == utf8_lossy(bytes@),
        valid_utf8(bytes@) ==> text@ == decode_utf8(bytes@),
{
    String::from_utf8_lossy(bytes).into_owned()
}

/// Makes the error for an archive that is refused, with
/// `std::io::Error::from` on the kind `InvalidData`. Nothing is said of
/// the error.
#[verifier::external_body]
fn refusal() -> (e: std::io::Error) {
    std::io::Error::from(std::io::ErrorKind::InvalidData)
}

/// The codec that a codec tag names, if it names one.
pub open spec fn codec_for(tag: Seq<char>) -> Option<Codec> {
    if tag == "tar"@ {
        Some(Codec::Tar)
    } else if tag == "gzip"@ {
        Some(Codec::Gzip)
    } else if tag == "zstd"@ {
        Some(Codec::Zstd)
    } else {
        None
    }
}

/// Reads a codec tag: `tar`, `gzip` and `zstd` are known, nothing else.
pub fn codec_of(tag: &str) -> (codec: Option<Codec>)
    ensures
        codec == codec_for(tag@),
{
    if str_eq(tag, "tar") {
        Some(Codec::Tar)
    } else if str_eq(tag, "gzip") {
        Some(Codec::Gzip)
    } else if str_eq(tag, "zstd") {
        Some(Codec::Zstd)
    } else {
        None
    }
}

/// The kind that a header's type flag stands for: `0` a regular file, `1`
/// a hard link, `2` a symbolic link, `5` a directory.
pub open spec fn kind_for(flag: u8) -> EntryKind {
    if flag == 0x30 {
        EntryKind::Regular
    } else if flag == 0x31 {
        EntryKind::Link
    } else if flag == 0x32 {
        EntryKind::Symlink
    } else if flag == 0x35 {
        EntryKind::Directory
    } else {
        EntryKind::Other
    }
}

/// Reads a header's type flag.
pub fn kind_of(flag: u8) -> (kind: EntryKind)
    ensures
        kind == kind_for(flag),
{
    if flag == 0x30 {
        EntryKind::Regular
    } else if flag == 0x31 {
        EntryKind::Link
    } else if flag == 0x32 {
        EntryKind::Symlink
    } else if flag == 0x35 {
        EntryKind::Directory
    } else {
        EntryKind::Other
    }
}

/// The entry that a raw entry stands for: its bytes read as text, its
/// flag as a kind.
pub open spec fn entry_for(raw: RawEntryView) -> ArchiveEntryView {
    ArchiveEntryView {
        path: utf8_lossy(raw.path),
        kind: kind_for(raw.kind),
        size: raw.size,
        link_name: match raw.link_name {
            Some(target) => Some(utf8_lossy(target)),
            None => None,
        },
    }
}

/// Reads a raw entry: the bytes of its path and link name as text, its
/// flag as a kind.
pub fn entry_from_raw(raw: &RawEntry) -> (entry: ArchiveEntry)
    ensures
        entry@ == entry_for(raw@),
{
    let link_name = match &raw.link_name {
        Some(target) => Some(lossy_string(target.as_slice())),
        None => None,
    };
    ArchiveEntry {
        path: lossy_string(raw.path.as_slice()),
        kind: kind_of(raw.kind),
        size: raw.size,
        link_name,
    }
}

/// The tar archive inside a blob: the blob itself, or what its stream
/// unpacks to.
pub open spec fn unpacked(data: Seq<u8>, codec: Codec) -> Option<Seq<u8>> {
    match codec {
        Codec::Tar => Some(data),
        Codec::Gzip => gzip_payload(data),
        Codec::Zstd => zstd_payload(data),
    }
}

/// The entries of the archive inside a blob, or nothing where the blob
/// cannot be read to the end or the archive is refused.
pub open spec fn archive_entries(data: Seq<u8>, codec: Codec) -> Option<Seq<ArchiveEntryView>> {
    match unpacked(data, codec) {
        Some(tar) => if walkable(tar) {
            match tar_listing(tar) {
                Some(raw) => Some(Seq::new(raw.len(), |i: int| entry_for(raw[i]))),
                None => None,
            }
        } else {
            None
        },
        None => None,
    }
}

/// The content of the entry at position `index` of the archive inside a
/// blob: nothing where the blob or the entry cannot be read or the
/// archive is refused, and no bytes where the archive has no such entry.
pub open spec fn entry_content(data: Seq<u8>, codec: Codec, index: nat) -> Option<Option<Seq<u8>>> {
    match unpacked(data, codec) {
        Some(tar) => if dense(tar) {
            tar_content(tar, index)
        } else {
            None
        },
        None => None,
    }
}

/// Lists a tar archive, unless it is refused.
fn list_tar(tar: &[u8]) -> (r: Result<Vec<RawEntry>, std::io::Error>)
    ensures
        match r {
            Ok(entries) => walkable(tar@) && tar_listing(tar@) == Some(raw_views(entries@)),
            Err(_) => !walkable(tar@) || tar_listing(tar@) is None,
        },
{
    if is_walkable(tar) {
        tar_entries(tar)
    } else {
        Err(refusal())
    }
}

/// Reads one entry of a tar archive, unless the archive is refused.
fn read_tar_entry(tar: &[u8], index: usize) -> (r: Result<Option<Vec<u8>>, std::io::Error>)
    ensures
        match r {
            Ok(Some(bytes)) => dense(tar@) && tar_content(tar@, index as nat) == Some(Some(bytes@)),
            Ok(None) => dense(tar@) && tar_content(tar@, index as nat) == Some(None::<Seq<u8>>),
            Err(_) => !dense(tar@) || tar_content(tar@, index as nat) is None,
        },
{
    if is_dense(tar) {
        tar_entry_bytes(tar, index)
    } else {
        Err(refusal())
    }
}

fn entries_from_raw(raw: &Vec<RawEntry>) -> (entries: Vec<ArchiveEntry>)
    ensures
        entry_views(entries@) == Seq::new(raw@.len(), |i: int| entry_for(raw_views(raw@)[i])),
{
    let mut entries: Vec<ArchiveEntry> = Vec::new();
    let mut i: usize = 0;
    while i < raw.len()
        invariant
            i <= raw.len(),
            entries.len() == i,
            forall|j: int| 0 <= j < i ==> (#[trigger] entries[j])@ == entry_for(raw[j]@),
        decreases raw.len() - i,
    {
        entries.push(entry_from_raw(&raw[i]));
        i = i + 1;
    }
    entries
}

/// Lists the entries of the archive inside a blob, in archive order. It
/// fails, with the reader's error, exactly where the blob cannot be read
/// to the end, and with an error of its own where the archive is
/// refused.
pub fn read_entries(data: &[u8], codec: Codec) -> (r: Result<Vec<ArchiveEntry>, std::io::Error>)
    ensures
        match r {
            Ok(entries) => archive_entries(data@, codec) == Some(entry_views(entries@)),
            Err(_) => archive_entries(data@, codec) is None,
        },
{
    let listing = match codec {
        Codec::Tar => list_tar(data),
        Codec::Gzip => match gzip_decode(data) {
            Ok(tar) => list_tar(tar.as_slice()),
            Err(e) => Err(e),
        },
        Codec::Zstd => match zstd_decode(data) {
            Ok(tar) => list_tar(tar.as_slice()),
            Err(e) => Err(e),
        },
    };
    match listing {
        Ok(raw) => {
            let entries = entries_from_raw(&raw);
            Ok(entries)
        },
        Err(e) => Err(e),
    }
}

/// Reads the content of the entry at position `index` of the archive
/// inside a blob. It fails, with the reader's error, where the blob or
/// the entry cannot be read to the end, and with an error of its own
/// where the archive holds a sparse file.
pub fn read_entry_bytes(data: &[u8], codec: Codec, index: usize) -> (r: Result<
    Option<Vec<u8>>,
    std::io::Error,
>)
    ensures
        match r {
            Ok(Some(bytes)) => entry_content(data@, codec, index as nat) == Some(Some(bytes@)),
            Ok(None) => entry_content(data@, codec, index as nat) == Some(None::<Seq<u8>>),
            Err(_) => entry_content(data@, codec, index as nat) is None,
        },
{
    match codec {
        Codec::Tar => read_tar_entry(data, index),
        Codec::Gzip => match gzip_decode(data) {
            Ok(tar) => read_tar_entry(tar.as_slice(), index),
            Err(e) => Err(e),
        },
        Codec::Zstd => match zstd_decode(data) {
            Ok(tar) => read_tar_entry(tar.as_slice(), index),
            Err(e) => Err(e),
        },
    }
}

/// The position of the first entry whose path has the normal form of
/// `path`, or -1 where there is none.
pub open spec fn first_named(entries: Seq<ArchiveEntryView>, path: Seq<char>) -> int
    decreases entries.len(),
{
    if entries.len() == 0 {
        -1
    } else if first_named(entries.drop_last(), path) >= 0 {
        first_named(entries.drop_last(), path)
    } else if normalize(entries.last().path) == normalize(path) {
        entries.len() - 1
    } else {
        -1
    }
}

/// What `first_named` finds: an entry with the path, before which no
/// entry has it; or -1 exactly where none has it.
pub proof fn lemma_first_named(entries: Seq<ArchiveEntryView>, path: Seq<char>)
    ensures
        -1 <= first_named(entries, path) < entries.len(),
        first_named(entries, path) >= 0 ==> normalize(entries[first_named(entries, path)].path)
            == normalize(path),
        forall|j: int|
            0 <= j < entries.len() && (j < first_named(entries, path) || first_named(entries, path)
                < 0) ==> normalize(#[trigger] entries[j].path) != normalize(path),
    decreases entries.len(),
{
    if entries.len() > 0 {
        let front = entries.drop_last();
        lemma_first_named(front, path);
        assert(forall|j: int| 0 <= j < front.len() ==> front[j] == entries[j]);
    }
}

/// Scans the entries from the first for one whose path has the normal
/// form of `path`.
pub fn find_entry(entries: &Vec<ArchiveEntry>, path: &str) -> (found: Option<usize>)
    ensures
        match found {
            Some(i) => first_named(entry_views(entries@), path@) == i,
            None => first_named(entry_views(entries@), path@) == -1,
        },
{
    let wanted = normalize_path(path);
    let ghost all = entry_views(entries@);
    let mut i: usize = 0;
    while i < entries.len()
        invariant
            i <= entries.len(),
            all == entry_views(entries@),
            wanted@ == normalize(path@),
            first_named(all.take(i as int), path@) == -1,
        decreases entries.len() - i,
    {
        proof {
            assert(all.take(i + 1).drop_last() =~= all.take(i as int));
        }
        let here = normalize_path(entries[i].path.as_str());
        if str_eq(here.as_str(), wanted.as_str()) {
            proof {
                lemma_first_named_stays(all, path@, i + 1);
            }
            return Some(i);
        }
        i = i + 1;
    }
    proof {
        assert(all.take(i as int) =~= all);
    }
    None
}

/// Once found among the first `n` entries, an entry stays the first
/// however many follow.
proof fn lemma_first_named_stays(entries: Seq<ArchiveEntryView>, path: Seq<char>, n: int)
    requires
        0 <= n <= entries.len(),
        first_named(entries.take(n), path) >= 0,
    ensures
        first_named(entries, path) == first_named(entries.take(n), path),
    decreases entries.len() - n,
{
    if n < entries.len() {
        assert(entries.take(n + 1).drop_last() =~= entries.take(n));
        lemma_first_named_stays(entries, path, n + 1);
    } else {
        assert(entries.take(n) =~= entries);
    }
}

} // verus!
