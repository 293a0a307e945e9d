//! Reading an image: building the merged index from the manifest and the
//! layer blobs, and answering queries on it.
//!
//! The library reads no files. Its caller reads the blobs and hands their
//! bytes over: one per layer to build the index, and the blob of the layer
//! that owns a file to read the file.

use vstd::prelude::*;
use crate::archive::{
    archive_entries, codec_for, codec_of, entry_content, entry_views, find_entry, first_named,
    read_entries, read_entry_bytes, ArchiveEntry, ArchiveEntryView,
};
use crate::dir_tree::DirectoryTree;
use crate::error::ImageReaderError;
use crate::manifest::{blob_name_of, file_type_of, get_file_type, Descriptor, ImageManifest};
use crate::merge::{ingest, lemma_ingest_layer_bound, lookup, merge, Index};
use crate::path::{join, lemma_components_of_join, normalize, steps_of};
use crate::text::lex_lt;
use crate::tree_model::{
    lemma_child_by_steps, lemma_child_steps, lemma_paths_at, lemma_steps, Steps, TreeView,
};
use crate::vfs::{tree_paths_of, FileEntry, FileEntryView, VirtualFileSystem};

verus! {

/// What a blob holds, read with the codec that its tag names.
pub enum Listing {
    /// The tag names no codec that can be read.
    Unsupported,
    /// The blob cannot be read to its end.
    Unreadable,
    /// The entries of the archive in the blob, in archive order.
    Entries(Seq<ArchiveEntryView>),
}

/// What the blob `data` holds, read with the codec that `file_type` names.
pub open spec fn listing_of(data: Seq<u8>, file_type: Seq<char>) -> Listing {
    match codec_for(file_type) {
        None => Listing::Unsupported,
        Some(codec) => match archive_entries(data, codec) {
            None => Listing::Unreadable,
            Some(entries) => Listing::Entries(entries),
        },
    }
}

/// What a layer blob yields for a path.
pub enum Content {
    /// The tag names no codec that can be read.
    Unsupported,
    /// The blob, or the entry, cannot be read to its end.
    Unreadable,
    /// The archive has no entry with the path.
    Missing,
    /// The content of the first entry with the path.
    Bytes(Seq<u8>),
}

/// What the blob `data`, read with the codec that `file_type` names, yields
/// for `path`: the content of the first entry whose path has the normal
/// form of `path`.
pub open spec fn content_of(data: Seq<u8>, file_type: Seq<char>, path: Seq<char>) -> Content {
    match codec_for(file_type) {
        None => Content::Unsupported,
        Some(codec) => match archive_entries(data, codec) {
            None => Content::Unreadable,
            Some(entries) => {
                let i = first_named(entries, path);
                if i < 0 {
                    Content::Missing
                } else {
                    match entry_content(data, codec, i as nat) {
                        None => Content::Unreadable,
                        Some(None) => Content::Missing,
                        Some(Some(bytes)) => Content::Bytes(bytes),
                    }
                }
            },
        },
    }
}

/// The result that goes with a listing: the entries, or the error that
/// says why there are none.
pub open spec fn listed(
    r: Result<Vec<ArchiveEntry>, ImageReaderError>,
    listing: Listing,
    file_type: Seq<char>,
) -> bool {
    match listing {
        Listing::Unsupported => r matches Err(ImageReaderError::UnsupportedFileType(t)) && t@
            == file_type,
        Listing::Unreadable => r matches Err(ImageReaderError::IoError(_)),
        Listing::Entries(entries) => r matches Ok(list) && entry_views(list@) == entries,
    }
}

/// The result that goes with the content of a path: the bytes, or the
/// error that says why there are none.
pub open spec fn delivered(
    r: Result<Vec<u8>, ImageReaderError>,
    content: Content,
    file_type: Seq<char>,
    path: Seq<char>,
) -> bool {
    match content {
        Content::Unsupported => r matches Err(ImageReaderError::UnsupportedFileType(t)) && t@
            == file_type,
        Content::Unreadable => r matches Err(ImageReaderError::IoError(_)),
        Content::Missing => r matches Err(ImageReaderError::NotFound(p)) && p@ == path,
        Content::Bytes(bytes) => r matches Ok(found) && found@ == bytes,
    }
}

/// Lists the entries of a layer blob, read with the codec that
/// `file_type` names.
pub fn list_layer(data: &[u8], file_type: &str) -> (r: Result<Vec<ArchiveEntry>, ImageReaderError>)
    ensures
        listed(r, listing_of(data@, file_type@), file_type@),
{
    match codec_of(file_type) {
        None => Err(ImageReaderError::UnsupportedFileType(file_type.to_owned())),
        Some(codec) => match read_entries(data, codec) {
            Ok(entries) => Ok(entries),
            Err(e) => Err(ImageReaderError::IoError(e)),
        },
    }
}

/// Ingests a layer blob into the index as layer `layer_index`. Where the
/// blob cannot be listed to its end, the index stays as it was.
pub fn load_layer(
    data: &[u8],
    file_type: &str,
    layer_index: usize,
    vfs: &mut VirtualFileSystem,
) -> (r: Result<(), ImageReaderError>)
    requires
        old(vfs).wf(),
    ensures
        final(vfs).wf(),
        match listing_of(data@, file_type@) {
            Listing::Unsupported => r matches Err(ImageReaderError::UnsupportedFileType(t)) && t@
                == file_type@ && final(vfs)@ == old(vfs)@,
            Listing::Unreadable => r matches Err(ImageReaderError::IoError(_)) && final(vfs)@ == old(
                vfs,
            )@,
            Listing::Entries(entries) => r is Ok && final(vfs)@ == ingest(
                old(vfs)@,
                layer_index,
                entries,
            ),
        },
{
    match list_layer(data, file_type) {
        Ok(entries) => {
            vfs.ingest_layer(layer_index, &entries);
            Ok(())
        },
        Err(e) => Err(e),
    }
}

/// Reads the file `file_path` from a layer blob: scans the archive from
/// its start for the first entry with the path and hands out its content.
pub fn read_file_from_layer(data: &[u8], file_type: &str, file_path: &str) -> (r: Result<
    Vec<u8>,
    ImageReaderError,
>)
    ensures
        delivered(r, content_of(data@, file_type@, file_path@), file_type@, file_path@),
{
    let codec = match codec_of(file_type) {
        None => {
            return Err(ImageReaderError::UnsupportedFileType(file_type.to_owned()));
        },
        Some(codec) => codec,
    };
    let entries = match read_entries(data, codec) {
        Ok(entries) => entries,
        Err(e) => {
            return Err(ImageReaderError::IoError(e));
        },
    };
    match find_entry(&entries, file_path) {
        None => Err(ImageReaderError::NotFound(file_path.to_owned())),
        Some(i) => match read_entry_bytes(data, codec, i) {
            Ok(Some(bytes)) => Ok(bytes),
            Ok(None) => Err(ImageReaderError::NotFound(file_path.to_owned())),
            Err(e) => Err(ImageReaderError::IoError(e)),
        },
    }
}

/// What is to be asked for once `loaded` of the layers are in: nothing
/// where that is all of them; the blob file of the next layer; or, where
/// the media type of that layer names no known codec, nothing but the
/// error that says so.
pub open spec fn pending(
    r: Result<Option<String>, ImageReaderError>,
    layers: Seq<Descriptor>,
    loaded: int,
) -> bool {
    if loaded >= layers.len() {
        r matches Ok(None)
    } else {
        let file_type = file_type_of(layers[loaded].media_type@);
        if codec_for(file_type) is None {
            r matches Err(ImageReaderError::UnsupportedFileType(t)) && t@ == file_type
        } else {
            r matches Ok(Some(name)) && name@ == blob_name_of(
                layers[loaded].digest@,
                layers[loaded].media_type@,
            )
        }
    }
}

/// An image under construction: the manifest, and the index over the
/// layers ingested so far. Layers go in from the base upwards, one blob
/// after the other.
pub struct ImageBuilder {
    manifest: ImageManifest,
    vfs: VirtualFileSystem,
    loaded: usize,
}

impl ImageBuilder {
    /// The manifest of the image.
    pub closed spec fn document(&self) -> ImageManifest {
        self.manifest
    }

    /// The layers of the manifest.
    pub open spec fn layers(&self) -> Seq<Descriptor> {
        self.document().layers@
    }

    /// The number of layers ingested so far.
    pub closed spec fn loaded(&self) -> int {
        self.loaded as int
    }

    /// The index over the layers ingested so far.
    pub closed spec fn index(&self) -> Index {
        self.vfs@
    }

    /// The builder is consistent: its index is, and holds nothing from a
    /// layer that is still to come.
    pub closed spec fn wf(&self) -> bool {
        &&& self.vfs.wf()
        &&& self.loaded <= self.manifest.layers.len()
        &&& forall|path: Seq<char>|
            self.vfs@.contains_key(path) ==> (#[trigger] self.vfs@[path]).layer() < self.loaded
    }

    /// Every entry of the index comes from a layer that has been
    /// ingested.
    pub proof fn lemma_layers_in_range(self)
        requires
            self.wf(),
        ensures
            0 <= self.loaded() <= self.layers().len(),
            forall|path: Seq<char>|
                self.index().contains_key(path) ==> (#[trigger] self.index()[path]).layer()
                    < self.loaded(),
    {
    }

    /// Starts on an image with the given manifest: no layer ingested, the
    /// index empty.
    pub fn new(manifest: ImageManifest) -> (builder: Self)
        ensures
            builder.wf(),
            builder.document() == manifest,
            builder.loaded() == 0,
            builder.index() == Map::<Seq<char>, FileEntryView>::empty(),
    {
        ImageBuilder { manifest, vfs: VirtualFileSystem::new(), loaded: 0 }
    }

    /// The layer whose blob is to be handed over next, unless all are
    /// in.
    pub fn next_layer(&self) -> (next: Option<&Descriptor>)
        requires
            self.wf(),
        ensures
            match next {
                Some(layer) => self.loaded() < self.layers().len() && *layer == self.layers()[self.loaded()],
                None => self.loaded() == self.layers().len(),
            },
    {
        if self.loaded < self.manifest.layers.len() {
            Some(&self.manifest.layers[self.loaded])
        } else {
            None
        }
    }

    /// The name of the file that holds the blob to be handed over next,
    /// or nothing where all layers are in. A layer whose media type names
    /// no known codec is refused here, before its blob is asked for.
    pub fn next_blob(&self) -> (r: Result<Option<String>, ImageReaderError>)
        requires
            self.wf(),
        ensures
            pending(r, self.layers(), self.loaded()),
    {
        if self.loaded < self.manifest.layers.len() {
            let layer = &self.manifest.layers[self.loaded];
            let file_type = get_file_type(layer.media_type.as_str());
            match codec_of(file_type) {
                Some(_) => Ok(Some(layer.blob_file_name())),
                None => Err(ImageReaderError::UnsupportedFileType(file_type.to_owned())),
            }
        } else {
            Ok(None)
        }
    }

    /// Ingests the blob of the next layer. Where the blob cannot be
    /// listed to its end, nothing changes and the error says why.
    pub fn load_layer(&mut self, data: &[u8]) -> (r: Result<(), ImageReaderError>)
        requires
            old(self).wf(),
            old(self).loaded() < old(self).layers().len(),
        ensures
            final(self).wf(),
            final(self).document() == old(self).document(),
            match listing_of(
                data@,
                file_type_of(old(self).layers()[old(self).loaded()].media_type@),
            ) {
                Listing::Entries(entries) => {
                    &&& r is Ok
                    &&& final(self).loaded() == old(self).loaded() + 1
                    &&& final(self).index() == ingest(
                        old(self).index(),
                        old(self).loaded() as usize,
                        entries,
                    )
                },
                Listing::Unsupported => {
                    &&& r matches Err(ImageReaderError::UnsupportedFileType(t))
                    &&& t@ == file_type_of(old(self).layers()[old(self).loaded()].media_type@)
                    &&& final(self).loaded() == old(self).loaded()
                    &&& final(self).index() == old(self).index()
                },
                Listing::Unreadable => {
                    &&& r matches Err(ImageReaderError::IoError(_))
                    &&& final(self).loaded() == old(self).loaded()
                    &&& final(self).index() == old(self).index()
                },
            },
    {
        let file_type = get_file_type(self.manifest.layers[self.loaded].media_type.as_str());
        match list_layer(data, file_type) {
            Ok(entries) => {
                proof {
                    lemma_ingest_layer_bound(
                        self.vfs@,
                        self.loaded,
                        entry_views(entries@),
                        self.loaded + 1,
                    );
                }
                self.vfs.ingest_layer(self.loaded, &entries);
                self.loaded = self.loaded + 1;
                Ok(())
            },
            Err(e) => Err(e),
        }
    }

    /// Closes the construction. The reader is handed out once every layer
    /// is in; before that, the builder comes back as it is.
    pub fn finish(self) -> (r: Result<ImageReader, ImageBuilder>)
        requires
            self.wf(),
        ensures
            match r {
                Ok(reader) => {
                    &&& self.loaded() == self.layers().len()
                    &&& reader.wf()
                    &&& reader.index() == self.index()
                    &&& reader.document() == self.document()
                },
                Err(builder) => self.loaded() < self.layers().len() && builder == self,
            },
    {
        if self.loaded == self.manifest.layers.len() {
            Ok(ImageReader { manifest: self.manifest, vfs: self.vfs })
        } else {
            Err(self)
        }
    }
}

/// The blob of layer `i` can be listed to its end.
pub open spec fn readable(layers: Seq<Descriptor>, blobs: Seq<Vec<u8>>, i: int) -> bool {
    i < blobs.len() && listing_of(blobs[i]@, file_type_of(layers[i].media_type@)) is Entries
}

/// The entries of the first `n` layers, each list read from its blob.
pub open spec fn stack_of(layers: Seq<Descriptor>, blobs: Seq<Vec<u8>>, n: int) -> Seq<
    Seq<ArchiveEntryView>,
> {
    Seq::new(
        n as nat,
        |i: int| listing_of(blobs[i]@, file_type_of(layers[i].media_type@))->Entries_0,
    )
}

/// The error for the first layer whose blob cannot be listed. Its codec
/// is looked at first: where that is not known, the error says so,
/// whether the blob is given or not. Else its blob is not among those
/// given, or cannot be read.
pub open spec fn build_error(
    layers: Seq<Descriptor>,
    blobs: Seq<Vec<u8>>,
    i: int,
    e: ImageReaderError,
) -> bool {
    let file_type = file_type_of(layers[i].media_type@);
    if codec_for(file_type) is None {
        e matches ImageReaderError::UnsupportedFileType(t) && t@ == file_type
    } else if i >= blobs.len() {
        e matches ImageReaderError::NotFound(name) && name@ == blob_name_of(
            layers[i].digest@,
            layers[i].media_type@,
        )
    } else {
        listing_of(blobs[i]@, file_type) is Unreadable && e is IoError
    }
}

/// Builds the reader of an image from its manifest and the blobs of its
/// layers, `blobs[i]` being the blob of layer `i`. The layers are merged
/// from the base upwards. The first layer whose codec is not known, or
/// whose blob is missing or cannot be listed to its end, ends the build
/// with its error: no half-merged image is handed out. The reader holds
/// the manifest as it was given.
pub fn build_image_reader(manifest: ImageManifest, blobs: &Vec<Vec<u8>>) -> (r: Result<
    ImageReader,
    ImageReaderError,
>)
    ensures
        match r {
            Ok(reader) => {
                &&& forall|i: int| 0 <= i < manifest.layers@.len() ==> readable(manifest.layers@, blobs@, i)
                &&& reader.wf()
                &&& reader.document() == manifest
                &&& reader.index() == merge(
                    Map::empty(),
                    stack_of(manifest.layers@, blobs@, manifest.layers@.len() as int),
                )
            },
            Err(e) => exists|i: int|
                {
                    &&& 0 <= i < manifest.layers@.len()
                    &&& !readable(manifest.layers@, blobs@, i)
                    &&& forall|j: int| 0 <= j < i ==> readable(manifest.layers@, blobs@, j)
                    &&& build_error(manifest.layers@, blobs@, i, e)
                },
        },
{
    let ghost layers = manifest.layers@;
    let mut builder = ImageBuilder::new(manifest);
    let total = builder.manifest.layers.len();
    let mut i: usize = 0;
    while i < total
        invariant
            i <= total,
            total == layers.len(),
            layers == manifest.layers@,
            builder.wf(),
            builder.document() == manifest,
            builder.loaded() == i,
            forall|j: int| 0 <= j < i ==> readable(layers, blobs@, j),
            builder.index() == merge(Map::empty(), stack_of(layers, blobs@, i as int)),
        decreases total - i,
    {
        let file_type = get_file_type(builder.manifest.layers[i].media_type.as_str());
        match codec_of(file_type) {
            Some(_) => {},
            None => {
                let e = ImageReaderError::UnsupportedFileType(file_type.to_owned());
                proof {
                    let at = i as int;
                    assert(0 <= at < layers.len() && !readable(layers, blobs@, at) && (forall|j: int|
                        0 <= j < at ==> readable(layers, blobs@, j)) && build_error(
                        layers,
                        blobs@,
                        at,
                        e,
                    ));
                }
                return Err(e);
            },
        }
        if i >= blobs.len() {
            let name = builder.manifest.layers[i].blob_file_name();
            let e = ImageReaderError::NotFound(name);
            proof {
                let at = i as int;
                assert(!readable(layers, blobs@, at));
            }
            return Err(e);
        }
        match builder.load_layer(blobs[i].as_slice()) {
            Ok(()) => {
                proof {
                    let stack = stack_of(layers, blobs@, i + 1);
                    assert(stack.drop_last() =~= stack_of(layers, blobs@, i as int));
                }
            },
            Err(e) => {
                proof {
                    let at = i as int;
                    assert(!readable(layers, blobs@, at));
                }
                return Err(e);
            },
        }
        i = i + 1;
    }
    Ok(ImageReader { manifest: builder.manifest, vfs: builder.vfs })
}

/// Where the content of a file is kept: the layer that owns the file, the
/// name of that layer's blob file, and the codec tag of the blob.
#[derive(Debug, Clone, PartialEq, Eq)]
pub struct BlobRef {
    pub layer_index: usize,
    pub file_name: String,
    pub file_type: String,
}

/// The kind of a directory's child.
#[derive(Clone, Copy, Debug, PartialEq, Eq, Structural)]
pub enum ChildKind {
    File,
    Directory,
    Symlink,
}

/// One line of a directory listing: the child's name and kind and, for a
/// regular file, its size in bytes.
#[derive(Debug, Clone, PartialEq, Eq)]
pub struct ChildEntry {
    pub name: String,
    pub kind: ChildKind,
    pub size: Option<u64>,
}

/// The kind under which a listing shows the path `path`: that of its
/// entry, or a directory where the path has no entry of its own.
pub open spec fn kind_at(index: Index, path: Seq<char>) -> ChildKind {
    match lookup(index, path) {
        Some(FileEntryView::File { .. }) => ChildKind::File,
        Some(FileEntryView::Symlink { .. }) => ChildKind::Symlink,
        Some(FileEntryView::Directory { .. }) => ChildKind::Directory,
        None => ChildKind::Directory,
    }
}

/// The size with which a listing shows the path `path`: that of its
/// entry if it is a regular file.
pub open spec fn size_at(index: Index, path: Seq<char>) -> Option<u64> {
    match lookup(index, path) {
        Some(FileEntryView::File { size, .. }) => Some(size),
        _ => None,
    }
}

/// The reader of an image: its manifest and the index merged from all its
/// layers. Neither changes any more.
pub struct ImageReader {
    manifest: ImageManifest,
    vfs: VirtualFileSystem,
}

impl ImageReader {
    /// The manifest of the image.
    pub closed spec fn document(&self) -> ImageManifest {
        self.manifest
    }

    /// The layers of the manifest.
    pub open spec fn layers(&self) -> Seq<Descriptor> {
        self.document().layers@
    }

    /// The merged index.
    pub closed spec fn index(&self) -> Index {
        self.vfs@
    }

    /// The reader is consistent: its index is, and every entry comes from
    /// a layer of the manifest.
    pub closed spec fn wf(&self) -> bool {
        &&& self.vfs.wf()
        &&& forall|path: Seq<char>|
            self.vfs@.contains_key(path) ==> (#[trigger] self.vfs@[path]).layer()
                < self.manifest.layers.len()
    }

    /// The manifest of the image.
    pub fn manifest(&self) -> (manifest: &ImageManifest)
        ensures
            *manifest == self.document(),
    {
        &self.manifest
    }

    /// The merged index.
    pub fn vfs(&self) -> (vfs: &VirtualFileSystem)
        requires
            self.wf(),
        ensures
            vfs.wf(),
            vfs@ == self.index(),
    {
        &self.vfs
    }

    /// The entry of `path` in the merged index, if it has one.
    pub fn get_file_meatadata(&self, path: &str) -> (found: Option<&FileEntry>)
        ensures
            match found {
                Some(entry) => lookup(self.index(), normalize(path@)) == Some(entry@),
                None => lookup(self.index(), normalize(path@)) is None,
            },
    {
        self.vfs.get_entry(path)
    }

    /// The directory tree over the merged index.
    pub fn get_dir_tree(&self) -> (r: Result<DirectoryTree, ImageReaderError>)
        requires
            self.wf(),
        ensures
            r matches Ok(tree) && tree@.wf() && tree@.paths() == tree_paths_of(self.index()),
    {
        Ok(self.vfs.get_directory_tree())
    }

    /// Tells where the content of the file `path` is kept: in the blob of
    /// the layer that its winning entry names.
    pub fn locate_file(&self, path: &str) -> (r: Result<BlobRef, ImageReaderError>)
        requires
            self.wf(),
        ensures
            match lookup(self.index(), normalize(path@)) {
                None => r matches Err(ImageReaderError::NotFound(p)) && p@ == path@,
                Some(FileEntryView::File { layer_index, .. }) => {
                    &&& r matches Ok(blob)
                    &&& blob.layer_index == layer_index
                    &&& layer_index < self.layers().len()
                    &&& blob.file_name@ == blob_name_of(
                        self.layers()[layer_index as int].digest@,
                        self.layers()[layer_index as int].media_type@,
                    )
                    &&& blob.file_type@ == file_type_of(self.layers()[layer_index as int].media_type@)
                },
                Some(_) => r matches Err(ImageReaderError::NotAFile(p)) && p@ == path@,
            },
    {
        match self.vfs.get_entry(path) {
            None => Err(ImageReaderError::NotFound(path.to_owned())),
            Some(FileEntry::File { layer_index, .. }) => {
                let layer = &self.manifest.layers[*layer_index];
                Ok(
                    BlobRef {
                        layer_index: *layer_index,
                        file_name: layer.blob_file_name(),
                        file_type: get_file_type(layer.media_type.as_str()).to_owned(),
                    },
                )
            },
            Some(_) => Err(ImageReaderError::NotAFile(path.to_owned())),
        }
    }

    /// Reads the file `path` from `blob`, the blob of the layer that owns
    /// the file (`locate_file` tells which). The path has to be that of a
    /// regular file; its content is that of the first entry with the path
    /// in that layer's archive.
    pub fn read_file(&self, path: &str, blob: &[u8]) -> (r: Result<Vec<u8>, ImageReaderError>)
        requires
            self.wf(),
        ensures
            match lookup(self.index(), normalize(path@)) {
                None => r matches Err(ImageReaderError::NotFound(p)) && p@ == path@,
                Some(FileEntryView::File { layer_index, .. }) => {
                    let file_type = file_type_of(self.layers()[layer_index as int].media_type@);
                    layer_index < self.layers().len() && delivered(
                        r,
                        content_of(blob@, file_type, path@),
                        file_type,
                        path@,
                    )
                },
                Some(_) => r matches Err(ImageReaderError::NotAFile(p)) && p@ == path@,
            },
    {
        match self.vfs.get_entry(path) {
            None => Err(ImageReaderError::NotFound(path.to_owned())),
            Some(FileEntry::File { layer_index, .. }) => {
                let layer = &self.manifest.layers[*layer_index];
                read_file_from_layer(blob, get_file_type(layer.media_type.as_str()), path)
            },
            Some(_) => Err(ImageReaderError::NotAFile(path.to_owned())),
        }
    }

    /// Lists what stands directly in the directory `path`, which is looked
    /// up as `DirectoryTree::find` looks paths up: every child once, in
    /// ascending order of the names, none of what lies deeper.
    /// Each child comes with its kind and, if it is a regular file, its
    /// size; a child that the index knows only through what lies below it
    /// is a directory.
    pub fn list_children(&self, path: &str) -> (r: Result<Vec<ChildEntry>, ImageReaderError>)
        requires
            self.wf(),
        ensures
            match r {
                Ok(list) => {
                    let dir = steps_of(path@)->0;
                    let tree = tree_paths_of(self.index());
                    &&& held_at(self.index(), steps_of(path@))
                    &&& forall|i: int, j: int|
                        0 <= i < j < list.len() ==> lex_lt(
                            (#[trigger] list[i]).name@,
                            (#[trigger] list[j]).name@,
                        )
                    &&& forall|i: int|
                        0 <= i < list.len() ==> tree.contains_key(dir.push((#[trigger] list[i]).name@))
                    &&& forall|name: Seq<char>| #[trigger]
                        tree.contains_key(dir.push(name)) ==> exists|i: int|
                            0 <= i < list.len() && (#[trigger] list[i]).name@ == name
                    &&& forall|i: int|
                        0 <= i < list.len() ==> (#[trigger] list[i]).kind == kind_at(
                            self.index(),
                            join(dir.push(list[i].name@)),
                        ) && list[i].size == size_at(self.index(), join(dir.push(list[i].name@)))
                },
                Err(e) => {
                    &&& !held_at(self.index(), steps_of(path@))
                    &&& e matches ImageReaderError::NotFound(p)
                    &&& p@ == path@
                },
            },
    {
        let tree = self.vfs.get_directory_tree();
        let node = match tree.find(path) {
            Some(node) => node,
            None => {
                return Err(ImageReaderError::NotFound(path.to_owned()));
            },
        };
        let children = node.children();
        let ghost model = tree@;
        let ghost at = node.index();
        let ghost dir = steps_of(path@)->0;
        let mut list: Vec<ChildEntry> = Vec::new();
        let mut k: usize = 0;
        while k < children.len()
            invariant
                k <= children.len(),
                self.wf(),
                model.wf(),
                model.paths() == tree_paths_of(self.index()),
                0 <= at < model.len(),
                model.steps_to(at) == dir,
                children.len() == model.nodes[at].children.len(),
                forall|j: int|
                    0 <= j < children.len() ==> (#[trigger] children[j]).wf() && children[j].tree()
                        == model && children[j].index() == model.nodes[at].children[j],
                list.len() == k,
                forall|j: int| 0 <= j < k ==> (#[trigger] list[j]).name@ == model.child_name(at, j),
                forall|j: int|
                    0 <= j < k ==> (#[trigger] list[j]).kind == kind_at(
                        self.index(),
                        join(dir.push(list[j].name@)),
                    ) && list[j].size == size_at(self.index(), join(dir.push(list[j].name@))),
            decreases children.len() - k,
        {
            let child = &children[k];
            let name = child.name();
            let full = child.pwd(false);
            proof {
                lemma_child_steps(model, at, k as int);
                lemma_steps(model, model.child(at, k as int));
                lemma_components_of_join(model.steps_to(model.child(at, k as int)));
            }
            let (kind, size) = match self.vfs.get_entry(full.as_str()) {
                Some(FileEntry::File { size, .. }) => (ChildKind::File, Some(*size)),
                Some(FileEntry::Symlink { .. }) => (ChildKind::Symlink, None),
                Some(FileEntry::Directory { .. }) => (ChildKind::Directory, None),
                None => (ChildKind::Directory, None),
            };
            list.push(ChildEntry { name: name.to_owned(), kind, size });
            k = k + 1;
        }
        proof {
            assert(model.sorted(at));
            assert forall|i: int| 0 <= i < list.len() implies tree_paths_of(self.index()).contains_key(
                dir.push((#[trigger] list[i]).name@),
            ) by {
                lemma_child_steps(model, at, i);
            }
            assert forall|name: Seq<char>| #[trigger]
                tree_paths_of(self.index()).contains_key(dir.push(name)) implies exists|i: int|
                0 <= i < list.len() && (#[trigger] list[i]).name@ == name by {
                let below = model.node_at(dir.push(name));
                lemma_child_by_steps(model, at, name, below);
                let i = choose|i: int|
                    0 <= i < model.nodes[at].children.len() && #[trigger] model.child(at, i) == below;
                assert(list[i].name@ == name);
            }
        }
        Ok(list)
    }

    /// Prints the directory tree below `path`, or the whole tree where
    /// no path is given: the starting node's name on the first line, and
    /// below it every node down to one level below `depth`.
    pub fn print_dir_tree(&self, depth: usize, path: Option<String>) -> (r: Result<
        String,
        ImageReaderError,
    >)
        requires
            self.wf(),
        ensures
            match r {
                Ok(text) => exists|tree: TreeView|
                    {
                        &&& #[trigger] tree.wf()
                        &&& tree.paths() == tree_paths_of(self.index())
                        &&& start_of(path) matches Some(start)
                        &&& tree.has(start)
                        &&& text@ == tree.render(
                            tree.node_at(start),
                            0,
                            depth as nat,
                            true,
                            Seq::empty(),
                        )
                    },
                Err(e) => {
                    &&& !held_at(self.index(), start_of(path))
                    &&& e matches ImageReaderError::NotFound(p)
                    &&& path matches Some(given)
                    &&& p@ == given@
                },
            },
    {
        let tree = self.vfs.get_directory_tree();
        let target = match &path {
            Some(given) => tree.find(given.as_str()),
            None => {
                Some(tree.root())
            },
        };
        match target {
            Some(node) => {
                proof {
                    reveal_strlit("");
                    assert(""@ =~= Seq::<char>::empty());
                    lemma_paths_at(tree@, node.index());
                }
                let text = node.print(0, depth, true, "");
                Ok(text)
            },
            None => match path {
                Some(given) => Err(ImageReaderError::NotFound(given)),
                None => Err(ImageReaderError::NotFound("/".to_owned())),
            },
        }
    }
}

/// The steps at which printing starts: those that the path given names,
/// or none, which is the root, where no path is given.
pub open spec fn start_of(path: Option<String>) -> Option<Steps> {
    match path {
        Some(given) => steps_of(given@),
        None => Some(Seq::empty()),
    }
}

/// The steps are there, and the tree over the index holds them.
pub open spec fn held_at(index: Index, steps: Option<Steps>) -> bool {
    steps matches Some(at) && tree_paths_of(index).contains_key(at)
}

} // verus!
