//! A read-only view of a container image's filesystem, rebuilt from its
//! layer archives: the layer merge, the directory tree over the merged
//! index, and the queries on both.
//!
//! The image is never unpacked. `merge` says what the layers add up to,
//! `vfs` keeps the merged index, `dir_tree` is the tree over it, and
//! `image_reader` builds the index from the blobs of an image and answers
//! the queries. `archive` lists what a layer blob holds. Beside these
//! stand `manifest`, the documents of an image, and what a command line
//! and a registry client have to decide: `reference`, `registry` and
//! `stats`.
//!
//! The library reads no files and makes no requests: it is handed bytes
//! and hands back values.

pub mod archive;
pub mod dir_tree;
pub mod error;
pub mod image_reader;
pub mod manifest;
pub mod merge;
pub mod path;
pub mod reference;
pub mod registry;
pub mod stats;
pub mod text;
pub mod tree_model;
pub mod vfs;
