use std::io::Write;

use peeko::archive::{
    codec_of, entry_from_raw, find_entry, is_dense, is_walkable, kind_of, read_entries,
    read_entry_bytes, ArchiveEntry, Codec, EntryKind, RawEntry,
};
use peeko::error::ImageReaderError;
use peeko::image_reader::{
    build_image_reader, list_layer, load_layer, read_file_from_layer, BlobRef, ChildEntry, ChildKind,
    ImageBuilder,
};
use peeko::manifest::{get_file_type, Descriptor, ImageManifest};
use peeko::vfs::{FileEntry, VirtualFileSystem};

const TAR: &str = "application/vnd.oci.image.layer.v1.tar";
const GZIP: &str = "application/vnd.oci.image.layer.v1.tar+gzip";
const ZSTD: &str = "application/vnd.oci.image.layer.v1.tar+zstd";

fn file(builder: &mut tar::Builder<Vec<u8>>, path: &str, content: &[u8]) {
    let mut header = tar::Header::new_gnu();
    header.set_entry_type(tar::EntryType::Regular);
    header.set_size(content.len() as u64);
    header.set_mode(0o644);
    builder.append_data(&mut header, path, content).unwrap();
}

fn dir(builder: &mut tar::Builder<Vec<u8>>, path: &str) {
    let mut header = tar::Header::new_gnu();
    header.set_entry_type(tar::EntryType::Directory);
    header.set_size(0);
    header.set_mode(0o755);
    builder.append_data(&mut header, path, &b""[..]).unwrap();
}

fn symlink(builder: &mut tar::Builder<Vec<u8>>, path: &str, target: &str) {
    let mut header = tar::Header::new_gnu();
    header.set_entry_type(tar::EntryType::Symlink);
    header.set_size(0);
    header.set_mode(0o777);
    builder.append_link(&mut header, path, target).unwrap();
}

fn hardlink(builder: &mut tar::Builder<Vec<u8>>, path: &str, target: &str) {
    let mut header = tar::Header::new_gnu();
    header.set_entry_type(tar::EntryType::Link);
    header.set_size(0);
    header.set_mode(0o644);
    builder.append_link(&mut header, path, target).unwrap();
}

fn fifo(builder: &mut tar::Builder<Vec<u8>>, path: &str) {
    let mut header = tar::Header::new_gnu();
    header.set_entry_type(tar::EntryType::Fifo);
    header.set_size(0);
    header.set_mode(0o644);
    builder.append_data(&mut header, path, &b""[..]).unwrap();
}

fn gzip(data: &[u8]) -> Vec<u8> {
    let mut encoder = flate2::write::GzEncoder::new(Vec::new(), flate2::Compression::default());
    encoder.write_all(data).unwrap();
    encoder.finish().unwrap()
}

fn zstd_pack(data: &[u8]) -> Vec<u8> {
    zstd::encode_all(data, 3).unwrap()
}

fn descriptor(digest: &str, media_type: &str) -> Descriptor {
    Descriptor {
        digest: digest.to_string(),
        media_type: media_type.to_string(),
        size: 0,
        annotations: None,
    }
}

fn manifest(layers: Vec<Descriptor>) -> ImageManifest {
    ImageManifest {
        schema_version: 2,
        media_type: "application/vnd.oci.image.manifest.v1+json".to_string(),
        config: descriptor("sha256:config", "application/vnd.oci.image.config.v1+json"),
        layers,
        annotations: None,
    }
}

fn base_layer() -> Vec<u8> {
    let mut b = tar::Builder::new(Vec::new());
    dir(&mut b, "etc/");
    file(&mut b, "etc/hosts", b"127.0.0.1 lo");
    file(&mut b, "etc/motd", b"hello");
    b.into_inner().unwrap()
}

#[test]
fn codec_tag_of_a_media_type() {
    assert_eq!(get_file_type("application/vnd.oci.image.layer.v1.tar"), "tar");
    assert_eq!(get_file_type("application/vnd.oci.image.layer.v1.tar+gzip"), "gzip");
    assert_eq!(get_file_type("application/vnd.oci.image.layer.v1.tar+zstd"), "zstd");
    assert_eq!(get_file_type("plain"), "tar");
    assert_eq!(get_file_type(""), "tar");
    assert_eq!(get_file_type("a.b+c.d"), "c.d");
    assert_eq!(get_file_type("a+b+c"), "c");
    assert_eq!(get_file_type("tail+"), "");
    assert_eq!(get_file_type("tail."), "");
    assert_eq!(get_file_type("application/vnd.oci.image.config.v1+json"), "json");
}

#[test]
fn codec_of_a_tag() {
    assert_eq!(codec_of("tar"), Some(Codec::Tar));
    assert_eq!(codec_of("gzip"), Some(Codec::Gzip));
    assert_eq!(codec_of("zstd"), Some(Codec::Zstd));
    assert_eq!(codec_of("json"), None);
    assert_eq!(codec_of(""), None);
    assert_eq!(codec_of("TAR"), None);
}

#[test]
fn kind_of_a_type_flag() {
    assert_eq!(kind_of(b'0'), EntryKind::Regular);
    assert_eq!(kind_of(b'1'), EntryKind::Link);
    assert_eq!(kind_of(b'2'), EntryKind::Symlink);
    assert_eq!(kind_of(b'5'), EntryKind::Directory);
    assert_eq!(kind_of(b'6'), EntryKind::Other);
    assert_eq!(kind_of(0), EntryKind::Other);
}

#[test]
fn blob_file_name_of_a_descriptor() {
    assert_eq!(descriptor("sha256:abc", GZIP).blob_file_name(), "sha256:abc.gzip");
    assert_eq!(descriptor("sha256:abc", TAR).blob_file_name(), "sha256:abc.tar");
    assert_eq!(descriptor("d", "none").blob_file_name(), "d.tar");
}

#[test]
fn read_entries_of_a_plain_archive() {
    let mut b = tar::Builder::new(Vec::new());
    dir(&mut b, "etc/");
    file(&mut b, "etc/hosts", b"127.0.0.1 lo");
    symlink(&mut b, "bin", "usr/bin");
    hardlink(&mut b, "etc/hosts2", "etc/hosts");
    fifo(&mut b, "run/pipe");
    let data = b.into_inner().unwrap();
    let entries = read_entries(&data, Codec::Tar).unwrap();
    assert_eq!(
        entries,
        vec![
            ArchiveEntry { path: "etc/".to_string(), kind: EntryKind::Directory, size: 0, link_name: None },
            ArchiveEntry { path: "etc/hosts".to_string(), kind: EntryKind::Regular, size: 12, link_name: None },
            ArchiveEntry {
                path: "bin".to_string(),
                kind: EntryKind::Symlink,
                size: 0,
                link_name: Some("usr/bin".to_string())
            },
            ArchiveEntry {
                path: "etc/hosts2".to_string(),
                kind: EntryKind::Link,
                size: 0,
                link_name: Some("etc/hosts".to_string())
            },
            ArchiveEntry { path: "run/pipe".to_string(), kind: EntryKind::Other, size: 0, link_name: None },
        ]
    );
}

#[test]
fn read_entries_through_each_codec() {
    let plain = base_layer();
    let expected = read_entries(&plain, Codec::Tar).unwrap();
    assert_eq!(expected.len(), 3);
    assert_eq!(read_entries(&gzip(&plain), Codec::Gzip).unwrap(), expected);
    assert_eq!(read_entries(&zstd_pack(&plain), Codec::Zstd).unwrap(), expected);
}

#[test]
fn read_entries_refuses_what_is_not_packed_as_said() {
    let plain = base_layer();
    assert!(read_entries(&plain, Codec::Gzip).is_err());
    assert!(read_entries(&plain, Codec::Zstd).is_err());
    assert!(read_entries(&gzip(&plain), Codec::Tar).is_err());
    assert!(read_entries(b"not an archive at all, but long enough to be read as a header; it has to be at least five hundred and twelve bytes long, so here is some more text to fill the block up to its end: lorem ipsum dolor sit amet, consectetur adipiscing elit, sed do eiusmod tempor incididunt ut labore et dolore magna aliqua. Ut enim ad minim veniam, quis nostrud exercitation ullamco laboris nisi ut aliquip ex ea commodo consequat. Duis aute irure dolor in reprehenderit in voluptate velit esse cillum dolore eu fugiat nulla pariatur. Excepteur sint occaecat cupidatat non proident.", Codec::Tar).is_err());
}

#[test]
fn an_empty_blob_is_an_empty_archive() {
    assert_eq!(read_entries(b"", Codec::Tar).unwrap(), Vec::new());
}

#[test]
fn truncated_archive_is_an_error() {
    let plain = base_layer();
    let cut = &plain[..512 + 512 + 5];
    assert!(read_entries(cut, Codec::Tar).is_err());
}

#[test]
fn long_paths_are_read_whole() {
    let long = format!("{}/{}", "d".repeat(120), "f".repeat(130));
    let mut b = tar::Builder::new(Vec::new());
    file(&mut b, &long, b"x");
    let data = b.into_inner().unwrap();
    let entries = read_entries(&data, Codec::Tar).unwrap();
    assert_eq!(entries.len(), 1);
    assert_eq!(entries[0].path, long);
    assert_eq!(read_entry_bytes(&data, Codec::Tar, 0).unwrap(), Some(b"x".to_vec()));
}

#[test]
fn read_entry_bytes_by_position() {
    let plain = base_layer();
    assert_eq!(read_entry_bytes(&plain, Codec::Tar, 0).unwrap(), Some(Vec::new()));
    assert_eq!(read_entry_bytes(&plain, Codec::Tar, 1).unwrap(), Some(b"127.0.0.1 lo".to_vec()));
    assert_eq!(read_entry_bytes(&plain, Codec::Tar, 2).unwrap(), Some(b"hello".to_vec()));
    assert_eq!(read_entry_bytes(&plain, Codec::Tar, 3).unwrap(), None);
    assert_eq!(read_entry_bytes(&gzip(&plain), Codec::Gzip, 2).unwrap(), Some(b"hello".to_vec()));
    assert_eq!(read_entry_bytes(&zstd_pack(&plain), Codec::Zstd, 1).unwrap(), Some(b"127.0.0.1 lo".to_vec()));
    assert!(read_entry_bytes(&plain, Codec::Gzip, 0).is_err());
}

#[test]
fn find_entry_takes_the_first_with_the_path() {
    let entries = vec![
        ArchiveEntry { path: "a/".to_string(), kind: EntryKind::Directory, size: 0, link_name: None },
        ArchiveEntry { path: "a/f".to_string(), kind: EntryKind::Regular, size: 1, link_name: None },
        ArchiveEntry { path: "./b".to_string(), kind: EntryKind::Regular, size: 1, link_name: None },
        ArchiveEntry { path: "a//f".to_string(), kind: EntryKind::Regular, size: 2, link_name: None },
    ];
    assert_eq!(find_entry(&entries, "a/f"), Some(1));
    assert_eq!(find_entry(&entries, "/a/f/"), Some(1));
    assert_eq!(find_entry(&entries, "a"), Some(0));
    assert_eq!(find_entry(&entries, "b"), None);
    assert_eq!(find_entry(&entries, "./b"), Some(2));
    assert_eq!(find_entry(&Vec::new(), "a"), None);
}

#[test]
fn list_layer_by_codec_tag() {
    let plain = base_layer();
    assert_eq!(list_layer(&plain, "tar").unwrap().len(), 3);
    assert_eq!(list_layer(&gzip(&plain), "gzip").unwrap().len(), 3);
    match list_layer(&plain, "json") {
        Err(ImageReaderError::UnsupportedFileType(tag)) => assert_eq!(tag, "json"),
        other => panic!("unexpected: {:?}", other),
    }
    assert!(matches!(list_layer(&plain, "gzip"), Err(ImageReaderError::IoError(_))));
}

#[test]
fn load_layer_leaves_the_index_alone_on_failure() {
    let mut vfs = VirtualFileSystem::new();
    load_layer(&base_layer(), "tar", 0, &mut vfs).unwrap();
    assert_eq!(vfs.get_entries().len(), 3);
    let mut broken = tar::Builder::new(Vec::new());
    file(&mut broken, "etc/new", b"new");
    file(&mut broken, "etc/.wh.hosts", b"");
    let mut broken = broken.into_inner().unwrap();
    broken.truncate(1024 + 100);
    assert!(matches!(load_layer(&broken, "tar", 1, &mut vfs), Err(ImageReaderError::IoError(_))));
    assert!(matches!(
        load_layer(&base_layer(), "bzip2", 1, &mut vfs),
        Err(ImageReaderError::UnsupportedFileType(_))
    ));
    assert_eq!(vfs.get_entries().len(), 3);
    assert!(vfs.get_entry("etc/new").is_none());
    assert_eq!(vfs.get_entry("etc/hosts"), Some(&FileEntry::File { size: 12, layer_index: 0 }));
}

#[test]
fn whiteout_scenario() {
    let mut top = tar::Builder::new(Vec::new());
    file(&mut top, "etc/.wh.hosts", b"");
    let top = top.into_inner().unwrap();
    let blobs = vec![base_layer(), gzip(&top)];
    let reader =
        build_image_reader(manifest(vec![descriptor("l0", TAR), descriptor("l1", GZIP)]), &blobs).unwrap();
    assert_eq!(reader.get_file_meatadata("/etc"), Some(&FileEntry::Directory { layer_index: 0 }));
    assert!(reader.get_file_meatadata("/etc/hosts").is_none());
    assert!(matches!(reader.locate_file("/etc/hosts"), Err(ImageReaderError::NotFound(_))));
    assert!(matches!(
        reader.read_file("/etc/hosts", &blobs[0]),
        Err(ImageReaderError::NotFound(_))
    ));
    let tree = reader.get_dir_tree().unwrap();
    assert!(tree.find("/etc/hosts").is_none());
    assert!(tree.find("/etc").unwrap().is_dir());
    assert!(tree.find("/etc/motd").is_some());
}

#[test]
fn opaque_marker_scenario() {
    let mut base = tar::Builder::new(Vec::new());
    dir(&mut base, "a/");
    file(&mut base, "a/b/c", b"12345");
    dir(&mut base, "a/b/");
    let base = base.into_inner().unwrap();
    let mut top = tar::Builder::new(Vec::new());
    file(&mut top, "a/.wh..wh..opq", b"");
    let top = top.into_inner().unwrap();
    let blobs = vec![zstd_pack(&base), top];
    let reader =
        build_image_reader(manifest(vec![descriptor("l0", ZSTD), descriptor("l1", TAR)]), &blobs).unwrap();
    assert_eq!(reader.get_file_meatadata("/a"), Some(&FileEntry::Directory { layer_index: 0 }));
    assert!(reader.get_file_meatadata("/a/b").is_none());
    assert!(reader.get_file_meatadata("/a/b/c").is_none());
    assert!(matches!(reader.locate_file("/a/b/c"), Err(ImageReaderError::NotFound(_))));
    assert!(matches!(reader.list_children("/a/b"), Err(ImageReaderError::NotFound(_))));
    assert_eq!(reader.list_children("/a").unwrap(), Vec::new());
}

#[test]
fn read_file_reads_the_layer_of_the_winning_entry() {
    let mut l0 = tar::Builder::new(Vec::new());
    file(&mut l0, "etc/hosts", b"from layer 0");
    let mut l1 = tar::Builder::new(Vec::new());
    file(&mut l1, "etc/other", b"other");
    let mut l2 = tar::Builder::new(Vec::new());
    file(&mut l2, "etc/first", b"first");
    file(&mut l2, "etc/hosts", b"from layer 2!");
    let blobs = vec![
        l0.into_inner().unwrap(),
        gzip(&l1.into_inner().unwrap()),
        gzip(&l2.into_inner().unwrap()),
    ];
    let layers = vec![descriptor("sha256:l0", TAR), descriptor("sha256:l1", GZIP), descriptor("sha256:l2", GZIP)];
    let reader = build_image_reader(manifest(layers), &blobs).unwrap();
    assert_eq!(
        reader.get_file_meatadata("/etc/hosts"),
        Some(&FileEntry::File { size: 13, layer_index: 2 })
    );
    let blob = reader.locate_file("/etc/hosts").unwrap();
    assert_eq!(
        blob,
        BlobRef {
            layer_index: 2,
            file_name: "sha256:l2.gzip".to_string(),
            file_type: "gzip".to_string()
        }
    );
    let content = reader.read_file("/etc/hosts", &blobs[blob.layer_index]).unwrap();
    assert_eq!(content, b"from layer 2!".to_vec());
    assert_eq!(reader.read_file("etc/other", &blobs[1]).unwrap(), b"other".to_vec());
}

#[test]
fn read_file_refuses_what_is_no_file() {
    let mut b = tar::Builder::new(Vec::new());
    dir(&mut b, "etc/");
    symlink(&mut b, "link", "etc");
    file(&mut b, "etc/hosts", b"x");
    let blobs = vec![b.into_inner().unwrap()];
    let reader = build_image_reader(manifest(vec![descriptor("l0", TAR)]), &blobs).unwrap();
    match reader.read_file("etc", &blobs[0]) {
        Err(ImageReaderError::NotAFile(path)) => assert_eq!(path, "etc"),
        other => panic!("unexpected: {:?}", other),
    }
    assert!(matches!(reader.read_file("link", &blobs[0]), Err(ImageReaderError::NotAFile(_))));
    assert!(matches!(reader.locate_file("link"), Err(ImageReaderError::NotAFile(_))));
    match reader.read_file("nowhere", &blobs[0]) {
        Err(ImageReaderError::NotFound(path)) => assert_eq!(path, "nowhere"),
        other => panic!("unexpected: {:?}", other),
    }
    // The blob handed over does not hold the file.
    let mut other = tar::Builder::new(Vec::new());
    file(&mut other, "elsewhere", b"y");
    let other = other.into_inner().unwrap();
    assert!(matches!(reader.read_file("etc/hosts", &other), Err(ImageReaderError::NotFound(_))));
    assert!(matches!(reader.read_file("etc/hosts", b"junk"), Err(ImageReaderError::IoError(_))));
}

#[test]
fn read_file_from_layer_by_codec_tag() {
    let plain = base_layer();
    assert_eq!(read_file_from_layer(&plain, "tar", "etc/motd").unwrap(), b"hello".to_vec());
    assert_eq!(read_file_from_layer(&plain, "tar", "/etc/motd").unwrap(), b"hello".to_vec());
    assert_eq!(read_file_from_layer(&gzip(&plain), "gzip", "etc/hosts").unwrap(), b"127.0.0.1 lo".to_vec());
    assert_eq!(read_file_from_layer(&zstd_pack(&plain), "zstd", "etc/hosts").unwrap(), b"127.0.0.1 lo".to_vec());
    assert!(matches!(read_file_from_layer(&plain, "tar", "etc/none"), Err(ImageReaderError::NotFound(_))));
    assert!(matches!(read_file_from_layer(&plain, "xz", "etc/motd"), Err(ImageReaderError::UnsupportedFileType(_))));
    assert!(matches!(read_file_from_layer(&plain, "zstd", "etc/motd"), Err(ImageReaderError::IoError(_))));
}

#[test]
fn build_fails_at_the_first_bad_layer() {
    let layers = || vec![descriptor("l0", TAR), descriptor("l1", "application/x-thing+xz"), descriptor("l2", GZIP)];
    let blobs = vec![base_layer(), base_layer(), base_layer()];
    match build_image_reader(manifest(layers()), &blobs) {
        Err(ImageReaderError::UnsupportedFileType(tag)) => assert_eq!(tag, "xz"),
        _ => panic!("the second layer has no known codec"),
    }
    match build_image_reader(manifest(vec![descriptor("l0", TAR), descriptor("l1", GZIP)]), &blobs) {
        Err(ImageReaderError::IoError(_)) => {}
        _ => panic!("the second layer is no gzip stream"),
    }
    match build_image_reader(manifest(vec![descriptor("l0", TAR), descriptor("l1", GZIP)]), &vec![base_layer()]) {
        Err(ImageReaderError::NotFound(name)) => assert_eq!(name, "l1.gzip"),
        _ => panic!("the second layer has no blob"),
    }
    assert!(build_image_reader(manifest(Vec::new()), &Vec::new()).is_ok());
}

#[test]
fn builder_takes_one_layer_after_the_other() {
    let mut top = tar::Builder::new(Vec::new());
    file(&mut top, "etc/.wh.motd", b"");
    file(&mut top, "etc/issue", b"issue");
    let top = top.into_inner().unwrap();
    let mut builder = ImageBuilder::new(manifest(vec![descriptor("l0", TAR), descriptor("l1", ZSTD)]));
    assert_eq!(builder.next_layer().unwrap().blob_file_name(), "l0.tar");
    let mut builder = match builder.finish() {
        Err(builder) => builder,
        Ok(_) => panic!("no layer is in yet"),
    };
    builder.load_layer(&base_layer()).unwrap();
    assert_eq!(builder.next_layer().unwrap().blob_file_name(), "l1.zstd");
    assert!(builder.load_layer(&top).is_err());
    assert_eq!(builder.next_layer().unwrap().blob_file_name(), "l1.zstd");
    builder.load_layer(&zstd_pack(&top)).unwrap();
    assert!(builder.next_layer().is_none());
    let reader = match builder.finish() {
        Ok(reader) => reader,
        Err(_) => panic!("all layers are in"),
    };
    assert!(reader.get_file_meatadata("etc/motd").is_none());
    assert_eq!(reader.get_file_meatadata("etc/issue"), Some(&FileEntry::File { size: 5, layer_index: 1 }));
    assert_eq!(reader.get_file_meatadata("etc/hosts"), Some(&FileEntry::File { size: 12, layer_index: 0 }));
    assert_eq!(reader.manifest().layers.len(), 2);
    assert_eq!(reader.vfs().get_entries().len(), 3);
}

#[test]
fn list_children_is_sorted_and_shallow() {
    let mut b = tar::Builder::new(Vec::new());
    file(&mut b, "usr/bin/ls", b"ls!");
    file(&mut b, "usr/bin/cat", b"cat");
    dir(&mut b, "usr/lib/");
    file(&mut b, "usr/lib/deep/er/file", b"");
    symlink(&mut b, "usr/sbin", "bin");
    file(&mut b, "usr/README", b"read me");
    file(&mut b, "top", b"t");
    let blobs = vec![b.into_inner().unwrap()];
    let reader = build_image_reader(manifest(vec![descriptor("l0", TAR)]), &blobs).unwrap();
    let children = reader.list_children("/usr").unwrap();
    assert_eq!(
        children,
        vec![
            ChildEntry { name: "README".to_string(), kind: ChildKind::File, size: Some(7) },
            ChildEntry { name: "bin".to_string(), kind: ChildKind::Directory, size: None },
            ChildEntry { name: "lib".to_string(), kind: ChildKind::Directory, size: None },
            ChildEntry { name: "sbin".to_string(), kind: ChildKind::Symlink, size: None },
        ]
    );
    let top = reader.list_children("").unwrap();
    let names: Vec<&str> = top.iter().map(|c| c.name.as_str()).collect();
    assert_eq!(names, vec!["top", "usr"]);
    let deep = reader.list_children("usr/lib/deep").unwrap();
    assert_eq!(deep, vec![ChildEntry { name: "er".to_string(), kind: ChildKind::Directory, size: None }]);
    assert_eq!(reader.list_children("top").unwrap(), Vec::new());
    match reader.list_children("usr/none") {
        Err(ImageReaderError::NotFound(path)) => assert_eq!(path, "usr/none"),
        other => panic!("unexpected: {:?}", other),
    }
}

#[test]
fn print_dir_tree_from_root_and_from_a_path() {
    let mut b = tar::Builder::new(Vec::new());
    dir(&mut b, "etc/");
    file(&mut b, "etc/hosts", b"h");
    file(&mut b, "usr/bin/ls", b"ls");
    let blobs = vec![b.into_inner().unwrap()];
    let reader = build_image_reader(manifest(vec![descriptor("l0", TAR)]), &blobs).unwrap();
    assert_eq!(
        reader.print_dir_tree(3, None).unwrap(),
        "/\n├── etc/\n│   └── hosts\n└── usr/\n    └── bin/\n        └── ls\n"
    );
    assert_eq!(reader.print_dir_tree(0, None).unwrap(), "/\n├── etc/\n└── usr/\n");
    assert_eq!(
        reader.print_dir_tree(3, Some("/usr".to_string())).unwrap(),
        "usr\n└── bin/\n    └── ls\n"
    );
    match reader.print_dir_tree(3, Some("/opt".to_string())) {
        Err(ImageReaderError::NotFound(path)) => assert_eq!(path, "/opt"),
        other => panic!("unexpected: {:?}", other),
    }
}

#[test]
fn raw_entries_are_read_as_text() {
    let raw = RawEntry {
        path: vec![b'a', 0xff, b'b'],
        kind: b'2',
        size: 7,
        link_name: Some(vec![0xc3, 0xa9, b'/', b'x']),
    };
    let entry = entry_from_raw(&raw);
    assert_eq!(entry.path, "a\u{fffd}b");
    assert_eq!(entry.kind, EntryKind::Symlink);
    assert_eq!(entry.size, 7);
    assert_eq!(entry.link_name.as_deref(), Some("é/x"));
    let plain = RawEntry { path: b"etc/hosts".to_vec(), kind: b'0', size: 1, link_name: None };
    assert_eq!(
        entry_from_raw(&plain),
        ArchiveEntry { path: "etc/hosts".to_string(), kind: EntryKind::Regular, size: 1, link_name: None }
    );
}

fn extended_sparse_archive() -> Vec<u8> {
    let mut header = tar::Header::new_gnu();
    header.set_path("sparse").unwrap();
    header.set_entry_type(tar::EntryType::GNUSparse);
    header.set_mode(0o644);
    header.set_size(u64::MAX - 1023);
    header.as_gnu_mut().unwrap().set_is_extended(true);
    header.set_cksum();
    let mut data = header.as_bytes().to_vec();
    data.extend_from_slice(&[0u8; 512]);
    data
}

#[test]
fn an_archive_with_an_extended_sparse_header_is_refused() {
    let data = extended_sparse_archive();
    assert_eq!(data.len(), 1024);
    assert_eq!(data[156], b'S');
    assert_eq!(data[482], 1);
    assert!(!is_walkable(&data));
    assert!(!is_dense(&data));
    assert!(read_entries(&data, Codec::Tar).is_err());
    assert!(read_entry_bytes(&data, Codec::Tar, 0).is_err());
    assert!(read_entries(&gzip(&data), Codec::Gzip).is_err());
    assert!(read_entry_bytes(&zstd_pack(&data), Codec::Zstd, 0).is_err());
    assert!(matches!(list_layer(&data, "tar"), Err(ImageReaderError::IoError(_))));
    assert!(matches!(
        read_file_from_layer(&data, "tar", "sparse"),
        Err(ImageReaderError::IoError(_))
    ));
    // Behind other entries, and with a small size, it is refused as well.
    let mut small = tar::Header::new_gnu();
    small.set_path("small").unwrap();
    small.set_entry_type(tar::EntryType::GNUSparse);
    small.set_size(0);
    small.as_gnu_mut().unwrap().set_is_extended(true);
    small.set_cksum();
    let mut behind = base_layer();
    behind.truncate(512 * 5);
    behind.extend_from_slice(small.as_bytes());
    behind.extend_from_slice(&[0u8; 1024]);
    assert!(!is_walkable(&behind));
    assert!(read_entries(&behind, Codec::Tar).is_err());
    let mut vfs = VirtualFileSystem::new();
    assert!(load_layer(&behind, "tar", 0, &mut vfs).is_err());
    assert!(vfs.get_entries().is_empty());
}

#[test]
fn only_whole_blocks_with_all_the_marks_are_refused() {
    assert!(is_walkable(b""));
    assert!(is_dense(b""));
    assert!(is_walkable(&base_layer()));
    assert!(is_dense(&base_layer()));
    let refused = extended_sparse_archive();
    // Not at the beginning of a block.
    let mut shifted = vec![0u8; 100];
    shifted.extend_from_slice(&refused);
    assert!(is_walkable(&shifted));
    // Cut short of a whole block.
    assert!(is_walkable(&refused[..511]));
    assert!(!is_walkable(&refused[..512]));
    // With one of the marks missing.
    for at in [156usize, 257, 260, 263, 264, 482] {
        let mut other = refused.clone();
        other[at] ^= 0x40;
        assert!(is_walkable(&other), "mark at {}", at);
        assert_eq!(is_dense(&other), at != 482, "mark at {}", at);
    }
    // In the content of a file, flag and mark without the magic are content.
    let mut content = vec![b'x'; 512];
    content[156] = b'S';
    content[482] = 1;
    let mut b = tar::Builder::new(Vec::new());
    file(&mut b, "blob", &content);
    let data = b.into_inner().unwrap();
    assert!(is_walkable(&data));
    assert!(is_dense(&data));
    assert_eq!(read_entries(&data, Codec::Tar).unwrap().len(), 1);
    assert_eq!(read_entry_bytes(&data, Codec::Tar, 0).unwrap(), Some(content));
}

#[test]
fn a_sparse_file_without_further_headers_is_listed_but_not_read() {
    let mut header = tar::Header::new_gnu();
    header.set_path("sparse").unwrap();
    header.set_entry_type(tar::EntryType::GNUSparse);
    header.set_mode(0o644);
    header.set_size(0);
    header.as_gnu_mut().unwrap().realsize.copy_from_slice(b"00000000000\0");
    header.set_cksum();
    let mut data = header.as_bytes().to_vec();
    data.extend_from_slice(&[0u8; 1024]);
    assert!(is_walkable(&data));
    let entries = read_entries(&data, Codec::Tar).unwrap();
    assert_eq!(entries.len(), 1);
    assert_eq!(entries[0].path, "sparse");
    assert_eq!(entries[0].kind, EntryKind::Other);
    // It is no file to the index, and no entry of its archive is read.
    let mut vfs = VirtualFileSystem::new();
    load_layer(&data, "tar", 0, &mut vfs).unwrap();
    assert!(vfs.get_entries().is_empty());
    assert!(!is_dense(&data));
    assert!(read_entry_bytes(&data, Codec::Tar, 0).is_err());
    assert!(read_entry_bytes(&gzip(&data), Codec::Gzip, 0).is_err());
    assert!(matches!(
        read_file_from_layer(&data, "tar", "sparse"),
        Err(ImageReaderError::IoError(_))
    ));
    // A hole far greater than any memory is never filled.
    let mut holed = tar::Header::new_gnu();
    holed.set_path("holed").unwrap();
    holed.set_entry_type(tar::EntryType::GNUSparse);
    holed.set_size(1);
    {
        let gnu = holed.as_gnu_mut().unwrap();
        gnu.sparse[0].set_offset(1 << 62);
        gnu.sparse[0].set_length(1);
        gnu.set_real_size((1 << 62) + 1);
    }
    holed.set_cksum();
    let mut big = holed.as_bytes().to_vec();
    big.extend_from_slice(&[0u8; 1024]);
    assert!(read_entry_bytes(&big, Codec::Tar, 0).is_err());
}

#[test]
fn an_unknown_codec_is_refused_before_its_blob_is_missed() {
    let layers = || vec![descriptor("l0", TAR), descriptor("l1", "application/x-thing+xz"), descriptor("l2", GZIP)];
    // The blob of the second layer is not given: its codec is refused all the same.
    match build_image_reader(manifest(layers()), &vec![base_layer()]) {
        Err(ImageReaderError::UnsupportedFileType(tag)) => assert_eq!(tag, "xz"),
        _ => panic!("the second layer has no known codec"),
    }
    match build_image_reader(manifest(vec![descriptor("l0", "a+bz2")]), &Vec::new()) {
        Err(ImageReaderError::UnsupportedFileType(tag)) => assert_eq!(tag, "bz2"),
        _ => panic!("the first layer has no known codec"),
    }
    // An earlier layer without a blob comes first.
    match build_image_reader(manifest(layers()), &Vec::new()) {
        Err(ImageReaderError::NotFound(name)) => assert_eq!(name, "l0.tar"),
        _ => panic!("the first layer has no blob"),
    }
    let mut builder = ImageBuilder::new(manifest(layers()));
    assert_eq!(builder.next_blob().unwrap(), Some("l0.tar".to_string()));
    builder.load_layer(&base_layer()).unwrap();
    match builder.next_blob() {
        Err(ImageReaderError::UnsupportedFileType(tag)) => assert_eq!(tag, "xz"),
        other => panic!("unexpected: {:?}", other),
    }
    let mut done = ImageBuilder::new(manifest(vec![descriptor("l0", GZIP)]));
    assert_eq!(done.next_blob().unwrap(), Some("l0.gzip".to_string()));
    done.load_layer(&gzip(&base_layer())).unwrap();
    assert_eq!(done.next_blob().unwrap(), None);
}

#[test]
fn the_reader_holds_the_manifest_given() {
    let mut given = manifest(vec![descriptor("sha256:l0", TAR)]);
    given.schema_version = 7;
    given.config.size = 1234;
    given.layers[0].size = 99;
    given.media_type = "application/x-own".to_string();
    let reader = build_image_reader(given, &vec![base_layer()]).unwrap();
    let held = reader.manifest();
    assert_eq!(held.schema_version, 7);
    assert_eq!(held.media_type, "application/x-own");
    assert_eq!(held.config.digest, "sha256:config");
    assert_eq!(held.config.size, 1234);
    assert_eq!(held.layers.len(), 1);
    assert_eq!(held.layers[0].digest, "sha256:l0");
    assert_eq!(held.layers[0].size, 99);
    assert!(held.annotations.is_none());
}

#[test]
fn queries_take_an_empty_part_for_a_missing_one() {
    let mut b = tar::Builder::new(Vec::new());
    file(&mut b, "usr/bin/ls", b"ls");
    let blobs = vec![b.into_inner().unwrap()];
    let reader = build_image_reader(manifest(vec![descriptor("l0", TAR)]), &blobs).unwrap();
    assert_eq!(reader.list_children("/usr/bin/").unwrap().len(), 1);
    match reader.list_children("usr//bin") {
        Err(ImageReaderError::NotFound(path)) => assert_eq!(path, "usr//bin"),
        other => panic!("unexpected: {:?}", other),
    }
    assert!(reader.print_dir_tree(2, Some("//usr/".to_string())).is_ok());
    match reader.print_dir_tree(2, Some("usr//bin".to_string())) {
        Err(ImageReaderError::NotFound(path)) => assert_eq!(path, "usr//bin"),
        other => panic!("unexpected: {:?}", other),
    }
    // The index itself goes by components.
    assert!(reader.get_file_meatadata("usr//bin/ls").is_some());
}
