use squashfs_image::compressor::Compressor;
use squashfs_image::error::SquashfsError;
use squashfs_image::filesystem::Filesystem;
use squashfs_image::fragment::Fragment;
use squashfs_image::node::{FilesystemHeader, Node, SquashfsFile, SquashfsPath, SquashfsSymlink};
use squashfs_image::path::UnixPath;
use squashfs_image::squashfs::{Id, SuperBlock};

fn path(s: &str) -> UnixPath {
    UnixPath::new(s.as_bytes().to_vec())
}

fn header(permissions: u16) -> FilesystemHeader {
    FilesystemHeader { permissions, uid: 1, gid: 2, mtime: 3 }
}

fn dir(s: &str, permissions: u16) -> Node {
    Node::Path(SquashfsPath { header: header(permissions), path: path(s) })
}

fn file(s: &str, bytes: &[u8], permissions: u16) -> Node {
    Node::File(SquashfsFile { header: header(permissions), path: path(s), bytes: bytes.to_vec() })
}

fn symlink(s: &str, original: &str, link: &str) -> Node {
    Node::Symlink(SquashfsSymlink {
        header: header(0o777),
        path: path(s),
        original: original.to_string(),
        link: link.to_string(),
    })
}

/// Whether the nodes are the same and their paths are spelled alike.
fn same(nodes: &[Node], expected: &[Node]) -> bool {
    nodes == expected && nodes.iter().zip(expected).all(|(a, b)| a.path().bytes == b.path().bytes)
}

fn empty(compressor: Compressor) -> Filesystem {
    Filesystem {
        block_size: 0x20000,
        block_log: 17,
        compressor,
        compression_options: None,
        id_table: None,
        root_inode: SquashfsPath { header: FilesystemHeader::default(), path: path("/") },
        nodes: vec![],
    }
}

#[test]
fn push_file_creates_missing_dirs() {
    let mut fs = empty(Compressor::Gzip);
    fs.push_file(b"x".to_vec(), path("/a/b/c"), header(0o644));
    let expected = vec![dir("/a", 0o644), dir("/a/b", 0o644), file("/a/b/c", b"x", 0o644)];
    assert!(same(&fs.nodes, &expected));
}

#[test]
fn push_file_adds_no_dir_twice() {
    let mut fs = empty(Compressor::Gzip);
    fs.push_file(b"x".to_vec(), path("/a/b/c"), header(0o644));
    fs.push_file(b"y".to_vec(), path("/a/b/d"), header(0o600));
    fs.push_file(b"z".to_vec(), path("/a/e/f"), header(0o755));
    let expected = vec![
        dir("/a", 0o644),
        dir("/a/b", 0o644),
        file("/a/b/c", b"x", 0o644),
        file("/a/b/d", b"y", 0o600),
        dir("/a/e", 0o755),
        file("/a/e/f", b"z", 0o755),
    ];
    assert!(same(&fs.nodes, &expected));
}

#[test]
fn push_file_finds_dirs_at_any_spelling() {
    let mut fs = empty(Compressor::Gzip);
    fs.nodes = vec![dir("a/", 0o700), dir("//a/./b", 0o701)];
    fs.push_file(b"x".to_vec(), path("/a/b/c"), header(0o644));
    let expected = vec![dir("a/", 0o700), dir("//a/./b", 0o701), file("/a/b/c", b"x", 0o644)];
    assert!(same(&fs.nodes, &expected));
}

#[test]
fn push_file_fills_a_gap_between_dirs() {
    let mut fs = empty(Compressor::Gzip);
    fs.nodes = vec![dir("/a", 0o700), dir("/a/b/c", 0o701)];
    fs.push_file(b"x".to_vec(), path("/a/b/c/d"), header(0o644));
    let expected = vec![
        dir("/a", 0o700),
        dir("/a/b/c", 0o701),
        dir("/a/b", 0o644),
        file("/a/b/c/d", b"x", 0o644),
    ];
    assert!(same(&fs.nodes, &expected));
}

#[test]
fn push_file_at_the_top_creates_nothing_else() {
    let mut fs = empty(Compressor::Gzip);
    fs.push_file(b"x".to_vec(), path("/a"), header(0o644));
    fs.push_file(b"y".to_vec(), path("b"), header(0o644));
    assert!(same(&fs.nodes, &[file("/a", b"x", 0o644), file("b", b"y", 0o644)]));
}

#[test]
fn push_file_keeps_a_relative_path() {
    let mut fs = empty(Compressor::Gzip);
    fs.push_file(b"x".to_vec(), path("a/b"), header(0o644));
    assert!(same(&fs.nodes, &[dir("/a", 0o644), file("a/b", b"x", 0o644)]));
}

#[test]
fn push_file_keeps_what_is_no_directory() {
    let mut fs = empty(Compressor::Gzip);
    fs.nodes = vec![file("/a", b"f", 0o600)];
    fs.push_file(b"x".to_vec(), path("/a/b"), header(0o644));
    let expected = vec![file("/a", b"f", 0o600), dir("/a", 0o644), file("/a/b", b"x", 0o644)];
    assert!(same(&fs.nodes, &expected));
}

#[test]
fn push_file_changes_only_the_nodes() {
    let mut fs = empty(Compressor::Xz);
    fs.id_table = Some(vec![Id { num: 5 }]);
    let before = fs.clone();
    fs.push_file(vec![], path("/a"), header(0o644));
    fs.nodes.clear();
    assert!(fs == before);
}

#[test]
fn mut_file_finds_what_was_pushed() {
    let mut fs = empty(Compressor::Gzip);
    fs.push_file(b"x".to_vec(), path("/a/b"), header(0o644));
    let found = fs.mut_file(path("/a//b/")).unwrap();
    assert_eq!(found.bytes, b"x".to_vec());
    found.bytes = b"other".to_vec();
    assert!(same(&fs.nodes, &[dir("/a", 0o644), file("/a/b", b"other", 0o644)]));
}

#[test]
fn mut_file_takes_the_first_of_two() {
    let mut fs = empty(Compressor::Gzip);
    fs.push_file(b"x".to_vec(), path("/a"), header(0o644));
    fs.push_file(b"y".to_vec(), path("/a"), header(0o600));
    fs.mut_file(path("/a")).unwrap().bytes.push(b'!');
    assert!(same(&fs.nodes, &[file("/a", b"x!", 0o644), file("/a", b"y", 0o600)]));
}

#[test]
fn mut_file_finds_files_only() {
    let mut fs = empty(Compressor::Gzip);
    fs.nodes = vec![dir("/a", 0o700), symlink("/b", "b", "a"), file("c", b"x", 0o644)];
    assert!(fs.mut_file(path("/a")).is_none());
    assert!(fs.mut_file(path("/b")).is_none());
    // a path from the root is not a relative one
    assert!(fs.mut_file(path("/c")).is_none());
    assert!(fs.mut_file(path("/d")).is_none());
}

#[test]
fn image_is_padded() {
    let mut fs = empty(Compressor::Gzip);
    fs.push_file(b"hello".to_vec(), path("/a/b"), FilesystemHeader::default());
    let bytes = fs.to_bytes().unwrap();
    assert_eq!(bytes.len(), 4096);
    assert_eq!(&bytes[..4], b"hsqs");
}

#[test]
fn image_has_exactly_these_bytes() {
    let mut fs = empty(Compressor::Uncompressed);
    fs.id_table = Some(vec![Id { num: 0x0102 }]);
    fs.root_inode.header = FilesystemHeader { permissions: 0o755, uid: 0, gid: 0, mtime: 9 };
    fs.push_file(b"hello".to_vec(), path("/a"), header(0o644));
    let bytes = fs.to_bytes().unwrap();
    assert_eq!(bytes.len(), 4096);

    let mut expected: Vec<u8> = vec![];
    // superblock
    expected.extend(b"hsqs");
    expected.extend([3, 0, 0, 0]); // inode_count
    expected.extend([0, 0, 0, 0]); // mod_time
    expected.extend([0, 0, 2, 0]); // block_size
    expected.extend([1, 0, 0, 0]); // frag_count
    expected.extend([0, 0]); // compressor
    expected.extend([17, 0]); // block_log
    expected.extend([0, 0]); // flags
    expected.extend([1, 0]); // id_count
    expected.extend([4, 0, 0, 0]); // version
    expected.extend([32, 0, 0, 0, 0, 0, 0, 0]); // root_inode
    expected.extend([230, 0, 0, 0, 0, 0, 0, 0]); // bytes_used
    expected.extend([222, 0, 0, 0, 0, 0, 0, 0]); // id_table
    expected.extend([0xff; 8]); // xattr_table
    expected.extend([101, 0, 0, 0, 0, 0, 0, 0]); // inode_table
    expected.extend([167, 0, 0, 0, 0, 0, 0, 0]); // dir_table
    expected.extend([208, 0, 0, 0, 0, 0, 0, 0]); // frag_table
    expected.extend([0xff; 8]); // export_table
    // the fragment
    expected.extend(b"hello");
    // inodes
    expected.extend([64, 0x80]);
    expected.extend([2, 0, 0xa4, 0x01, 1, 0, 2, 0, 3, 0, 0, 0, 2, 0, 0, 0]);
    expected.extend([0, 0, 0, 0, 0, 0, 0, 0, 0, 0, 0, 0, 5, 0, 0, 0]);
    expected.extend([1, 0, 0xed, 0x01, 0, 0, 0, 0, 9, 0, 0, 0, 1, 0, 0, 0]);
    expected.extend([0, 0, 0, 0, 2, 0, 0, 0, 24, 0, 0, 0, 0, 0, 0, 0]);
    // the listing of the root
    expected.extend([21, 0x80]);
    expected.extend([0, 0, 0, 0, 0, 0, 0, 0, 2, 0, 0, 0]);
    expected.extend([0, 0, 0, 0, 2, 0, 0, 0, b'a']);
    // fragments
    expected.extend([16, 0x80]);
    expected.extend([96, 0, 0, 0, 0, 0, 0, 0, 5, 0, 0, 1, 0, 0, 0, 0]);
    expected.extend([190, 0, 0, 0, 0, 0, 0, 0]);
    // ids
    expected.extend([4, 0x80]);
    expected.extend([2, 1, 0, 0]);
    expected.extend([216, 0, 0, 0, 0, 0, 0, 0]);
    assert_eq!(expected.len(), 230);
    expected.resize(4096, 0);
    assert_eq!(bytes, expected);
}

#[test]
fn image_without_ids_says_so() {
    let mut fs = empty(Compressor::Uncompressed);
    fs.push_file(b"hello".to_vec(), path("/a"), header(0o644));
    let bytes = fs.to_bytes().unwrap();
    assert_eq!(&bytes[26..28], &[0, 0]);
    assert_eq!(&bytes[48..56], &[0; 8]);
    assert_eq!(&bytes[40..48], &[216, 0, 0, 0, 0, 0, 0, 0]);
}

#[test]
fn unsupported_compressors_are_refused() {
    for compressor in [Compressor::Lzma, Compressor::Lzo, Compressor::Lz4, Compressor::Zstd] {
        let mut fs = empty(compressor);
        fs.push_file(b"hello".to_vec(), path("/a"), header(0o644));
        assert_eq!(fs.to_bytes(), Err(SquashfsError::UnsupportedCompression(compressor)));
    }
}

#[test]
fn filesystem_without_nodes_has_no_image() {
    assert_eq!(empty(Compressor::Gzip).to_bytes(), Err(SquashfsError::Unrepresentable));
}

#[test]
fn root_that_is_no_directory_has_no_image() {
    let mut fs = empty(Compressor::Gzip);
    fs.nodes = vec![file("/", b"x", 0o644), file("/a", b"y", 0o644)];
    assert_eq!(fs.to_bytes(), Err(SquashfsError::Unrepresentable));
}

#[test]
fn names_that_cannot_be_recorded_have_no_image() {
    let mut fs = empty(Compressor::Gzip);
    fs.nodes = vec![file("/a/..", b"x", 0o644)];
    assert_eq!(fs.to_bytes(), Err(SquashfsError::Unrepresentable));
    fs.nodes = vec![symlink("/a", "", "x")];
    assert_eq!(fs.to_bytes(), Err(SquashfsError::Unrepresentable));
}

#[test]
fn listing_that_is_too_long_has_no_image() {
    let mut fs = empty(Compressor::Gzip);
    for i in 0..300 {
        fs.push_file(vec![], path(&format!("/{:0>240}", i)), header(0o644));
    }
    assert_eq!(fs.to_bytes(), Err(SquashfsError::Unrepresentable));
    fs.nodes.truncate(200);
    assert!(fs.to_bytes().is_ok());
}

#[test]
fn block_size_zero_holds_empty_files_only() {
    let mut fs = empty(Compressor::Gzip);
    fs.block_size = 0;
    fs.push_file(vec![], path("/a"), header(0o644));
    assert!(fs.to_bytes().is_ok());
    fs.push_file(b"x".to_vec(), path("/b"), header(0o644));
    assert_eq!(fs.to_bytes(), Err(SquashfsError::Unrepresentable));
}

#[test]
fn id_table_is_appended() {
    let mut w = vec![7u8; 100];
    let mut superblock = SuperBlock::new(Compressor::Gzip);
    let before = superblock;
    Filesystem::write_id_table(&mut w, &None, &mut superblock);
    assert_eq!(w, vec![7u8; 100]);
    assert_eq!(superblock, before);
    let ids = Some(vec![Id { num: 1 }, Id { num: 0xdead_beef }]);
    Filesystem::write_id_table(&mut w, &ids, &mut superblock);
    assert_eq!(
        &w[100..],
        &[8, 0x80, 1, 0, 0, 0, 0xef, 0xbe, 0xad, 0xde, 100, 0, 0, 0, 0, 0, 0, 0]
    );
    assert_eq!(superblock, SuperBlock { id_table: 110, id_count: 2, ..before });
}

#[test]
fn frag_table_is_appended() {
    let mut w = vec![7u8; 100];
    let mut superblock = SuperBlock::new(Compressor::Gzip);
    let before = superblock;
    Filesystem::write_frag_table(&mut w, &vec![], &mut superblock);
    assert_eq!(&w[100..], &[0, 0x80, 100, 0, 0, 0, 0, 0, 0, 0]);
    assert_eq!(superblock, SuperBlock { frag_table: 102, frag_count: 0, ..before });
    let mut w = vec![7u8; 256];
    let table = vec![Fragment { start: 96, size: 0x0100_0005, unused: 0 }];
    Filesystem::write_frag_table(&mut w, &table, &mut superblock);
    assert_eq!(
        &w[256..],
        &[16, 0x80, 96, 0, 0, 0, 0, 0, 0, 0, 5, 0, 0, 1, 0, 0, 0, 0, 0, 1, 0, 0, 0, 0, 0, 0]
    );
    assert_eq!(superblock, SuperBlock { frag_table: 274, frag_count: 1, ..before });
}

#[test]
fn finalize_pads_and_puts_the_superblock_in_front() {
    for (used, padded) in [(0usize, 4096usize), (100, 4096), (4095, 4096), (4096, 8192), (4097, 8192)] {
        let mut w = vec![7u8; used];
        let mut superblock = SuperBlock::new(Compressor::Gzip);
        Filesystem::finalize(&mut w, &mut superblock);
        assert_eq!(superblock.bytes_used, used as u64);
        assert_eq!(w.len(), padded);
        assert_eq!(&w[..96], &superblock.to_bytes()[..]);
        for (i, byte) in w.iter().enumerate().skip(96) {
            assert_eq!(*byte, if i < used { 7 } else { 0 });
        }
    }
}

#[test]
fn clone_has_the_same_image() {
    let mut fs = empty(Compressor::Gzip);
    fs.id_table = Some(vec![Id { num: 1 }, Id { num: 2 }]);
    fs.push_file(b"hello".to_vec(), path("/a//b/"), header(0o644));
    fs.nodes.push(symlink("/c", "c", "a/b"));
    let copy = fs.clone();
    assert!(copy == fs);
    assert!(same(&copy.nodes, &fs.nodes));
    let image = fs.to_bytes().unwrap();
    assert_eq!(copy.to_bytes().unwrap(), image);
    assert_eq!(fs.to_bytes().unwrap(), image);
    fs.nodes.clear();
    assert_eq!(fs.clone().to_bytes(), fs.to_bytes());
}
