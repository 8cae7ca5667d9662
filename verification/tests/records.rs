use squashfs_image::bytes::{copy_of, is_before, push_all, push_u16, push_u32, push_u64, same_bytes};
use squashfs_image::compressor::Compressor;
use squashfs_image::entry::Entry;
use squashfs_image::fragment::Fragment;
use squashfs_image::inode::{
    BasicDirectory, BasicFile, BasicSymlink, Inode, InodeHeader, InodeId, InodeInner,
};
use squashfs_image::metadata::{set_if_uncompressed, MetadataWriter};
use squashfs_image::node::{FilesystemHeader, Node, SquashfsFile, SquashfsPath, SquashfsSymlink};
use squashfs_image::path::UnixPath;
use squashfs_image::squashfs::{Id, SuperBlock};

fn entry(name: &str, start: u32, inode: u32) -> Entry {
    Entry {
        start,
        offset: 0x0102,
        inode,
        t: InodeId::BasicFile,
        name_size: name.len() as u16 - 1,
        name: name.as_bytes().to_vec(),
    }
}

fn inode_header() -> InodeHeader {
    InodeHeader { permissions: 0o644, uid: 1, gid: 2, mtime: 0x0403_0201, inode_number: 7 }
}

#[test]
fn numbers_are_little_endian() {
    let mut out = vec![9];
    push_u16(&mut out, 0x0102);
    push_u32(&mut out, 0x0304_0506);
    push_u64(&mut out, 0x0708_090a_0b0c_0d0e);
    push_all(&mut out, &[1, 2]);
    assert_eq!(out, [9, 2, 1, 6, 5, 4, 3, 0xe, 0xd, 0xc, 0xb, 0xa, 9, 8, 7, 1, 2]);
    assert_eq!(copy_of(&out), out);
}

#[test]
fn names_are_ordered_by_bytes() {
    let sorted: [&[u8]; 6] = [b"", b"A", b"a", b"a.", b"ab", b"\xff"];
    for (i, a) in sorted.iter().enumerate() {
        for (j, b) in sorted.iter().enumerate() {
            assert_eq!(is_before(a, b), i < j);
            assert_eq!(same_bytes(a, b), i == j);
        }
    }
}

#[test]
fn length_is_marked_as_uncompressed() {
    assert_eq!(set_if_uncompressed(0), 0x8000);
    assert_eq!(set_if_uncompressed(0x1234), 0x9234);
    assert_eq!(set_if_uncompressed(0x8001), 0x8001);
}

#[test]
fn superblock_starts_with_nothing() {
    let superblock = SuperBlock::new(Compressor::Xz);
    let mut expected: Vec<u8> = b"hsqs".to_vec();
    expected.extend([0; 16]);
    expected.extend([4, 0, 0, 0, 0, 0, 0, 0, 4, 0, 0, 0]);
    expected.extend([0; 24]);
    expected.extend([0xff; 8]);
    expected.extend([0; 16]);
    expected.extend([0xff; 16]);
    assert_eq!(superblock.to_bytes(), expected);
}

#[test]
fn superblock_fields_are_read_where_they_stand() {
    let mut superblock = SuperBlock::new(Compressor::Gzip);
    superblock.inode_count = 0x0101;
    superblock.block_size = 0x20000;
    superblock.root_inode = 0x1122_3344_5566;
    superblock.dir_table = 0x99;
    let bytes = superblock.to_bytes();
    assert_eq!(bytes.len(), 96);
    assert_eq!(bytes[4..8], [1, 1, 0, 0]);
    assert_eq!(bytes[12..16], [0, 0, 2, 0]);
    assert_eq!(bytes[20..22], [1, 0]);
    assert_eq!(bytes[32..40], [0x66, 0x55, 0x44, 0x33, 0x22, 0x11, 0, 0]);
    assert_eq!(bytes[72..80], [0x99, 0, 0, 0, 0, 0, 0, 0]);
}

#[test]
fn ids_and_fragments_are_recorded() {
    assert_eq!(Id { num: 0x0102_0304 }.to_bytes(), [4, 3, 2, 1]);
    let fragment = Fragment { start: 0x0102, size: 0x0304, unused: 5 };
    assert_eq!(fragment.to_bytes(), [2, 1, 0, 0, 0, 0, 0, 0, 4, 3, 0, 0, 5, 0, 0, 0]);
}

#[test]
fn compressors_have_numbers() {
    let all = [
        Compressor::Uncompressed,
        Compressor::Gzip,
        Compressor::Lzma,
        Compressor::Lzo,
        Compressor::Xz,
        Compressor::Lz4,
        Compressor::Zstd,
    ];
    for (i, compressor) in all.iter().enumerate() {
        assert_eq!(compressor.id(), i as u16);
        assert_eq!(compressor.can_write(), [0, 1, 4].contains(&i));
    }
}

#[test]
fn directory_inode_is_recorded() {
    let inode = Inode {
        id: InodeId::BasicDirectory,
        header: inode_header(),
        inner: InodeInner::BasicDirectory(BasicDirectory {
            block_index: 0x10,
            link_count: 2,
            file_size: 0x20,
            block_offset: 0x30,
            parent_inode: 0x40,
        }),
    };
    let expected = [
        1, 0, 0xa4, 1, 1, 0, 2, 0, 1, 2, 3, 4, 7, 0, 0, 0, 0x10, 0, 0, 0, 2, 0, 0, 0, 0x20, 0, 0x30, 0, 0x40,
        0, 0, 0,
    ];
    assert_eq!(inode.to_bytes(), expected);
}

#[test]
fn file_inode_is_recorded() {
    let inode = Inode {
        id: InodeId::BasicFile,
        header: inode_header(),
        inner: InodeInner::BasicFile(BasicFile {
            blocks_start: 96,
            frag_index: 0xffff_ffff,
            block_offset: 0,
            file_size: 0x1234,
            block_sizes: vec![0x10, 0x0100_0020],
        }),
    };
    let expected = [
        2, 0, 0xa4, 1, 1, 0, 2, 0, 1, 2, 3, 4, 7, 0, 0, 0, 96, 0, 0, 0, 0xff, 0xff, 0xff, 0xff, 0, 0, 0, 0, 0x34,
        0x12, 0, 0, 0x10, 0, 0, 0, 0x20, 0, 0, 1,
    ];
    assert_eq!(inode.to_bytes(), expected);
}

#[test]
fn symlink_inode_is_recorded() {
    let inode = Inode {
        id: InodeId::BasicSymlink,
        header: inode_header(),
        inner: InodeInner::BasicSymlink(BasicSymlink {
            link_count: 1,
            target_size: 2,
            target_path: b"ab".to_vec(),
        }),
    };
    let expected =
        [3, 0, 0xa4, 1, 1, 0, 2, 0, 1, 2, 3, 4, 7, 0, 0, 0, 1, 0, 0, 0, 2, 0, 0, 0, b'a', b'b'];
    assert_eq!(inode.to_bytes(), expected);
}

#[test]
fn listing_is_sorted_and_recorded() {
    let dirs = Entry::into_dir(vec![entry("b", 0, 5), entry("a", 0, 6)]);
    assert_eq!(dirs.len(), 1);
    let expected = [
        1, 0, 0, 0, 0, 0, 0, 0, 6, 0, 0, 0, 2, 1, 0, 0, 2, 0, 0, 0, b'a', 2, 1, 0xff, 0xff, 2, 0, 0, 0, b'b',
    ];
    assert_eq!(dirs[0].to_bytes(), expected);
}

#[test]
fn listing_has_a_header_for_each_block_of_inodes() {
    let dirs = Entry::into_dir(vec![entry("a", 0, 5), entry("b", 8, 6), entry("c", 8, 7)]);
    let sizes: Vec<usize> = dirs.iter().map(|d| d.entries.len()).collect();
    assert_eq!(sizes, [1, 2]);
    assert!(Entry::into_dir(vec![]).is_empty());
}

#[test]
fn listing_has_a_header_for_256_entries() {
    let entries: Vec<Entry> = (0..600).map(|i| entry(&format!("{:03}", i), 0, i + 1)).collect();
    let sizes: Vec<usize> = Entry::into_dir(entries).iter().map(|d| d.entries.len()).collect();
    assert_eq!(sizes, [256, 256, 88]);
}

#[test]
fn listing_has_a_header_where_numbers_are_far_apart() {
    let dirs = Entry::into_dir(vec![
        entry("a", 0, 0x8001),
        entry("b", 0, 0x10000),
        entry("c", 0, 1),
        entry("d", 0, 0x10001),
    ]);
    let sizes: Vec<usize> = dirs.iter().map(|d| d.entries.len()).collect();
    assert_eq!(sizes, [3, 1]);
}

#[test]
fn metadata_is_stored_in_blocks() {
    let mut writer = MetadataWriter::new(Compressor::Uncompressed);
    assert_eq!((writer.metadata_start(), writer.uncompressed_len()), (0, 0));
    assert_eq!(writer.finalize(), Vec::<u8>::new());
    assert!(writer.write_all(&[1; 0x1fff]));
    assert_eq!((writer.metadata_start(), writer.uncompressed_len()), (0, 0x1fff));
    assert!(writer.write_all(&[2; 3]));
    assert_eq!((writer.metadata_start(), writer.uncompressed_len()), (0x2002, 2));
    let table = writer.finalize();
    assert_eq!(table.len(), 0x2002 + 4);
    assert_eq!(table[..3], [0x00, 0xa0, 1]);
    assert_eq!(table[0x2001..], [2, 2, 0x80, 2, 2]);
}

#[test]
fn metadata_blocks_are_compressed() {
    let mut writer = MetadataWriter::new(Compressor::Gzip);
    assert!(writer.write_all(&[1; 0x2001]));
    let start = writer.metadata_start() as usize;
    assert!(start < 0x100);
    let table = writer.finalize();
    assert_eq!(u16::from_le_bytes([table[0], table[1]]) as usize, start - 2);
    assert_eq!(table[start..], [1, 0x80, 1]);
}

#[test]
fn filesystem_header_is_made_of_an_inode_header() {
    let header = FilesystemHeader::from(inode_header());
    let expected = FilesystemHeader { permissions: 0o644, uid: 1, gid: 2, mtime: 0x0403_0201 };
    assert_eq!(header, expected);
    assert_eq!(header.numbered(7), inode_header());
    let none = FilesystemHeader { permissions: 0, uid: 0, gid: 0, mtime: 0 };
    assert_eq!(FilesystemHeader::default(), none);
}

#[test]
fn nodes_know_what_they_are() {
    let header = FilesystemHeader::default();
    let path = UnixPath::new(b"/a".to_vec());
    let dir = SquashfsPath { header, path: path.clone() };
    let nodes = [
        Node::File(SquashfsFile { header, path: path.clone(), bytes: vec![] }),
        Node::Symlink(SquashfsSymlink {
            header,
            path: path.clone(),
            original: "a".to_string(),
            link: "b".to_string(),
        }),
        Node::Path(dir.clone()),
    ];
    for (i, node) in nodes.iter().enumerate() {
        assert!(node.clone() == *node);
        assert_eq!([node.is_file(), node.is_symlink(), node.is_path()], [i == 0, i == 1, i == 2]);
        assert_eq!(node.path(), &path);
    }
    assert_eq!(nodes[2].expect_path(), &dir);
}
