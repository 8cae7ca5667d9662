use std::io::Read;

use squashfs_image::compressor::Compressor;
use squashfs_image::filesystem::Filesystem;
use squashfs_image::node::{FilesystemHeader, Node, SquashfsFile, SquashfsPath, SquashfsSymlink};
use squashfs_image::path::UnixPath;

fn path(s: &str) -> UnixPath {
    UnixPath::new(s.as_bytes().to_vec())
}

fn header(permissions: u16) -> FilesystemHeader {
    FilesystemHeader { permissions, uid: 1, gid: 2, mtime: 3 }
}

fn filesystem(compressor: Compressor, block_size: u32) -> Filesystem {
    Filesystem {
        block_size,
        block_log: block_size.trailing_zeros() as u16,
        compressor,
        compression_options: None,
        id_table: None,
        root_inode: SquashfsPath { header: header(0o755), path: path("/") },
        nodes: vec![],
    }
}

/// `len` bytes that compress well but are not all the same.
fn contents(seed: usize, len: usize) -> Vec<u8> {
    (0..len).map(|i| ((i / 7 + seed) % 13) as u8).collect()
}

struct Inode {
    kind: u16,
    permissions: u16,
    number: u32,
    /// What follows the header, and all that is behind it in the table
    rest: Vec<u8>,
}

struct Entry {
    name: Vec<u8>,
    kind: u16,
    number: u32,
    start: u32,
    offset: u16,
}

struct Reader {
    image: Vec<u8>,
}

impl Reader {
    fn u16(&self, at: usize) -> u16 {
        u16::from_le_bytes(self.image[at..at + 2].try_into().unwrap())
    }

    fn u32(&self, at: usize) -> u32 {
        u32::from_le_bytes(self.image[at..at + 4].try_into().unwrap())
    }

    fn u64(&self, at: usize) -> u64 {
        u64::from_le_bytes(self.image[at..at + 8].try_into().unwrap())
    }

    fn expand(&self, bytes: &[u8]) -> Vec<u8> {
        let mut out = vec![];
        match self.u16(20) {
            1 => {
                flate2::read::ZlibDecoder::new(bytes).read_to_end(&mut out).unwrap();
            },
            4 => {
                xz2::read::XzDecoder::new(bytes).read_to_end(&mut out).unwrap();
            },
            _ => panic!("nothing is compressed"),
        }
        out
    }

    /// All that the metadata blocks from `at` to `end` hold.
    fn stream(&self, mut at: usize, end: usize) -> Vec<u8> {
        let mut out = vec![];
        while at < end {
            let field = self.u16(at);
            let len = (field & 0x7fff) as usize;
            let block = &self.image[at + 2..at + 2 + len];
            if field & 0x8000 == 0 {
                out.extend(self.expand(block));
            } else {
                out.extend(block);
            }
            at += 2 + len;
        }
        assert_eq!(at, end);
        out
    }

    fn inode(&self, start: u32, offset: u16) -> Inode {
        let (inodes, dirs) = (self.u64(64) as usize, self.u64(72) as usize);
        let record = self.stream(inodes + start as usize, dirs)[offset as usize..].to_vec();
        let u16_at = |at: usize| u16::from_le_bytes(record[at..at + 2].try_into().unwrap());
        assert_eq!((u16_at(4), u16_at(6)), (1, 2));
        Inode {
            kind: u16_at(0),
            permissions: u16_at(2),
            number: u32::from_le_bytes(record[12..16].try_into().unwrap()),
            rest: record[16..].to_vec(),
        }
    }

    fn root(&self) -> Inode {
        let reference = self.u64(32);
        self.inode((reference >> 16) as u32, reference as u16)
    }

    fn listing(&self, dir: &Inode) -> Vec<Entry> {
        assert_eq!(dir.kind, 1);
        let u32_in = |s: &[u8], at: usize| u32::from_le_bytes(s[at..at + 4].try_into().unwrap());
        let u16_in = |s: &[u8], at: usize| u16::from_le_bytes(s[at..at + 2].try_into().unwrap());
        let block = u32_in(&dir.rest, 0) as usize;
        assert_eq!(u32_in(&dir.rest, 4), 2);
        let size = u16_in(&dir.rest, 8) as usize - 3;
        let offset = u16_in(&dir.rest, 10) as usize;
        let mut out = vec![];
        if size == 0 {
            return out;
        }
        let frag_table = self.u64(80) as usize;
        let end = self.u64(frag_table) as usize;
        let table = self.stream(self.u64(72) as usize + block, end);
        let listing = &table[offset..offset + size];
        let mut at = 0;
        while at < size {
            let count = u32_in(listing, at) as usize + 1;
            let (start, first) = (u32_in(listing, at + 4), u32_in(listing, at + 8));
            assert!(count <= 256);
            at += 12;
            for _ in 0..count {
                let len = u16_in(listing, at + 6) as usize + 1;
                out.push(Entry {
                    offset: u16_in(listing, at),
                    number: (first as i64 + u16_in(listing, at + 2) as i16 as i64) as u32,
                    kind: u16_in(listing, at + 4),
                    start,
                    name: listing[at + 8..at + 8 + len].to_vec(),
                });
                at += 8 + len;
            }
        }
        assert_eq!(at, size);
        for pair in out.windows(2) {
            assert!(pair[0].name < pair[1].name);
        }
        out
    }

    fn lookup(&self, names: &[&str]) -> Option<Inode> {
        let mut inode = self.root();
        for name in names {
            let entry = self.listing(&inode).into_iter().find(|e| e.name == name.as_bytes())?;
            inode = self.inode(entry.start, entry.offset);
            assert_eq!(inode.number, entry.number);
            assert_eq!(inode.kind, entry.kind);
        }
        Some(inode)
    }

    fn contents(&self, file: &Inode) -> Vec<u8> {
        assert_eq!(file.kind, 2);
        let u32_at = |at: usize| u32::from_le_bytes(file.rest[at..at + 4].try_into().unwrap());
        let (mut at, fragment, offset, size) =
            (u32_at(0) as usize, u32_at(4), u32_at(8) as usize, u32_at(12) as usize);
        let block_size = self.u32(12) as usize;
        let block = |at: usize, field: u32| {
            let stored = &self.image[at..at + (field & 0xff_ffff) as usize];
            if field & 0x100_0000 == 0 { self.expand(stored) } else { stored.to_vec() }
        };
        if fragment == 0xffff_ffff {
            let mut out = vec![];
            let mut k = 0;
            while out.len() < size {
                let field = u32_at(16 + 4 * k);
                let bytes = block(at, field);
                assert!(bytes.len() == block_size || out.len() + bytes.len() == size);
                out.extend(bytes);
                at += (field & 0xff_ffff) as usize;
                k += 1;
            }
            out
        } else {
            let table = self.u64(self.u64(80) as usize) as usize + 2 + 16 * fragment as usize;
            let whole = block(self.u64(table) as usize, self.u32(table + 8));
            assert!(whole.len() <= block_size);
            whole[offset..offset + size].to_vec()
        }
    }
}

fn read(fs: &Filesystem) -> Reader {
    let image = fs.to_bytes().unwrap();
    assert_eq!(image.len() % 4096, 0);
    Reader { image }
}

fn check_small_tree(compressor: Compressor) {
    let mut fs = filesystem(compressor, 0x20000);
    fs.push_file(contents(1, 3000), path("/usr/bin/tool"), header(0o700));
    fs.push_file(contents(2, 500), path("/usr/bin/other"), header(0o711));
    fs.push_file(contents(3, 300000), path("/data"), header(0o600));
    fs.push_file(vec![], path("/empty"), header(0o601));
    fs.nodes.push(Node::Symlink(SquashfsSymlink {
        header: header(0o777),
        path: path("/usr/link"),
        original: "link".to_string(),
        link: "bin/tool".to_string(),
    }));
    fs.nodes.push(Node::Path(SquashfsPath { header: header(0o750), path: path("/var") }));
    let reader = read(&fs);
    // "/", "usr", "bin", "tool", "other", "data", "empty", "link", "var", and the next number
    assert_eq!(reader.u32(4), 10);
    assert_eq!(reader.root().number, 1);
    assert_eq!(reader.root().permissions, 0o755);
    let tool = reader.lookup(&["usr", "bin", "tool"]).unwrap();
    assert_eq!(tool.permissions, 0o700);
    assert_eq!(reader.contents(&tool), contents(1, 3000));
    let other = reader.lookup(&["usr", "bin", "other"]).unwrap();
    assert_eq!(reader.contents(&other), contents(2, 500));
    let data = reader.lookup(&["data"]).unwrap();
    assert_eq!(reader.contents(&data), contents(3, 300000));
    let none = reader.lookup(&["empty"]).unwrap();
    assert_eq!(reader.contents(&none), Vec::<u8>::new());
    let link = reader.lookup(&["usr", "link"]).unwrap();
    assert_eq!(link.kind, 3);
    assert_eq!(&link.rest[..16], &[1, 0, 0, 0, 8, 0, 0, 0, b'b', b'i', b'n', b'/', b't', b'o', b'o', b'l']);
    let var = reader.lookup(&["var"]).unwrap();
    assert_eq!(var.permissions, 0o750);
    assert!(reader.listing(&var).is_empty());
    assert!(reader.lookup(&["usr", "lib"]).is_none());
}

#[test]
fn uncompressed_image_is_read_back() {
    check_small_tree(Compressor::Uncompressed);
}

#[test]
fn gzip_image_is_read_back() {
    check_small_tree(Compressor::Gzip);
}

#[test]
fn xz_image_is_read_back() {
    check_small_tree(Compressor::Xz);
}

#[test]
fn compressing_makes_images_smaller() {
    let mut sizes = vec![];
    for compressor in [Compressor::Uncompressed, Compressor::Gzip, Compressor::Xz] {
        let mut fs = filesystem(compressor, 0x20000);
        fs.push_file(contents(3, 300000), path("/data"), header(0o600));
        let reader = read(&fs);
        assert_eq!(reader.u16(20), compressor.id());
        sizes.push(reader.u64(40));
    }
    assert!(sizes[0] > 300000);
    assert!(sizes[1] < 20000);
    assert!(sizes[2] < 20000);
}

#[test]
fn tables_of_several_blocks_are_read_back() {
    for compressor in [Compressor::Uncompressed, Compressor::Gzip] {
        let mut fs = filesystem(compressor, 0x1000);
        for i in 0..600usize {
            fs.push_file(contents(i, i % 90 + 1), path(&format!("/many/file{:03}", i)), header(0o644));
        }
        let reader = read(&fs);
        assert_eq!(reader.u32(4), 603);
        // the inodes do not fit in one block of 8 KiB
        assert!(reader.stream(reader.u64(64) as usize, reader.u64(72) as usize).len() > 0x4000);
        let many = reader.lookup(&["many"]).unwrap();
        let names: Vec<Vec<u8>> = reader.listing(&many).into_iter().map(|e| e.name).collect();
        let expected: Vec<Vec<u8>> = (0..600).map(|i| format!("file{:03}", i).into_bytes()).collect();
        assert_eq!(names, expected);
        for i in [0usize, 1, 255, 256, 257, 511, 512, 599] {
            let file = reader.lookup(&["many", &format!("file{:03}", i)]).unwrap();
            assert_eq!(reader.contents(&file), contents(i, i % 90 + 1));
        }
    }
}

#[test]
fn small_files_share_fragments() {
    let mut fs = filesystem(Compressor::Gzip, 1024);
    let sizes = [1023usize, 1, 1, 1024, 1025, 600, 600, 2048, 5000];
    for (i, size) in sizes.iter().enumerate() {
        fs.push_file(contents(i, *size), path(&format!("/f{}", i)), header(0o644));
    }
    let reader = read(&fs);
    // f0 and f1 fill one fragment, f2 and f5 the next, f6 the last
    assert_eq!(reader.u32(16), 3);
    for (i, size) in sizes.iter().enumerate() {
        let file = reader.lookup(&[&format!("f{}", i)]).unwrap();
        assert_eq!(reader.contents(&file), contents(i, *size));
        let fragment = u32::from_le_bytes(file.rest[4..8].try_into().unwrap());
        assert_eq!(fragment, [0, 0, 1, u32::MAX, u32::MAX, 1, 2, u32::MAX, u32::MAX][i]);
    }
}

#[test]
fn inode_numbers_are_different() {
    let mut fs = filesystem(Compressor::Gzip, 0x1000);
    for p in ["/a/b/c", "/a/b/d", "/a/e", "/f", "/g/h/i/j"] {
        fs.push_file(b"x".to_vec(), path(p), header(0o644));
    }
    let reader = read(&fs);
    let mut numbers = vec![];
    let mut open = vec![reader.root()];
    while let Some(inode) = open.pop() {
        numbers.push(inode.number);
        if inode.kind == 1 {
            for entry in reader.listing(&inode) {
                open.push(reader.inode(entry.start, entry.offset));
            }
        }
    }
    numbers.sort();
    let all: Vec<u32> = (1..reader.u32(4)).collect();
    assert_eq!(numbers, all);
}

#[test]
fn directories_know_their_parents() {
    let mut fs = filesystem(Compressor::Gzip, 0x1000);
    fs.push_file(b"x".to_vec(), path("/a/b/c"), header(0o644));
    fs.nodes.push(Node::Path(SquashfsPath { header: header(0o700), path: path("/a/d") }));
    let reader = read(&fs);
    let parent = |dir: &Inode| u32::from_le_bytes(dir.rest[12..16].try_into().unwrap());
    let a = reader.lookup(&["a"]).unwrap();
    assert_eq!(parent(&reader.root()), 0);
    assert_eq!(parent(&a), 1);
    assert_eq!(parent(&reader.lookup(&["a", "b"]).unwrap()), a.number);
    assert_eq!(parent(&reader.lookup(&["a", "d"]).unwrap()), a.number);
}

#[test]
fn directories_have_the_metadata_of_the_root() {
    let mut fs = filesystem(Compressor::Gzip, 0x1000);
    fs.push_file(b"x".to_vec(), path("/a/b"), header(0o644));
    assert_eq!(read(&fs).lookup(&["a"]).unwrap().permissions, 0o755);
    fs.nodes.push(Node::Path(SquashfsPath { header: header(0o500), path: path("/") }));
    let reader = read(&fs);
    assert_eq!(reader.root().permissions, 0o500);
    assert_eq!(reader.lookup(&["a"]).unwrap().permissions, 0o500);
    assert_eq!(reader.lookup(&["a", "b"]).unwrap().permissions, 0o644);
}

#[test]
fn replaced_file_is_read_back() {
    let mut fs = filesystem(Compressor::Gzip, 0x20000);
    fs.push_file(contents(1, 3000), path("/a/b"), header(0o644));
    fs.push_file(contents(2, 100), path("/a/c"), header(0o644));
    fs.mut_file(path("/a/b")).unwrap().bytes = contents(9, 777);
    let reader = read(&fs);
    assert_eq!(reader.contents(&reader.lookup(&["a", "b"]).unwrap()), contents(9, 777));
    assert_eq!(reader.contents(&reader.lookup(&["a", "c"]).unwrap()), contents(2, 100));
}

#[test]
fn last_node_at_a_place_counts() {
    let mut fs = filesystem(Compressor::Gzip, 0x20000);
    fs.push_file(b"first".to_vec(), path("/a"), header(0o644));
    fs.push_file(b"second".to_vec(), path("/b"), header(0o644));
    fs.nodes.push(Node::File(SquashfsFile {
        header: header(0o600),
        path: path("//a"),
        bytes: b"third".to_vec(),
    }));
    let reader = read(&fs);
    assert_eq!(reader.u32(4), 4);
    let a = reader.lookup(&["a"]).unwrap();
    assert_eq!(a.permissions, 0o600);
    assert_eq!(reader.contents(&a), b"third".to_vec());
}

#[test]
fn symlink_is_listed_under_its_own_name() {
    let mut fs = filesystem(Compressor::Gzip, 0x20000);
    fs.nodes.push(Node::Symlink(SquashfsSymlink {
        header: header(0o777),
        path: path("/place"),
        original: "n\u{e4}me".to_string(),
        link: "\u{fc}".to_string(),
    }));
    let reader = read(&fs);
    assert!(reader.lookup(&["place"]).is_none());
    let link = reader.lookup(&["n\u{e4}me"]).unwrap();
    assert_eq!(&link.rest[..10], &[1, 0, 0, 0, 2, 0, 0, 0, 0xc3, 0xbc]);
}
