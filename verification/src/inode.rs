//! Inodes, as the inode table records them.

use vstd::prelude::*;
use crate::bytes::{le16, le32, push_all, push_u16, push_u32};

verus! {

/// The kind of an inode.
#[derive(Debug, PartialEq, Eq, Clone, Copy, Structural)]
pub enum InodeId {
    BasicDirectory,
    BasicFile,
    BasicSymlink,
}

impl InodeId {
    /// The number that stands for the kind.
    pub open spec fn spec_number(self) -> u16 {
        match self {
            InodeId::BasicDirectory => 1,
            InodeId::BasicFile => 2,
            InodeId::BasicSymlink => 3,
        }
    }

    /// The number that stands for the kind.
    pub fn number(self) -> (r: u16)
        ensures
            r == self.spec_number(),
    {
        match self {
            InodeId::BasicDirectory => 1,
            InodeId::BasicFile => 2,
            InodeId::BasicSymlink => 3,
        }
    }
}

/// What the inodes of all kinds record.
#[derive(Debug, PartialEq, Eq, Clone, Copy, Structural)]
pub struct InodeHeader {
    pub permissions: u16,
    /// The index of the user in the id table
    pub uid: u16,
    /// The index of the group in the id table
    pub gid: u16,
    pub mtime: u32,
    pub inode_number: u32,
}

/// What the inode of a directory records.
#[derive(Debug, PartialEq, Eq, Clone, Copy, Structural)]
pub struct BasicDirectory {
    /// Where the block with the listing begins in the directory table
    pub block_index: u32,
    pub link_count: u32,
    /// The length of the listing, and three more
    pub file_size: u16,
    /// Where the listing begins in that block
    pub block_offset: u16,
    pub parent_inode: u32,
}

/// What the inode of a file records.
#[derive(Debug, PartialEq, Eq, Clone)]
pub struct BasicFile {
    /// Where the blocks of the file begin in the image
    pub blocks_start: u32,
    /// The fragment that the file is in
    pub frag_index: u32,
    /// Where the file begins in the fragment
    pub block_offset: u32,
    pub file_size: u32,
    pub block_sizes: Vec<u32>,
}

/// What the inode of a symbolic link records.
#[derive(Debug, PartialEq, Eq, Clone)]
pub struct BasicSymlink {
    pub link_count: u32,
    pub target_size: u32,
    pub target_path: Vec<u8>,
}

/// What the inode of each kind records besides its header.
#[derive(Debug, PartialEq, Eq, Clone)]
pub enum InodeInner {
    BasicDirectory(BasicDirectory),
    BasicFile(BasicFile),
    BasicSymlink(BasicSymlink),
}

/// An inode.
#[derive(Debug, PartialEq, Eq, Clone)]
pub struct Inode {
    pub id: InodeId,
    pub header: InodeHeader,
    pub inner: InodeInner,
}

/// What the inode of each kind records besides its header.
#[verifier::ext_equal]
pub enum InodeBody {
    Directory(BasicDirectory),
    File { blocks_start: u32, frag_index: u32, block_offset: u32, file_size: u32, block_sizes: Seq<u32> },
    Symlink { link_count: u32, target_size: u32, target_path: Seq<u8> },
}

impl View for InodeInner {
    type V = InodeBody;

    open spec fn view(&self) -> InodeBody {
        match self {
            InodeInner::BasicDirectory(d) => InodeBody::Directory(*d),
            InodeInner::BasicFile(f) => InodeBody::File {
                blocks_start: f.blocks_start,
                frag_index: f.frag_index,
                block_offset: f.block_offset,
                file_size: f.file_size,
                block_sizes: f.block_sizes@,
            },
            InodeInner::BasicSymlink(s) => InodeBody::Symlink {
                link_count: s.link_count,
                target_size: s.target_size,
                target_path: s.target_path@,
            },
        }
    }
}

/// Several 32-bit numbers, one behind the other.
pub open spec fn le32_all(numbers: Seq<u32>) -> Seq<u8>
    decreases numbers.len(),
{
    if numbers.len() == 0 {
        Seq::empty()
    } else {
        le32_all(numbers.drop_last()) + le32(numbers.last())
    }
}

/// How the header of an inode of the kind `id` is recorded.
pub open spec fn header_record(id: InodeId, header: InodeHeader) -> Seq<u8> {
    le16(id.spec_number()) + le16(header.permissions) + le16(header.uid) + le16(header.gid) + le32(
        header.mtime,
    ) + le32(header.inode_number)
}

/// How what follows the header is recorded.
pub open spec fn body_record(body: InodeBody) -> Seq<u8> {
    match body {
        InodeBody::Directory(d) => le32(d.block_index) + le32(d.link_count) + le16(d.file_size) + le16(
            d.block_offset,
        ) + le32(d.parent_inode),
        InodeBody::File { blocks_start, frag_index, block_offset, file_size, block_sizes } => le32(
            blocks_start,
        ) + le32(frag_index) + le32(block_offset) + le32(file_size) + le32_all(block_sizes),
        InodeBody::Symlink { link_count, target_size, target_path } => le32(link_count) + le32(
            target_size,
        ) + target_path,
    }
}

/// How an inode is recorded.
#[verifier::opaque]
pub open spec fn inode_record(id: InodeId, header: InodeHeader, body: InodeBody) -> Seq<u8> {
    header_record(id, header) + body_record(body)
}

impl Inode {
    /// The record of the inode table.
    pub fn to_bytes(&self) -> (r: Vec<u8>)
        ensures
            r@ == inode_record(self.id, self.header, self.inner@),
    {
        let mut out: Vec<u8> = Vec::new();
        push_u16(&mut out, self.id.number());
        push_u16(&mut out, self.header.permissions);
        push_u16(&mut out, self.header.uid);
        push_u16(&mut out, self.header.gid);
        push_u32(&mut out, self.header.mtime);
        push_u32(&mut out, self.header.inode_number);
        assert(out@ =~= header_record(self.id, self.header));
        let ghost head = out@;
        match &self.inner {
            InodeInner::BasicDirectory(d) => {
                push_u32(&mut out, d.block_index);
                push_u32(&mut out, d.link_count);
                push_u16(&mut out, d.file_size);
                push_u16(&mut out, d.block_offset);
                push_u32(&mut out, d.parent_inode);
            },
            InodeInner::BasicFile(f) => {
                push_u32(&mut out, f.blocks_start);
                push_u32(&mut out, f.frag_index);
                push_u32(&mut out, f.block_offset);
                push_u32(&mut out, f.file_size);
                let ghost fixed = out@;
                let mut i: usize = 0;
                while i < f.block_sizes.len()
                    invariant
                        i <= f.block_sizes.len(),
                        out@ == fixed + le32_all(f.block_sizes@.take(i as int)),
                    decreases f.block_sizes.len() - i,
                {
                    push_u32(&mut out, f.block_sizes[i]);
                    assert(f.block_sizes@.take(i + 1).drop_last() =~= f.block_sizes@.take(i as int));
                    i += 1;
                    assert(out@ =~= fixed + le32_all(f.block_sizes@.take(i as int)));
                }
                assert(f.block_sizes@.take(i as int) =~= f.block_sizes@);
            },
            InodeInner::BasicSymlink(s) => {
                push_u32(&mut out, s.link_count);
                push_u32(&mut out, s.target_size);
                push_all(&mut out, s.target_path.as_slice());
            },
        }
        assert(out@ =~= head + body_record(self.inner@));
        proof {
            reveal(inode_record);
        }
        out
    }
}

/// What is said of an inode is said of its fields, and the kinds have the numbers of the format.
pub proof fn inode_is_of_fields(d: BasicDirectory, f: BasicFile, s: BasicSymlink, id: InodeId)
    ensures
        InodeInner::BasicDirectory(d)@ == InodeBody::Directory(d),
        InodeInner::BasicFile(f)@ == (InodeBody::File {
            blocks_start: f.blocks_start,
            frag_index: f.frag_index,
            block_offset: f.block_offset,
            file_size: f.file_size,
            block_sizes: f.block_sizes@,
        }),
        InodeInner::BasicSymlink(s)@ == (InodeBody::Symlink {
            link_count: s.link_count,
            target_size: s.target_size,
            target_path: s.target_path@,
        }),
        id == InodeId::BasicDirectory <==> id.spec_number() == 1,
        id == InodeId::BasicFile <==> id.spec_number() == 2,
        id == InodeId::BasicSymlink <==> id.spec_number() == 3,
{
}

} // verus!
