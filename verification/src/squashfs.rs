//! The superblock, which stands at the front of an image, and the ids of users and groups.

use vstd::prelude::*;
use crate::bytes::{le16, le32, le64, push_u16, push_u32, push_u64, u16_at, u16_follows, u32_at, u32_follows,
    u64_at, u64_follows};
use crate::compressor::Compressor;

verus! {

/// The length of a superblock.
pub const SUPERBLOCK_SIZE: usize = 96;

/// The bytes `hsqs`, with which an image begins.
pub const MAGIC: u32 = 0x7371_7368;

/// Stands for a table that the image does not have.
pub const NOT_SET: u64 = 0xffff_ffff_ffff_ffff;

/// The id of a user or a group.
#[derive(Debug, PartialEq, Eq, Clone, Copy, Structural)]
pub struct Id {
    pub num: u32,
}

impl Id {
    /// The record of the id table.
    pub fn to_bytes(&self) -> (r: Vec<u8>)
        ensures
            r@ == le32(self.num),
    {
        let mut out: Vec<u8> = Vec::new();
        push_u32(&mut out, self.num);
        assert(out@ =~= le32(self.num));
        out
    }
}

/// The records of several ids, one behind the other.
pub open spec fn id_records(ids: Seq<Id>) -> Seq<u8>
    decreases ids.len(),
{
    if ids.len() == 0 {
        Seq::empty()
    } else {
        id_records(ids.drop_last()) + le32(ids.last().num)
    }
}

/// What an image is and where its tables are.
#[derive(Debug, PartialEq, Eq, Clone, Copy, Structural)]
pub struct SuperBlock {
    pub magic: u32,
    pub inode_count: u32,
    pub mod_time: u32,
    /// How many bytes of a file a block holds
    pub block_size: u32,
    pub frag_count: u32,
    pub compressor: Compressor,
    /// The logarithm of `block_size` to the base two
    pub block_log: u16,
    pub flags: u16,
    pub id_count: u16,
    pub version_major: u16,
    pub version_minor: u16,
    /// Where the inode of the root is: the start of its block, and the lowest 16 bits its offset
    pub root_inode: u64,
    /// How many bytes of the image are not padding
    pub bytes_used: u64,
    pub id_table: u64,
    pub xattr_table: u64,
    pub inode_table: u64,
    pub dir_table: u64,
    pub frag_table: u64,
    pub export_table: u64,
}

impl SuperBlock {
    /// The superblock of an image in which there is nothing yet.
    pub open spec fn initial(compressor: Compressor) -> SuperBlock {
        SuperBlock {
            magic: MAGIC,
            inode_count: 0,
            mod_time: 0,
            block_size: 0,
            frag_count: 0,
            compressor,
            block_log: 0,
            flags: 0,
            id_count: 0,
            version_major: 4,
            version_minor: 0,
            root_inode: 0,
            bytes_used: 0,
            id_table: 0,
            xattr_table: NOT_SET,
            inode_table: 0,
            dir_table: 0,
            frag_table: NOT_SET,
            export_table: NOT_SET,
        }
    }

    /// The superblock of an image in which there is nothing yet.
    pub fn new(compressor: Compressor) -> (r: Self)
        ensures
            r == SuperBlock::initial(compressor),
    {
        SuperBlock {
            magic: MAGIC,
            inode_count: 0,
            mod_time: 0,
            block_size: 0,
            frag_count: 0,
            compressor,
            block_log: 0,
            flags: 0,
            id_count: 0,
            version_major: 4,
            version_minor: 0,
            root_inode: 0,
            bytes_used: 0,
            id_table: 0,
            xattr_table: NOT_SET,
            inode_table: 0,
            dir_table: 0,
            frag_table: NOT_SET,
            export_table: NOT_SET,
        }
    }

    /// How the superblock is recorded.
    #[verifier::opaque]
    pub open spec fn record(self) -> Seq<u8> {
        le32(self.magic) + le32(self.inode_count) + le32(self.mod_time) + le32(self.block_size) + le32(
            self.frag_count,
        ) + le16(self.compressor.spec_id()) + le16(self.block_log) + le16(self.flags) + le16(self.id_count)
            + le16(self.version_major) + le16(self.version_minor) + le64(self.root_inode) + le64(
            self.bytes_used,
        ) + le64(self.id_table) + le64(self.xattr_table) + le64(self.inode_table) + le64(self.dir_table)
            + le64(self.frag_table) + le64(self.export_table)
    }

    /// Each field of a superblock is read at its place in an image that begins with the superblock.
    pub proof fn record_is_read(self, after: Seq<u8>)
        ensures
            self.record().len() == SUPERBLOCK_SIZE,
            ({
                let s = self.record() + after;
                &&& u32_at(s, 0) == self.magic
                &&& u32_at(s, 4) == self.inode_count
                &&& u32_at(s, 8) == self.mod_time
                &&& u32_at(s, 12) == self.block_size
                &&& u32_at(s, 16) == self.frag_count
                &&& u16_at(s, 20) == self.compressor.spec_id()
                &&& u16_at(s, 22) == self.block_log
                &&& u16_at(s, 24) == self.flags
                &&& u16_at(s, 26) == self.id_count
                &&& u16_at(s, 28) == self.version_major
                &&& u16_at(s, 30) == self.version_minor
                &&& u64_at(s, 32) == self.root_inode
                &&& u64_at(s, 40) == self.bytes_used
                &&& u64_at(s, 48) == self.id_table
                &&& u64_at(s, 56) == self.xattr_table
                &&& u64_at(s, 64) == self.inode_table
                &&& u64_at(s, 72) == self.dir_table
                &&& u64_at(s, 80) == self.frag_table
                &&& u64_at(s, 88) == self.export_table
            }),
    {
        reveal(SuperBlock::record);
        let s = self.record() + after;
        let to_magic = le32(self.magic);
        assert(to_magic.len() == 4);
        let to_inode_count = to_magic + le32(self.inode_count);
        assert(to_inode_count.len() == 8);
        let to_mod_time = to_inode_count + le32(self.mod_time);
        assert(to_mod_time.len() == 12);
        let to_block_size = to_mod_time + le32(self.block_size);
        assert(to_block_size.len() == 16);
        let to_frag_count = to_block_size + le32(self.frag_count);
        assert(to_frag_count.len() == 20);
        let to_compressor = to_frag_count + le16(self.compressor.spec_id());
        assert(to_compressor.len() == 22);
        let to_block_log = to_compressor + le16(self.block_log);
        assert(to_block_log.len() == 24);
        let to_flags = to_block_log + le16(self.flags);
        assert(to_flags.len() == 26);
        let to_id_count = to_flags + le16(self.id_count);
        assert(to_id_count.len() == 28);
        let to_version_major = to_id_count + le16(self.version_major);
        assert(to_version_major.len() == 30);
        let to_version_minor = to_version_major + le16(self.version_minor);
        assert(to_version_minor.len() == 32);
        let to_root_inode = to_version_minor + le64(self.root_inode);
        assert(to_root_inode.len() == 40);
        let to_bytes_used = to_root_inode + le64(self.bytes_used);
        assert(to_bytes_used.len() == 48);
        let to_id_table = to_bytes_used + le64(self.id_table);
        assert(to_id_table.len() == 56);
        let to_xattr_table = to_id_table + le64(self.xattr_table);
        assert(to_xattr_table.len() == 64);
        let to_inode_table = to_xattr_table + le64(self.inode_table);
        assert(to_inode_table.len() == 72);
        let to_dir_table = to_inode_table + le64(self.dir_table);
        assert(to_dir_table.len() == 80);
        let to_frag_table = to_dir_table + le64(self.frag_table);
        assert(to_frag_table.len() == 88);
        let to_export_table = to_frag_table + le64(self.export_table);
        assert(to_export_table.len() == 96);
        assert(s.take(96) =~= to_export_table);
        u64_follows(s, to_frag_table, self.export_table);
        u64_follows(s, to_dir_table, self.frag_table);
        u64_follows(s, to_inode_table, self.dir_table);
        u64_follows(s, to_xattr_table, self.inode_table);
        u64_follows(s, to_id_table, self.xattr_table);
        u64_follows(s, to_bytes_used, self.id_table);
        u64_follows(s, to_root_inode, self.bytes_used);
        u64_follows(s, to_version_minor, self.root_inode);
        u16_follows(s, to_version_major, self.version_minor);
        u16_follows(s, to_id_count, self.version_major);
        u16_follows(s, to_flags, self.id_count);
        u16_follows(s, to_block_log, self.flags);
        u16_follows(s, to_compressor, self.block_log);
        u16_follows(s, to_frag_count, self.compressor.spec_id());
        u32_follows(s, to_block_size, self.frag_count);
        u32_follows(s, to_mod_time, self.block_size);
        u32_follows(s, to_inode_count, self.mod_time);
        u32_follows(s, to_magic, self.inode_count);
        assert(Seq::<u8>::empty() + to_magic =~= to_magic);
        u32_follows(s, Seq::empty(), self.magic);
    }

    /// How the superblock is recorded.
    pub fn to_bytes(&self) -> (r: Vec<u8>)
        ensures
            r@ == self.record(),
            r@.len() == SUPERBLOCK_SIZE,
    {
        let mut out: Vec<u8> = Vec::new();
        push_u32(&mut out, self.magic);
        assert(out@ =~= le32(self.magic));
        push_u32(&mut out, self.inode_count);
        push_u32(&mut out, self.mod_time);
        push_u32(&mut out, self.block_size);
        push_u32(&mut out, self.frag_count);
        push_u16(&mut out, self.compressor.id());
        push_u16(&mut out, self.block_log);
        push_u16(&mut out, self.flags);
        push_u16(&mut out, self.id_count);
        push_u16(&mut out, self.version_major);
        push_u16(&mut out, self.version_minor);
        push_u64(&mut out, self.root_inode);
        push_u64(&mut out, self.bytes_used);
        push_u64(&mut out, self.id_table);
        push_u64(&mut out, self.xattr_table);
        push_u64(&mut out, self.inode_table);
        push_u64(&mut out, self.dir_table);
        push_u64(&mut out, self.frag_table);
        push_u64(&mut out, self.export_table);
        assert(out@ == self.record()) by {
            reveal(SuperBlock::record);
        }
        proof {
            self.record_is_read(Seq::empty());
        }
        out
    }
}

/// A superblock starts with the constants of the format, no tables and no counts.
pub proof fn superblock_starts_empty(compressor: Compressor)
    ensures
        ({
            let superblock = SuperBlock::initial(compressor);
            &&& superblock.magic == 0x7371_7368
            &&& superblock.inode_count == 0
            &&& superblock.mod_time == 0
            &&& superblock.block_size == 0
            &&& superblock.frag_count == 0
            &&& superblock.compressor == compressor
            &&& superblock.block_log == 0
            &&& superblock.flags == 0
            &&& superblock.id_count == 0
            &&& superblock.version_major == 4
            &&& superblock.version_minor == 0
            &&& superblock.root_inode == 0
            &&& superblock.bytes_used == 0
            &&& superblock.id_table == 0
            &&& superblock.xattr_table == 0xffff_ffff_ffff_ffff
            &&& superblock.inode_table == 0
            &&& superblock.dir_table == 0
            &&& superblock.frag_table == 0xffff_ffff_ffff_ffff
            &&& superblock.export_table == 0xffff_ffff_ffff_ffff
        }),
{
}

} // verus!
