//! What an image of a filesystem is: the tables that the nodes fill, and how they stand one behind
//! the other.

use vstd::prelude::*;
use vstd::utf8::encode_utf8;
use crate::bytes::{le16, le64};
use crate::compressor::{CompressionOptions, Compressor};
use crate::data::{AddedView, DataView};
use crate::entry::{by_name, run_record, runs, EntryView};
use crate::fragment::{fragment_records, Fragment};
use crate::inode::{inode_record, BasicDirectory, InodeBody, InodeId};
use crate::metadata::{block_offset, block_start, metadata_blocks, uncompressed_len};
use crate::node::{FileView, FilesystemHeader, NodeView, PathView, SymlinkView};
use crate::path::file_name;
use crate::squashfs::{id_records, Id, SuperBlock, SUPERBLOCK_SIZE};
use crate::tree::{tree_of, Tree};

verus! {

/// A filesystem.
#[verifier::ext_equal]
pub struct FilesystemView {
    pub block_size: u32,
    pub block_log: u16,
    pub compressor: Compressor,
    pub compression_options: Option<CompressionOptions>,
    pub id_table: Option<Seq<Id>>,
    pub root_inode: PathView,
    pub nodes: Seq<NodeView>,
}

/// How far the writing of nodes has come.
#[verifier::ext_equal]
pub struct Progress {
    /// The number for the next inode
    pub inode: u32,
    /// The inode table
    pub inodes: Seq<u8>,
    /// The directory table
    pub dirs: Seq<u8>,
    /// The contents of files
    pub data: DataView,
}

/// Where the block begins that the next record of the table `s` will be in.
pub open spec fn start_of(p: Progress, s: Seq<u8>) -> u32 {
    block_start(p.data.compressor, s) as u32
}

/// The table `s` with `record` behind it, if the next record can then be referred to.
pub open spec fn appended(p: Progress, s: Seq<u8>, record: Seq<u8>) -> Option<Seq<u8>> {
    if block_start(p.data.compressor, s + record) <= u32::MAX {
        Some(s + record)
    } else {
        None
    }
}

/// The inode `number` is recorded, and there is an entry called `name` for it. The length of the name,
/// which is recorded less one in 16 bits, must leave something in these bits.
pub open spec fn entered(
    p: Progress,
    id: InodeId,
    header: FilesystemHeader,
    number: u32,
    body: InodeBody,
    name: Seq<u8>,
) -> Option<(EntryView, Progress)> {
    match appended(p, p.inodes, inode_record(id, header.spec_numbered(number), body)) {
        Some(inodes) => if name.len() % 0x1_0000 == 0 {
            None
        } else {
            Some(
                (
                    EntryView {
                        start: start_of(p, p.inodes),
                        offset: block_offset(p.inodes),
                        inode: number,
                        t: id,
                        name_size: (name.len() % 0x1_0000 - 1) as u16,
                        name,
                    },
                    Progress { inodes, ..p },
                ),
            )
        },
        None => None,
    }
}

/// The next number is given to an inode.
pub open spec fn counted(p: Progress) -> Option<Progress> {
    if p.inode == u32::MAX {
        None
    } else {
        Some(Progress { inode: (p.inode + 1) as u32, ..p })
    }
}

/// A directory without children is recorded, below the directory with the inode `parent`.
pub open spec fn path_written(p: Progress, name: Seq<u8>, path: PathView, parent: u32) -> Option<
    (EntryView, Progress),
> {
    match counted(p) {
        Some(q) => entered(
            q,
            InodeId::BasicDirectory,
            path.header,
            p.inode,
            InodeBody::Directory(
                BasicDirectory {
                    block_index: start_of(p, p.dirs),
                    link_count: 2,
                    file_size: 3,
                    block_offset: block_offset(p.dirs),
                    parent_inode: parent,
                },
            ),
            name,
        ),
        None => None,
    }
}

/// What the inode of a file of `len` bytes records, whose contents were put where `added` says.
pub open spec fn file_body(added: AddedView, len: nat) -> InodeBody {
    let file_size = (len % 0x1_0000_0000) as u32;
    match added {
        AddedView::Data { blocks_start, block_sizes } => InodeBody::File {
            blocks_start,
            frag_index: 0xffff_ffff,
            block_offset: 0,
            file_size,
            block_sizes,
        },
        AddedView::Fragment { frag_index, block_offset } => InodeBody::File {
            blocks_start: 0,
            frag_index,
            block_offset,
            file_size,
            block_sizes: Seq::empty(),
        },
    }
}

/// A file is recorded, and its contents are added to the data.
pub open spec fn file_written(p: Progress, file: FileView) -> Option<(EntryView, Progress)> {
    match (counted(p), p.data.added(file.bytes), file_name(file.path)) {
        (Some(q), Some((added, data)), Some(name)) => entered(
            Progress { data, ..q },
            InodeId::BasicFile,
            file.header,
            p.inode,
            file_body(added, file.bytes.len()),
            name,
        ),
        _ => None,
    }
}

/// A symbolic link is recorded.
pub open spec fn symlink_written(p: Progress, symlink: SymlinkView) -> Option<(EntryView, Progress)> {
    let target = encode_utf8(symlink.link);
    match counted(p) {
        Some(q) => entered(
            q,
            InodeId::BasicSymlink,
            symlink.header,
            p.inode,
            InodeBody::Symlink {
                link_count: 1,
                target_size: (target.len() % 0x1_0000_0000) as u32,
                target_path: target,
            },
            encode_utf8(symlink.original),
        ),
        None => None,
    }
}

/// A node with nothing below it is recorded, below the directory with the inode `parent`.
#[verifier::opaque]
pub open spec fn leaf_written(p: Progress, name: Seq<u8>, node: NodeView, parent: u32) -> Option<
    (EntryView, Progress),
> {
    match node {
        NodeView::Path(path) => path_written(p, name, path, parent),
        NodeView::File(file) => file_written(p, file),
        NodeView::Symlink(symlink) => symlink_written(p, symlink),
    }
}

/// Several such nodes are recorded, in their order.
pub open spec fn leaves_written(p: Progress, leaves: Seq<(Seq<u8>, NodeView)>, parent: u32) -> Option<
    (Seq<EntryView>, Progress),
>
    decreases leaves.len(),
{
    if leaves.len() == 0 {
        Some((Seq::empty(), p))
    } else {
        match leaves_written(p, leaves.drop_last(), parent) {
            Some((entries, q)) => match leaf_written(q, leaves.last().0, leaves.last().1, parent) {
                Some((entry, r)) => Some((entries.push(entry), r)),
                None => None,
            },
            None => None,
        }
    }
}

/// The headers of a listing and the entries under them are recorded, in their order. The second
/// component is the size that the inode of the directory records.
pub open spec fn listed(p: Progress, listing: Seq<Seq<EntryView>>) -> Option<(Progress, u16)>
    decreases listing.len(),
{
    if listing.len() == 0 {
        Some((p, 3))
    } else {
        match listed(p, listing.drop_last()) {
            Some((q, size)) => {
                let record = run_record(listing.last());
                match appended(q, q.dirs, record) {
                    Some(dirs) => if size + record.len() % 0x1_0000 <= u16::MAX {
                        Some((Progress { dirs, ..q }, (size + record.len() % 0x1_0000) as u16))
                    } else {
                        None
                    },
                    None => None,
                }
            },
            None => None,
        }
    }
}

/// A directory with the inode `number` is recorded, whose children have the entries `entries`.
#[verifier::opaque]
pub open spec fn directory_written(
    p: Progress,
    name: Seq<u8>,
    entries: Seq<EntryView>,
    header: Option<FilesystemHeader>,
    number: u32,
    parent: u32,
) -> Option<(EntryView, Progress)> {
    match (listed(p, runs(by_name(entries))), header) {
        (Some((q, file_size)), Some(h)) => entered(
            q,
            InodeId::BasicDirectory,
            h,
            number,
            InodeBody::Directory(
                BasicDirectory {
                    block_index: start_of(p, p.dirs),
                    link_count: 2,
                    file_size,
                    block_offset: block_offset(p.dirs),
                    parent_inode: parent,
                },
            ),
            name,
        ),
        _ => None,
    }
}

/// What has come of a part of the tree.
#[verifier::ext_equal]
pub struct Written {
    /// The entries of the directories in it, which are recorded
    pub entries: Seq<EntryView>,
    /// The nodes in it with nothing below them, which are not recorded yet
    pub leaves: Seq<(Seq<u8>, NodeView)>,
    /// Where the inode of the directory is
    pub reference: u64,
    pub progress: Progress,
}

/// How the superblock refers to an inode.
pub open spec fn reference_to(entry: EntryView) -> u64 {
    (entry.start * 0x1_0000 + entry.offset) as u64
}

/// The place `t` is recorded if there is anything below it; the directories then have the metadata
/// `header`. A place with nothing below it is left to the directory that it is in.
pub open spec fn node_written(
    p: Progress,
    t: Tree,
    header: Option<FilesystemHeader>,
    parent: u32,
) -> Option<Written>
    decreases t,
{
    if t.children.len() == 0 {
        match t.node {
            Some(node) => Some(
                Written {
                    entries: Seq::empty(),
                    leaves: seq![(t.name, node)],
                    reference: 0,
                    progress: p,
                },
            ),
            None => None,
        }
    } else {
        match counted(p) {
            Some(q) => match children_written(q, t.children, header, p.inode) {
                Some(below) => match leaves_written(below.progress, below.leaves, p.inode) {
                    Some((entries, r)) => match directory_written(
                        r,
                        t.name,
                        below.entries + entries,
                        header,
                        p.inode,
                        parent,
                    ) {
                        Some((entry, progress)) => Some(
                            Written {
                                entries: seq![entry],
                                leaves: Seq::empty(),
                                reference: reference_to(entry),
                                progress,
                            },
                        ),
                        None => None,
                    },
                    None => None,
                },
                None => None,
            },
            None => None,
        }
    }
}

/// Several places are recorded, in their order.
pub open spec fn children_written(
    p: Progress,
    children: Seq<Tree>,
    header: Option<FilesystemHeader>,
    parent: u32,
) -> Option<Written>
    decreases children,
{
    if children.len() == 0 {
        Some(Written { entries: Seq::empty(), leaves: Seq::empty(), reference: 0, progress: p })
    } else {
        match children_written(p, children.drop_last(), header, parent) {
            Some(before) => match node_written(before.progress, children.last(), header, parent) {
                Some(last) => Some(
                    Written {
                        entries: before.entries + last.entries,
                        leaves: before.leaves + last.leaves,
                        reference: 0,
                        progress: last.progress,
                    },
                ),
                None => None,
            },
            None => None,
        }
    }
}

/// The metadata of the directories: that of the node at the root, if there is one, which must then be
/// a directory.
pub open spec fn directory_header(t: Tree, root: PathView) -> Option<FilesystemHeader> {
    match t.node {
        Some(NodeView::Path(path)) => Some(path.header),
        Some(_) => None,
        None => Some(root.header),
    }
}

/// `n` zero bytes.
pub open spec fn zeros(n: nat) -> Seq<u8> {
    Seq::new(n, |i: int| 0u8)
}

/// A table that stands behind `at` bytes: the records as one block that is not compressed, and then
/// where that block is.
pub open spec fn table_section(records: Seq<u8>, at: nat) -> Seq<u8> {
    le16(uncompressed_len((records.len() % 0x1_0000) as u16)) + records + le64(at as u64)
}

/// An image that is being put together, with its superblock.
#[verifier::ext_equal]
pub struct Draft {
    pub bytes: Seq<u8>,
    pub superblock: SuperBlock,
}

/// The fragment table is appended.
pub open spec fn with_fragments(d: Draft, table: Seq<Fragment>) -> Draft {
    Draft {
        bytes: d.bytes + table_section(fragment_records(table), d.bytes.len()),
        superblock: SuperBlock {
            frag_table: (d.bytes.len() + 2 + fragment_records(table).len()) as u64,
            frag_count: (table.len() % 0x1_0000_0000) as u32,
            ..d.superblock
        },
    }
}

/// The id table, if there is one, is appended.
pub open spec fn with_ids(d: Draft, ids: Option<Seq<Id>>) -> Draft {
    match ids {
        Some(ids) => Draft {
            bytes: d.bytes + table_section(id_records(ids), d.bytes.len()),
            superblock: SuperBlock {
                id_table: (d.bytes.len() + 2 + id_records(ids).len()) as u64,
                id_count: (ids.len() % 0x1_0000) as u16,
                ..d.superblock
            },
        },
        None => d,
    }
}

/// How many bytes of padding follow `used` bytes: up to the next multiple of 4096, and at least one.
pub open spec fn padding(used: nat) -> nat {
    (0x1000 - used % 0x1000) as nat
}

/// The length up to which an image is padded is a 32-bit number, but for what its length has above
/// these bits.
pub open spec fn can_pad(used: nat) -> bool {
    used % 0x1_0000_0000 < 0xffff_f000
}

/// The image is padded, and the superblock is put at its front.
pub open spec fn finished(d: Draft) -> Draft {
    let superblock = SuperBlock { bytes_used: d.bytes.len() as u64, ..d.superblock };
    Draft {
        bytes: superblock.record() + (d.bytes + zeros(padding(d.bytes.len()))).skip(
            SUPERBLOCK_SIZE as int,
        ),
        superblock,
    }
}

/// The image before the tables of fragments and ids: room for the superblock, the contents of files,
/// the inode table and the directory table.
pub open spec fn main_sections(fs: FilesystemView, w: Written, data: DataView) -> Draft {
    let front = zeros(SUPERBLOCK_SIZE as nat) + data.data;
    let inodes = metadata_blocks(fs.compressor, w.progress.inodes);
    let dirs = metadata_blocks(fs.compressor, w.progress.dirs);
    Draft {
        bytes: front + inodes + dirs,
        superblock: SuperBlock {
            root_inode: w.reference,
            inode_count: w.progress.inode,
            block_size: fs.block_size,
            block_log: fs.block_log,
            inode_table: front.len() as u64,
            dir_table: (front.len() + inodes.len()) as u64,
            ..SuperBlock::initial(fs.compressor)
        },
    }
}

/// Where the writing of nodes begins: nothing is written, and the root has the inode 1.
pub open spec fn beginning(fs: FilesystemView) -> Progress {
    Progress {
        inode: 1,
        inodes: Seq::empty(),
        dirs: Seq::empty(),
        data: DataView::empty(fs.compressor, fs.block_size, SUPERBLOCK_SIZE as u32),
    }
}

/// What comes of all nodes of a filesystem.
pub open spec fn all_written(fs: FilesystemView) -> Option<Written> {
    let t = tree_of(fs.nodes);
    node_written(beginning(fs), t, directory_header(t, fs.root_inode), 0)
}

/// The image of a filesystem with its superblock, for a compressor that can write. There is none if
/// the filesystem has no nodes or what must be recorded does not fit in the fields for it.
pub open spec fn draft(fs: FilesystemView) -> Option<Draft> {
    match all_written(fs) {
        Some(w) => match w.progress.data.flushed() {
            Some(data) => {
                let d = with_ids(with_fragments(main_sections(fs, w, data), data.table), fs.id_table);
                if can_pad(d.bytes.len()) {
                    Some(finished(d))
                } else {
                    None
                }
            },
            None => None,
        },
        None => None,
    }
}

/// The image of a filesystem, for a compressor that can write.
pub open spec fn image(fs: FilesystemView) -> Option<Seq<u8>> {
    match draft(fs) {
        Some(d) => Some(d.bytes),
        None => None,
    }
}

/// Where some of a listing cannot be recorded, the listing cannot.
pub proof fn listing_stays_unwritten(p: Progress, listing: Seq<Seq<EntryView>>, k: int)
    requires
        0 <= k <= listing.len(),
        listed(p, listing.take(k)) is None,
    ensures
        listed(p, listing) is None,
    decreases listing.len(),
{
    if k == listing.len() {
        assert(listing.take(k) =~= listing);
    } else {
        assert(listing.drop_last().take(k) =~= listing.take(k));
        listing_stays_unwritten(p, listing.drop_last(), k);
    }
}

/// Where some of several leaves cannot be recorded, they cannot all be.
pub proof fn leaves_stay_unwritten(p: Progress, leaves: Seq<(Seq<u8>, NodeView)>, k: int, parent: u32)
    requires
        0 <= k <= leaves.len(),
        leaves_written(p, leaves.take(k), parent) is None,
    ensures
        leaves_written(p, leaves, parent) is None,
    decreases leaves.len(),
{
    if k == leaves.len() {
        assert(leaves.take(k) =~= leaves);
    } else {
        assert(leaves.drop_last().take(k) =~= leaves.take(k));
        leaves_stay_unwritten(p, leaves.drop_last(), k, parent);
    }
}

/// Where some of several places cannot be recorded, they cannot all be.
pub proof fn children_stay_unwritten(
    p: Progress,
    children: Seq<Tree>,
    k: int,
    header: Option<FilesystemHeader>,
    parent: u32,
)
    requires
        0 <= k <= children.len(),
        children_written(p, children.take(k), header, parent) is None,
    ensures
        children_written(p, children, header, parent) is None,
    decreases children.len(),
{
    if k == children.len() {
        assert(children.take(k) =~= children);
    } else {
        assert(children.drop_last().take(k) =~= children.take(k));
        children_stay_unwritten(p, children.drop_last(), k, header, parent);
    }
}

} // verus!
