//! What looking up a path in an image gives.

use vstd::prelude::*;
use vstd::utf8::encode_utf8;
use crate::bytes::{u16_at, u32_at, u64_at};
use crate::compressor::stored;
use crate::data::{block_size_field, file_block_sizes, file_blocks, AddedView};
use crate::entry::{by_name, runs, EntryView};
use crate::growth::stands_at;
use crate::image::{directory_header, draft, file_body, reference_to, FilesystemView, Progress};
use crate::inode::{inode_record, BasicDirectory, InodeBody, InodeId};
use crate::laws::{child_number, has_inode, has_listing, holds_contents, is_seating, listing_record,
    listing_size, shows, shows_leaf};
use crate::layout::{image_reads_superblock, recorded};
use crate::metadata::metadata_blocks;
use crate::node::{FileView, FilesystemHeader, NodeView, PathView, SymlinkView};
use crate::numbering::number_at;
use crate::path::location;
use crate::pushing::{is_below, nothing_is_below};
use crate::reading::{child_entry, entry_name, image_shows_tree, leads, lookup_leads, node_is_found,
    shown_is_called};
use crate::records::{directory_fields_are_read, file_fields_are_read, image_reads_tables,
    inode_header_is_read, reads_fragment, symlink_fields_are_read};
use crate::storing::{contents_are_stored, has_fragment, has_record, inode_is_stored, listing_is_stored,
    recorded_has_parameters};
use crate::tree::{found, found_is_at_place, last_at, last_at_is_last, place, seat_is_between, seat_of,
    tree_holds_nodes, tree_of, Tree};

verus! {

/// Whether looking up `names` in the image, from the inode `root` on that the superblock gives, leads to the
/// entry `e`, and the metadata blocks that hold the inode of `e` are in the image and hold `held`.
pub open spec fn looked_up(
    fs: FilesystemView,
    names: Seq<Seq<u8>>,
    root: EntryView,
    e: EntryView,
    held: Seq<u8>,
) -> bool {
    let image = draft(fs).unwrap().bytes;
    let header = directory_header(tree_of(fs.nodes), fs.root_inode).unwrap();
    &&& u64_at(image, 32) == root.start * 0x1_0000 + root.offset
    &&& root.inode == 1
    &&& leads(recorded(fs), root, header, names, e)
    &&& stands_at(image, u64_at(image, 64) + e.start, metadata_blocks(fs.compressor, held))
}

/// What is recorded of an inode to which an entry refers is held by blocks of the image.
proof fn inode_is_held(fs: FilesystemView, e: EntryView, header: FilesystemHeader, body: InodeBody) -> (held: Seq<
    u8,
>)
    requires
        draft(fs) is Some,
        draft(fs).unwrap().bytes.len() <= u64::MAX,
        has_inode(recorded(fs), e, header, body),
    ensures
        stands_at(
            draft(fs).unwrap().bytes,
            u64_at(draft(fs).unwrap().bytes, 64) + e.start,
            metadata_blocks(fs.compressor, held),
        ),
        stands_at(held, e.offset as int, inode_record(e.t, header.spec_numbered(e.inode), body)),
{
    let image = draft(fs).unwrap().bytes;
    let at = draft(fs).unwrap().superblock.inode_table + e.start;
    let record = inode_record(e.t, header.spec_numbered(e.inode), body);
    image_reads_superblock(fs);
    inode_is_stored(fs, e, header, body);
    assert(has_record(fs, at, e.offset, record));
    choose|held: Seq<u8>| #[trigger]
        stands_at(image, at, metadata_blocks(fs.compressor, held)) && stands_at(held, e.offset as int, record)
}

proof fn root_is_referred_to(fs: FilesystemView, root: EntryView)
    requires
        draft(fs) is Some,
        draft(fs).unwrap().superblock.root_inode == reference_to(root),
    ensures
        u64_at(draft(fs).unwrap().bytes, 32) == root.start * 0x1_0000 + root.offset,
{
    image_reads_superblock(fs);
}

/// A file that is the last node at its place, with none below it, is read back from the image of the
/// filesystem. Its inode has its metadata, its length and a number of its own. A file that is empty or fills a
/// block has its contents in blocks from where the inode says on, whose sizes the inode gives. Any other has
/// them in the fragment that the inode gives, at the offset that it gives, and the fragment is stored where the
/// fragment table says.
pub proof fn file_reads_back(fs: FilesystemView, file: FileView) -> (r: (EntryView, EntryView, Seq<u8>))
    requires
        draft(fs) is Some,
        draft(fs).unwrap().bytes.len() <= u64::MAX,
        location(file.path).len() > 0,
        last_at(fs.nodes, location(file.path)) == Some(NodeView::File(file)),
        forall|i: int|
            0 <= i < fs.nodes.len() ==> !is_below(
                location((#[trigger] fs.nodes[i]).path()),
                location(file.path),
            ),
    ensures
        looked_up(fs, location(file.path), r.0, r.1, r.2),
        r.1.name == location(file.path).last(),
        ({
            let image = draft(fs).unwrap().bytes;
            let held = r.2;
            let at = r.1.offset as int;
            let sizes = file_block_sizes(fs.compressor, fs.block_size, file.bytes);
            &&& u16_at(held, at) == 2
            &&& u16_at(held, at + 2) == file.header.permissions
            &&& u16_at(held, at + 4) == file.header.uid
            &&& u16_at(held, at + 6) == file.header.gid
            &&& u32_at(held, at + 8) == file.header.mtime
            &&& u32_at(held, at + 12) == number_at(tree_of(fs.nodes), 1, location(file.path))
            &&& file.bytes.len() <= u32::MAX ==> u32_at(held, at + 28) == file.bytes.len()
            &&& file.bytes.len() == 0 || file.bytes.len() >= fs.block_size ==> {
                &&& u32_at(held, at + 20) == 0xffff_ffff
                &&& u32_at(held, at + 24) == 0
                &&& stands_at(
                    image,
                    u32_at(held, at + 16) as int,
                    file_blocks(fs.compressor, fs.block_size, file.bytes),
                )
                &&& forall|k: int|
                    0 <= k < sizes.len() ==> u32_at(held, at + 32 + 4 * k) == #[trigger] sizes[k]
            }
            &&& 0 < file.bytes.len() < fs.block_size ==> {
                let entry = u64_at(image, u64_at(image, 80) as int) + 2 + 16 * u32_at(held, at + 20);
                &&& u32_at(held, at + 16) == 0
                &&& exists|whole: Seq<u8>|
                    {
                        &&& stands_at(image, u64_at(image, entry) as int, #[trigger] stored(fs.compressor, whole))
                        &&& u32_at(image, entry + 8) == block_size_field(fs.compressor, whole)
                        &&& stands_at(whole, u32_at(held, at + 24) as int, file.bytes)
                    }
            }
        }),
{
    let (root, e, added) = file_entry(fs, file);
    root_is_referred_to(fs, root);
    recorded_has_parameters(fs);
    contents_are_stored(fs, added, file.bytes);
    let held = match added {
        AddedView::Data { blocks_start, block_sizes } => {
            own_blocks_are_read(fs, e, file, blocks_start, block_sizes)
        },
        AddedView::Fragment { frag_index, block_offset } => {
            fragment_is_read(fs, e, file, frag_index, block_offset)
        },
    };
    (root, e, held)
}

proof fn file_entry(fs: FilesystemView, file: FileView) -> (r: (EntryView, EntryView, AddedView))
    requires
        draft(fs) is Some,
        location(file.path).len() > 0,
        last_at(fs.nodes, location(file.path)) == Some(NodeView::File(file)),
        forall|i: int|
            0 <= i < fs.nodes.len() ==> !is_below(
                location((#[trigger] fs.nodes[i]).path()),
                location(file.path),
            ),
    ensures
        draft(fs).unwrap().superblock.root_inode == reference_to(r.0),
        r.0.inode == 1,
        leads(
            recorded(fs),
            r.0,
            directory_header(tree_of(fs.nodes), fs.root_inode).unwrap(),
            location(file.path),
            r.1,
        ),
        r.1.name == location(file.path).last(),
        r.1.t == InodeId::BasicFile,
        r.1.inode == number_at(tree_of(fs.nodes), 1, location(file.path)),
        holds_contents(recorded(fs).data, r.2, file.bytes),
        has_inode(recorded(fs), r.1, file.header, file_body(r.2, file.bytes.len())),
        (r.2 is Fragment) == (0 < file.bytes.len() < recorded(fs).data.block_size),
{
    let names = location(file.path);
    tree_holds_nodes(fs.nodes, names);
    found_is_at_place(tree_of(fs.nodes), names);
    nothing_is_below(fs.nodes, names);
    let (root, e, parent) = node_is_found(fs, names, NodeView::File(file));
    reveal(shows_leaf);
    let added = choose|added: AddedView| #[trigger]
        holds_contents(recorded(fs).data, added, file.bytes) && has_inode(
            recorded(fs),
            e,
            file.header,
            file_body(added, file.bytes.len()),
        ) && (added is Fragment) == (0 < file.bytes.len() < recorded(fs).data.block_size);
    (root, e, added)
}

/// Whether the metadata of a file and its length are read at `at`.
spec fn reads_file(held: Seq<u8>, at: int, number: u32, file: FileView) -> bool {
    &&& u16_at(held, at) == 2
    &&& u16_at(held, at + 2) == file.header.permissions
    &&& u16_at(held, at + 4) == file.header.uid
    &&& u16_at(held, at + 6) == file.header.gid
    &&& u32_at(held, at + 8) == file.header.mtime
    &&& u32_at(held, at + 12) == number
    &&& file.bytes.len() <= u32::MAX ==> u32_at(held, at + 28) == file.bytes.len()
}

proof fn file_header_is_read(held: Seq<u8>, at: int, number: u32, header: FilesystemHeader, body: InodeBody)
    requires
        stands_at(held, at, inode_record(InodeId::BasicFile, header.spec_numbered(number), body)),
    ensures
        u16_at(held, at) == 2,
        u16_at(held, at + 2) == header.permissions,
        u16_at(held, at + 4) == header.uid,
        u16_at(held, at + 6) == header.gid,
        u32_at(held, at + 8) == header.mtime,
        u32_at(held, at + 12) == number,
{
    inode_header_is_read(held, at, InodeId::BasicFile, header.spec_numbered(number), body);
}

proof fn own_blocks_record_is_read(
    held: Seq<u8>,
    at: int,
    number: u32,
    file: FileView,
    blocks_start: u32,
    block_sizes: Seq<u32>,
)
    requires
        stands_at(
            held,
            at,
            inode_record(
                InodeId::BasicFile,
                file.header.spec_numbered(number),
                file_body(AddedView::Data { blocks_start, block_sizes }, file.bytes.len()),
            ),
        ),
    ensures
        reads_file(held, at, number, file),
        u32_at(held, at + 16) == blocks_start,
        u32_at(held, at + 20) == 0xffff_ffff,
        u32_at(held, at + 24) == 0,
        forall|k: int|
            0 <= k < block_sizes.len() ==> u32_at(held, at + 32 + 4 * k) == #[trigger] block_sizes[k],
{
    let size = (file.bytes.len() % 0x1_0000_0000) as u32;
    let body = file_body(AddedView::Data { blocks_start, block_sizes }, file.bytes.len());
    file_header_is_read(held, at, number, file.header, body);
    file_fields_are_read(
        held,
        at,
        InodeId::BasicFile,
        file.header.spec_numbered(number),
        blocks_start,
        0xffff_ffff,
        0,
        size,
        block_sizes,
    );
}

proof fn fragment_record_is_read(
    held: Seq<u8>,
    at: int,
    number: u32,
    file: FileView,
    frag_index: u32,
    block_offset: u32,
)
    requires
        stands_at(
            held,
            at,
            inode_record(
                InodeId::BasicFile,
                file.header.spec_numbered(number),
                file_body(AddedView::Fragment { frag_index, block_offset }, file.bytes.len()),
            ),
        ),
    ensures
        reads_file(held, at, number, file),
        u32_at(held, at + 16) == 0,
        u32_at(held, at + 20) == frag_index,
        u32_at(held, at + 24) == block_offset,
{
    let size = (file.bytes.len() % 0x1_0000_0000) as u32;
    let none = Seq::<u32>::empty();
    let body = file_body(AddedView::Fragment { frag_index, block_offset }, file.bytes.len());
    let header = file.header.spec_numbered(number);
    assert(body == InodeBody::File { blocks_start: 0, frag_index, block_offset, file_size: size, block_sizes: none });
    file_header_is_read(held, at, number, file.header, body);
    file_fields_are_read(held, at, InodeId::BasicFile, header, 0, frag_index, block_offset, size, none);
}

proof fn own_blocks_are_read(
    fs: FilesystemView,
    e: EntryView,
    file: FileView,
    blocks_start: u32,
    block_sizes: Seq<u32>,
) -> (held: Seq<u8>)
    requires
        draft(fs) is Some,
        draft(fs).unwrap().bytes.len() <= u64::MAX,
        e.t == InodeId::BasicFile,
        has_inode(
            recorded(fs),
            e,
            file.header,
            file_body(AddedView::Data { blocks_start, block_sizes }, file.bytes.len()),
        ),
    ensures
        stands_at(
            draft(fs).unwrap().bytes,
            u64_at(draft(fs).unwrap().bytes, 64) + e.start,
            metadata_blocks(fs.compressor, held),
        ),
        reads_file(held, e.offset as int, e.inode, file),
        u32_at(held, e.offset + 16) == blocks_start,
        u32_at(held, e.offset + 20) == 0xffff_ffff,
        u32_at(held, e.offset + 24) == 0,
        forall|k: int|
            0 <= k < block_sizes.len() ==> u32_at(held, e.offset + 32 + 4 * k) == #[trigger] block_sizes[k],
{
    let added = AddedView::Data { blocks_start, block_sizes };
    let held = inode_is_held(fs, e, file.header, file_body(added, file.bytes.len()));
    own_blocks_record_is_read(held, e.offset as int, e.inode, file, blocks_start, block_sizes);
    held
}

proof fn fragment_is_read(
    fs: FilesystemView,
    e: EntryView,
    file: FileView,
    frag_index: u32,
    block_offset: u32,
) -> (held: Seq<u8>)
    requires
        draft(fs) is Some,
        draft(fs).unwrap().bytes.len() <= u64::MAX,
        e.t == InodeId::BasicFile,
        has_inode(
            recorded(fs),
            e,
            file.header,
            file_body(AddedView::Fragment { frag_index, block_offset }, file.bytes.len()),
        ),
        exists|whole: Seq<u8>| #[trigger]
            has_fragment(fs, frag_index as int, whole) && stands_at(whole, block_offset as int, file.bytes),
    ensures
        stands_at(
            draft(fs).unwrap().bytes,
            u64_at(draft(fs).unwrap().bytes, 64) + e.start,
            metadata_blocks(fs.compressor, held),
        ),
        reads_file(held, e.offset as int, e.inode, file),
        u32_at(held, e.offset + 16) == 0,
        ({
            let image = draft(fs).unwrap().bytes;
            let entry = u64_at(image, u64_at(image, 80) as int) + 2 + 16 * u32_at(held, e.offset + 20);
            exists|whole: Seq<u8>|
                {
                    &&& stands_at(image, u64_at(image, entry) as int, #[trigger] stored(fs.compressor, whole))
                    &&& u32_at(image, entry + 8) == block_size_field(fs.compressor, whole)
                    &&& stands_at(whole, u32_at(held, e.offset + 24) as int, file.bytes)
                }
        }),
{
    let added = AddedView::Fragment { frag_index, block_offset };
    let held = inode_is_held(fs, e, file.header, file_body(added, file.bytes.len()));
    fragment_record_is_read(held, e.offset as int, e.inode, file, frag_index, block_offset);
    let whole = choose|whole: Seq<u8>| #[trigger]
        has_fragment(fs, frag_index as int, whole) && stands_at(whole, block_offset as int, file.bytes);
    fragment_stands(fs, frag_index as int, whole);
    held
}

proof fn fragment_stands(fs: FilesystemView, i: int, whole: Seq<u8>)
    requires
        draft(fs) is Some,
        draft(fs).unwrap().bytes.len() <= u64::MAX,
        has_fragment(fs, i, whole),
    ensures
        ({
            let image = draft(fs).unwrap().bytes;
            let entry = u64_at(image, u64_at(image, 80) as int) + 2 + 16 * i;
            &&& stands_at(image, u64_at(image, entry) as int, stored(fs.compressor, whole))
            &&& u32_at(image, entry + 8) == block_size_field(fs.compressor, whole)
        }),
{
    let image = draft(fs).unwrap().bytes;
    image_reads_superblock(fs);
    image_reads_tables(fs);
    assert(reads_fragment(
        image,
        u64_at(image, draft(fs).unwrap().superblock.frag_table as int) + 2 + 16 * i,
        recorded(fs).data.table[i],
    ));
}

/// A symbolic link that is the last node at its place, with none below it, is read back from the image of the
/// filesystem if its own name is the last on the way: its metadata, the length of its target and the target.
pub proof fn symlink_reads_back(fs: FilesystemView, symlink: SymlinkView) -> (r: (EntryView, EntryView, Seq<u8>))
    requires
        draft(fs) is Some,
        draft(fs).unwrap().bytes.len() <= u64::MAX,
        location(symlink.path).len() > 0,
        last_at(fs.nodes, location(symlink.path)) == Some(NodeView::Symlink(symlink)),
        encode_utf8(symlink.original) == location(symlink.path).last(),
        forall|i: int|
            0 <= i < fs.nodes.len() ==> !is_below(
                location((#[trigger] fs.nodes[i]).path()),
                location(symlink.path),
            ),
    ensures
        looked_up(fs, location(symlink.path), r.0, r.1, r.2),
        r.1.name == encode_utf8(symlink.original),
        ({
            let held = r.2;
            let at = r.1.offset as int;
            let target = encode_utf8(symlink.link);
            &&& u16_at(held, at) == 3
            &&& u16_at(held, at + 2) == symlink.header.permissions
            &&& u16_at(held, at + 4) == symlink.header.uid
            &&& u16_at(held, at + 6) == symlink.header.gid
            &&& u32_at(held, at + 8) == symlink.header.mtime
            &&& u32_at(held, at + 12) == number_at(tree_of(fs.nodes), 1, location(symlink.path))
            &&& u32_at(held, at + 16) == 1
            &&& target.len() <= u32::MAX ==> u32_at(held, at + 20) == target.len()
            &&& stands_at(held, at + 24, target)
        }),
{
    let (root, e) = symlink_entry(fs, symlink);
    let held = inode_is_held(fs, e, symlink.header, symlink_body(symlink));
    root_is_referred_to(fs, root);
    symlink_record_is_read(held, e.offset as int, e.inode, symlink);
    (root, e, held)
}

spec fn symlink_body(symlink: SymlinkView) -> InodeBody {
    let target = encode_utf8(symlink.link);
    InodeBody::Symlink {
        link_count: 1,
        target_size: (target.len() % 0x1_0000_0000) as u32,
        target_path: target,
    }
}

proof fn symlink_entry(fs: FilesystemView, symlink: SymlinkView) -> (r: (EntryView, EntryView))
    requires
        draft(fs) is Some,
        location(symlink.path).len() > 0,
        last_at(fs.nodes, location(symlink.path)) == Some(NodeView::Symlink(symlink)),
        encode_utf8(symlink.original) == location(symlink.path).last(),
        forall|i: int|
            0 <= i < fs.nodes.len() ==> !is_below(
                location((#[trigger] fs.nodes[i]).path()),
                location(symlink.path),
            ),
    ensures
        draft(fs).unwrap().superblock.root_inode == reference_to(r.0),
        r.0.inode == 1,
        leads(
            recorded(fs),
            r.0,
            directory_header(tree_of(fs.nodes), fs.root_inode).unwrap(),
            location(symlink.path),
            r.1,
        ),
        r.1.name == encode_utf8(symlink.original),
        r.1.t == InodeId::BasicSymlink,
        r.1.inode == number_at(tree_of(fs.nodes), 1, location(symlink.path)),
        has_inode(recorded(fs), r.1, symlink.header, symlink_body(symlink)),
{
    let names = location(symlink.path);
    tree_holds_nodes(fs.nodes, names);
    found_is_at_place(tree_of(fs.nodes), names);
    nothing_is_below(fs.nodes, names);
    let (root, e, parent) = node_is_found(fs, names, NodeView::Symlink(symlink));
    reveal(shows_leaf);
    (root, e)
}

proof fn symlink_record_is_read(held: Seq<u8>, at: int, number: u32, symlink: SymlinkView)
    requires
        stands_at(
            held,
            at,
            inode_record(InodeId::BasicSymlink, symlink.header.spec_numbered(number), symlink_body(symlink)),
        ),
    ensures
        u16_at(held, at) == 3,
        u16_at(held, at + 2) == symlink.header.permissions,
        u16_at(held, at + 4) == symlink.header.uid,
        u16_at(held, at + 6) == symlink.header.gid,
        u32_at(held, at + 8) == symlink.header.mtime,
        u32_at(held, at + 12) == number,
        u32_at(held, at + 16) == 1,
        encode_utf8(symlink.link).len() <= u32::MAX ==> u32_at(held, at + 20) == encode_utf8(symlink.link).len(),
        stands_at(held, at + 24, encode_utf8(symlink.link)),
{
    let target = encode_utf8(symlink.link);
    let size = (target.len() % 0x1_0000_0000) as u32;
    let header = symlink.header.spec_numbered(number);
    inode_header_is_read(held, at, InodeId::BasicSymlink, header, symlink_body(symlink));
    symlink_fields_are_read(held, at, InodeId::BasicSymlink, header, 1, size, target);
}

/// A directory that is the last node at its place, with none below it, is read back from the image of the
/// filesystem: its own metadata, an empty listing and the number of the directory that it is in.
pub proof fn empty_directory_reads_back(fs: FilesystemView, dir: PathView) -> (r: (EntryView, EntryView, Seq<u8>))
    requires
        draft(fs) is Some,
        draft(fs).unwrap().bytes.len() <= u64::MAX,
        location(dir.path).len() > 0,
        last_at(fs.nodes, location(dir.path)) == Some(NodeView::Path(dir)),
        forall|i: int|
            0 <= i < fs.nodes.len() ==> !is_below(
                location((#[trigger] fs.nodes[i]).path()),
                location(dir.path),
            ),
    ensures
        looked_up(fs, location(dir.path), r.0, r.1, r.2),
        r.1.name == location(dir.path).last(),
        ({
            let held = r.2;
            let at = r.1.offset as int;
            let names = location(dir.path);
            &&& u16_at(held, at) == 1
            &&& u16_at(held, at + 2) == dir.header.permissions
            &&& u16_at(held, at + 4) == dir.header.uid
            &&& u16_at(held, at + 6) == dir.header.gid
            &&& u32_at(held, at + 8) == dir.header.mtime
            &&& u32_at(held, at + 12) == number_at(tree_of(fs.nodes), 1, names)
            &&& u32_at(held, at + 20) == 2
            &&& u16_at(held, at + 24) == 3
            &&& u32_at(held, at + 28) == number_at(tree_of(fs.nodes), 1, names.drop_last())
        }),
{
    let (root, e, d) = empty_directory_entry(fs, dir);
    let held = inode_is_held(fs, e, dir.header, InodeBody::Directory(d));
    root_is_referred_to(fs, root);
    directory_record_is_read(held, e.offset as int, e.inode, dir.header, d);
    (root, e, held)
}

proof fn empty_directory_entry(fs: FilesystemView, dir: PathView) -> (r: (EntryView, EntryView, BasicDirectory))
    requires
        draft(fs) is Some,
        location(dir.path).len() > 0,
        last_at(fs.nodes, location(dir.path)) == Some(NodeView::Path(dir)),
        forall|i: int|
            0 <= i < fs.nodes.len() ==> !is_below(
                location((#[trigger] fs.nodes[i]).path()),
                location(dir.path),
            ),
    ensures
        draft(fs).unwrap().superblock.root_inode == reference_to(r.0),
        r.0.inode == 1,
        leads(
            recorded(fs),
            r.0,
            directory_header(tree_of(fs.nodes), fs.root_inode).unwrap(),
            location(dir.path),
            r.1,
        ),
        r.1.name == location(dir.path).last(),
        r.1.t == InodeId::BasicDirectory,
        r.1.inode == number_at(tree_of(fs.nodes), 1, location(dir.path)),
        has_inode(recorded(fs), r.1, dir.header, InodeBody::Directory(r.2)),
        r.2.file_size == 3,
        r.2.link_count == 2,
        r.2.parent_inode == number_at(tree_of(fs.nodes), 1, location(dir.path).drop_last()),
{
    let names = location(dir.path);
    tree_holds_nodes(fs.nodes, names);
    found_is_at_place(tree_of(fs.nodes), names);
    nothing_is_below(fs.nodes, names);
    let (root, e, parent) = node_is_found(fs, names, NodeView::Path(dir));
    reveal(shows_leaf);
    let d = choose|d: BasicDirectory| #[trigger]
        has_inode(recorded(fs), e, dir.header, InodeBody::Directory(d)) && d.file_size == 3 && d.link_count == 2
            && d.parent_inode == parent;
    (root, e, d)
}

proof fn directory_record_is_read(
    held: Seq<u8>,
    at: int,
    number: u32,
    header: FilesystemHeader,
    d: BasicDirectory,
)
    requires
        stands_at(
            held,
            at,
            inode_record(InodeId::BasicDirectory, header.spec_numbered(number), InodeBody::Directory(d)),
        ),
    ensures
        u16_at(held, at) == 1,
        u16_at(held, at + 2) == header.permissions,
        u16_at(held, at + 4) == header.uid,
        u16_at(held, at + 6) == header.gid,
        u32_at(held, at + 8) == header.mtime,
        u32_at(held, at + 12) == number,
        u32_at(held, at + 16) == d.block_index,
        u32_at(held, at + 20) == d.link_count,
        u16_at(held, at + 24) == d.file_size,
        u16_at(held, at + 26) == d.block_offset,
        u32_at(held, at + 28) == d.parent_inode,
{
    let inode_header = header.spec_numbered(number);
    inode_header_is_read(held, at, InodeId::BasicDirectory, inode_header, InodeBody::Directory(d));
    directory_fields_are_read(held, at, InodeId::BasicDirectory, inode_header, d);
}

/// The metadata that directories with something below them have is that of the last node at the root, and that
/// of the filesystem's own root where no node is there.
pub proof fn directory_metadata_is_of_root(fs: FilesystemView)
    requires
        directory_header(tree_of(fs.nodes), fs.root_inode) is Some,
    ensures
        ({
            let header = directory_header(tree_of(fs.nodes), fs.root_inode).unwrap();
            &&& (forall|i: int| 0 <= i < fs.nodes.len() ==> location((#[trigger] fs.nodes[i]).path()).len() > 0)
                ==> header == fs.root_inode.header
            &&& forall|i: int|
                0 <= i < fs.nodes.len() && location((#[trigger] fs.nodes[i]).path()).len() == 0 && (forall|j: int|
                    i < j < fs.nodes.len() ==> location((#[trigger] fs.nodes[j]).path()).len() > 0)
                    ==> fs.nodes[i] is Path && header == fs.nodes[i]->Path_0.header
        }),
{
    let none = Seq::<Seq<u8>>::empty();
    tree_holds_nodes(fs.nodes, none);
    last_at_is_last(fs.nodes, none);
    assert(found(tree_of(fs.nodes), none) == tree_of(fs.nodes).node);
    assert forall|i: int|
        0 <= i < fs.nodes.len() && location((#[trigger] fs.nodes[i]).path()).len() == 0 && (forall|j: int|
            i < j < fs.nodes.len() ==> location((#[trigger] fs.nodes[j]).path()).len() > 0)
        implies fs.nodes[i] is Path && directory_header(tree_of(fs.nodes), fs.root_inode).unwrap()
        == fs.nodes[i]->Path_0.header by {
        assert(location(fs.nodes[i].path()) =~= none);
        let k = choose|k: int|
            {
                &&& 0 <= k < fs.nodes.len()
                &&& #[trigger] fs.nodes[k] == last_at(fs.nodes, none).unwrap()
                &&& location(fs.nodes[k].path()) == none
                &&& forall|j: int| k < j < fs.nodes.len() ==> location((#[trigger] fs.nodes[j]).path()) != none
            };
        assert(k == i);
    }
}

/// A directory with something below it is read back from the image of the filesystem, the root among them. Its
/// inode has the metadata of the root and the number of the directory that it is in, and leads to a listing
/// with an entry for each child, of the name and the number of the child, and no others.
pub proof fn directory_reads_back(fs: FilesystemView, names: Seq<Seq<u8>>) -> (r: (
    EntryView,
    EntryView,
    Seq<u8>,
    Seq<EntryView>,
    Seq<u8>,
))
    requires
        draft(fs) is Some,
        draft(fs).unwrap().bytes.len() <= u64::MAX,
        place(tree_of(fs.nodes), names) is Some,
        place(tree_of(fs.nodes), names).unwrap().children.len() > 0,
    ensures
        looked_up(fs, names, r.0, r.1, r.2),
        r.1.name == if names.len() == 0 {
            seq![0x2fu8]
        } else {
            names.last()
        },
        ({
            let image = draft(fs).unwrap().bytes;
            let held = r.2;
            let at = r.1.offset as int;
            let root = fs.root_inode.header;
            let children = place(tree_of(fs.nodes), names).unwrap().children;
            let listing = listing_record(runs(by_name(r.3)));
            &&& u16_at(held, at) == 1
            &&& (forall|i: int| 0 <= i < fs.nodes.len() ==> location((#[trigger] fs.nodes[i]).path()).len() > 0)
                ==> {
                &&& u16_at(held, at + 2) == root.permissions
                &&& u16_at(held, at + 4) == root.uid
                &&& u16_at(held, at + 6) == root.gid
                &&& u32_at(held, at + 8) == root.mtime
            }
            &&& forall|i: int|
                0 <= i < fs.nodes.len() && location((#[trigger] fs.nodes[i]).path()).len() == 0 && (forall|j: int|
                    i < j < fs.nodes.len() ==> location((#[trigger] fs.nodes[j]).path()).len() > 0)
                    ==> fs.nodes[i] is Path && {
                    let header = fs.nodes[i]->Path_0.header;
                    &&& u16_at(held, at + 2) == header.permissions
                    &&& u16_at(held, at + 4) == header.uid
                    &&& u16_at(held, at + 6) == header.gid
                    &&& u32_at(held, at + 8) == header.mtime
                }
            &&& u32_at(held, at + 12) == number_at(tree_of(fs.nodes), 1, names)
            &&& u32_at(held, at + 20) == 2
            &&& u32_at(held, at + 28) == if names.len() == 0 {
                0
            } else {
                number_at(tree_of(fs.nodes), 1, names.drop_last())
            }
            &&& stands_at(
                image,
                u64_at(image, 72) + u32_at(held, at + 16),
                metadata_blocks(fs.compressor, r.4),
            )
            &&& stands_at(r.4, u16_at(held, at + 26) as int, listing)
            &&& u16_at(held, at + 24) == listing_size(runs(by_name(r.3)))
            &&& r.3.len() == children.len()
            &&& forall|i: int|
                #![trigger children[i]]
                0 <= i < children.len() ==> exists|k: int|
                    {
                        &&& 0 <= k < r.3.len()
                        &&& entry_name(children[i]) == Some((#[trigger] r.3[k]).name)
                        &&& r.3[k].inode == child_number(
                            children,
                            number_at(tree_of(fs.nodes), 1, names),
                            i,
                        )
                    }
        }),
{
    let t = tree_of(fs.nodes);
    let u = place(t, names).unwrap();
    tree_holds_nodes(fs.nodes, names);
    found_is_at_place(t, names);
    if names.len() > 0 {
        seat_is_between(t.children, names[0]);
    }
    let root = image_shows_tree(fs);
    let header = directory_header(t, fs.root_inode).unwrap();
    let (e, parent) = lookup_leads(recorded(fs), root, t, header, 0, names);
    let (d, entries) = listing_of(recorded(fs), e, u, header, parent);
    root_is_referred_to(fs, root);
    directory_metadata_is_of_root(fs);
    let (held, listed) = directory_is_held(fs, e, header, d, entries);
    (root, e, held, entries, listed)
}

proof fn directory_is_held(
    fs: FilesystemView,
    e: EntryView,
    header: FilesystemHeader,
    d: BasicDirectory,
    entries: Seq<EntryView>,
) -> (r: (Seq<u8>, Seq<u8>))
    requires
        draft(fs) is Some,
        draft(fs).unwrap().bytes.len() <= u64::MAX,
        e.t == InodeId::BasicDirectory,
        has_inode(recorded(fs), e, header, InodeBody::Directory(d)),
        has_listing(recorded(fs), d, entries),
    ensures
        ({
            let image = draft(fs).unwrap().bytes;
            let held = r.0;
            let at = e.offset as int;
            &&& stands_at(image, u64_at(image, 64) + e.start, metadata_blocks(fs.compressor, held))
            &&& u16_at(held, at) == 1
            &&& u16_at(held, at + 2) == header.permissions
            &&& u16_at(held, at + 4) == header.uid
            &&& u16_at(held, at + 6) == header.gid
            &&& u32_at(held, at + 8) == header.mtime
            &&& u32_at(held, at + 12) == e.inode
            &&& u32_at(held, at + 20) == d.link_count
            &&& u32_at(held, at + 28) == d.parent_inode
            &&& stands_at(
                image,
                u64_at(image, 72) + u32_at(held, at + 16),
                metadata_blocks(fs.compressor, r.1),
            )
            &&& stands_at(r.1, u16_at(held, at + 26) as int, listing_record(runs(by_name(entries))))
            &&& u16_at(held, at + 24) == listing_size(runs(by_name(entries)))
        }),
{
    let image = draft(fs).unwrap().bytes;
    let held = inode_is_held(fs, e, header, InodeBody::Directory(d));
    directory_record_is_read(held, e.offset as int, e.inode, header, d);
    let listed = listing_is_held(fs, d, entries);
    (held, listed)
}

proof fn listing_is_held(fs: FilesystemView, d: BasicDirectory, entries: Seq<EntryView>) -> (listed: Seq<u8>)
    requires
        draft(fs) is Some,
        draft(fs).unwrap().bytes.len() <= u64::MAX,
        has_listing(recorded(fs), d, entries),
    ensures
        stands_at(
            draft(fs).unwrap().bytes,
            u64_at(draft(fs).unwrap().bytes, 72) + d.block_index,
            metadata_blocks(fs.compressor, listed),
        ),
        stands_at(listed, d.block_offset as int, listing_record(runs(by_name(entries)))),
        d.file_size == listing_size(runs(by_name(entries))),
{
    let image = draft(fs).unwrap().bytes;
    let from = draft(fs).unwrap().superblock.dir_table + d.block_index;
    let listing = listing_record(runs(by_name(entries)));
    image_reads_superblock(fs);
    listing_is_stored(fs, d, entries);
    assert(has_record(fs, from, d.block_offset, listing));
    assert(d.file_size == listing_size(runs(by_name(entries)))) by {
        reveal(has_listing);
    }
    choose|listed: Seq<u8>| #[trigger]
        stands_at(image, from, metadata_blocks(fs.compressor, listed)) && stands_at(
            listed,
            d.block_offset as int,
            listing,
        )
}

/// A child whose entry is one of `entries`, with the number that is due to it in the directory `parent`.
spec fn is_listed(entries: Seq<EntryView>, children: Seq<Tree>, parent: int, i: int) -> bool {
    exists|k: int|
        {
            &&& 0 <= k < entries.len()
            &&& entry_name(children[i]) == Some((#[trigger] entries[k]).name)
            &&& entries[k].inode == child_number(children, parent, i)
        }
}

proof fn listing_of(p: Progress, e: EntryView, t: Tree, header: FilesystemHeader, parent: u32) -> (r: (
    BasicDirectory,
    Seq<EntryView>,
))
    requires
        t.children.len() > 0,
        shows(p, e, t, header, parent),
    ensures
        e.t == InodeId::BasicDirectory,
        has_listing(p, r.0, r.1),
        has_inode(p, e, header, InodeBody::Directory(r.0)),
        r.0.link_count == 2,
        r.0.parent_inode == parent,
        r.1.len() == t.children.len(),
        forall|i: int|
            #![trigger t.children[i]]
            0 <= i < t.children.len() ==> is_listed(r.1, t.children, e.inode as int, i),
{
    reveal(shows);
    let (d, entries, seats) = choose|d: BasicDirectory, entries: Seq<EntryView>, seats: Seq<int>|
        {
            &&& #[trigger] has_listing(p, d, entries)
            &&& has_inode(p, e, header, InodeBody::Directory(d))
            &&& d.link_count == 2
            &&& d.parent_inode == parent
            &&& entries.len() == t.children.len()
            &&& #[trigger] is_seating(seats, entries.len())
            &&& forall|i: int|
                #![trigger t.children[i]]
                0 <= i < t.children.len() ==> shows(
                    p,
                    entries[seats[i]],
                    t.children[i],
                    header,
                    e.inode,
                ) && entries[seats[i]].inode == child_number(t.children, e.inode as int, i)
        };
    assert forall|i: int| #![trigger t.children[i]] 0 <= i < t.children.len() implies is_listed(
        entries,
        t.children,
        e.inode as int,
        i,
    ) by {
        let k = seats[i];
        shown_is_called(p, entries[k], t.children[i], header, e.inode);
        assert(entry_name(t.children[i]) == Some(entries[k].name));
    }
    (d, entries)
}

proof fn place_of_last(t: Tree, names: Seq<Seq<u8>>)
    requires
        names.len() > 0,
        place(t, names) is Some,
    ensures
        ({
            let last = names.last();
            &&& place(t, names.drop_last()) is Some
            &&& ({
                let above = place(t, names.drop_last()).unwrap().children;
                let k = seat_of(above, last);
                0 <= k < above.len() && place(t, names) == Some(above[k])
            })
        }),
    decreases names.len(),
{
    let front = names.drop_last();
    seat_is_between(t.children, names[0]);
    let child = t.children[seat_of(t.children, names[0])];
    if front.len() == 0 {
        assert(names.drop_first() =~= Seq::empty());
        assert(place(child, names.drop_first()) == Some(child));
        assert(front =~= Seq::empty());
        assert(names.last() == names[0]);
    } else {
        assert(front[0] == names[0]);
        assert(names.drop_first().last() == names.last());
        place_of_last(child, names.drop_first());
        assert(names.drop_first().drop_last() =~= front.drop_first());
    }
}

/// A place with nothing below it that has no name has no image: a file whose path ends in two dots, or a
/// symbolic link whose own name is empty.
pub proof fn nameless_place_has_no_image(fs: FilesystemView, names: Seq<Seq<u8>>)
    requires
        names.len() > 0,
        place(tree_of(fs.nodes), names) is Some,
        place(tree_of(fs.nodes), names).unwrap().children.len() == 0,
        match place(tree_of(fs.nodes), names).unwrap().node {
            Some(NodeView::File(file)) => location(file.path).len() == 0 || location(file.path).last()
                == seq![0x2eu8, 0x2eu8],
            Some(NodeView::Symlink(symlink)) => encode_utf8(symlink.original).len() == 0,
            _ => false,
        },
    ensures
        draft(fs) is None,
{
    if draft(fs) is Some {
        let t = tree_of(fs.nodes);
        let front = names.drop_last();
        place_of_last(t, names);
        if front.len() > 0 {
            seat_is_between(t.children, front[0]);
        }
        let above = place(t, front).unwrap();
        found_is_at_place(t, front);
        let root = image_shows_tree(fs);
        let header = directory_header(t, fs.root_inode).unwrap();
        let (e, parent) = lookup_leads(recorded(fs), root, t, header, 0, front);
        let k = seat_of(above.children, names.last());
        let next = child_entry(recorded(fs), e, above, header, parent, k);
        shown_is_called(recorded(fs), next, above.children[k], header, e.inode);
    }
}

} // verus!
