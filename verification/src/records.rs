//! That records are read back: each field stands where a reader of the format looks for it.

use vstd::prelude::*;
use crate::bytes::{le16, le32, le64, u16_at, u16_follows, u32_at, u32_follows, u64_at, u64_follows};
use crate::compressor::{is_compressed, stored, Compressor};
use crate::data::block_size_field;
use crate::entry::{by_name, entry_record, entry_records, is_run, joins, run_record, runs, runs_hold_entries,
    EntryView};
use crate::fragment::{fragment_records, Fragment};
use crate::growth::stands_at;
use crate::image::{draft, FilesystemView};
use crate::inode::{body_record, header_record, inode_record, le32_all, BasicDirectory, InodeBody,
    InodeHeader, InodeId};
use crate::laws::{has_inode, has_listing, listing_record};
use crate::layout::{has_table, image_has_sections, recorded};
use crate::metadata::{metadata_block, metadata_blocks, uncompressed_len};
use crate::node::FilesystemHeader;
use crate::squashfs::{id_records, Id};
use crate::storing::{has_record, inode_is_stored, listing_is_stored};

verus! {

/// Whether an inode of the kind `id` is read at `at`: its header, and then the fields of its kind.
#[verifier::opaque]
pub open spec fn reads_inode(s: Seq<u8>, at: int, id: InodeId, header: InodeHeader, body: InodeBody) -> bool {
    &&& u16_at(s, at) == id.spec_number()
    &&& u16_at(s, at + 2) == header.permissions
    &&& u16_at(s, at + 4) == header.uid
    &&& u16_at(s, at + 6) == header.gid
    &&& u32_at(s, at + 8) == header.mtime
    &&& u32_at(s, at + 12) == header.inode_number
    &&& match body {
        InodeBody::Directory(d) => {
            &&& u32_at(s, at + 16) == d.block_index
            &&& u32_at(s, at + 20) == d.link_count
            &&& u16_at(s, at + 24) == d.file_size
            &&& u16_at(s, at + 26) == d.block_offset
            &&& u32_at(s, at + 28) == d.parent_inode
        },
        InodeBody::File { blocks_start, frag_index, block_offset, file_size, block_sizes } => {
            &&& u32_at(s, at + 16) == blocks_start
            &&& u32_at(s, at + 20) == frag_index
            &&& u32_at(s, at + 24) == block_offset
            &&& u32_at(s, at + 28) == file_size
            &&& forall|i: int|
                0 <= i < block_sizes.len() ==> u32_at(s, at + 32 + 4 * i) == #[trigger] block_sizes[i]
        },
        InodeBody::Symlink { link_count, target_size, target_path } => {
            &&& u32_at(s, at + 16) == link_count
            &&& u32_at(s, at + 20) == target_size
            &&& stands_at(s, at + 24, target_path)
        },
    }
}

/// The number that is read of an inode: `distance`, taken as a signed number, counts from `first`.
pub open spec fn number_from(first: u32, distance: u16) -> int {
    if distance < 0x8000 {
        first + distance
    } else {
        first + distance - 0x1_0000
    }
}

/// Whether the entry `e` is read at `at`, under a header with the number `first`.
#[verifier::opaque]
pub open spec fn reads_entry(s: Seq<u8>, at: int, first: u32, e: EntryView) -> bool {
    &&& u16_at(s, at) == e.offset
    &&& number_from(first, u16_at(s, at + 2)) == e.inode
    &&& u16_at(s, at + 4) == e.t.spec_number()
    &&& u16_at(s, at + 6) == e.name_size
    &&& stands_at(s, at + 8, e.name)
}

/// How many bytes several entries take: eight for each, and its name.
pub open spec fn entries_len(entries: Seq<EntryView>) -> nat
    decreases entries.len(),
{
    if entries.len() == 0 {
        0
    } else {
        entries_len(entries.drop_last()) + 8 + entries.last().name.len()
    }
}

/// Whether a header and the entries under it are read at `at`: the number of entries less one, the start of
/// the block with the inodes, the number that the others count from, and then the entries one behind the
/// other.
#[verifier::opaque]
pub open spec fn reads_run(s: Seq<u8>, at: int, run: Seq<EntryView>) -> bool {
    &&& u32_at(s, at) == run.len() - 1
    &&& u32_at(s, at + 4) == run[0].start
    &&& u32_at(s, at + 8) == run[0].inode
    &&& forall|i: int|
        0 <= i < run.len() ==> run[0].start == run[i].start && reads_entry(
            s,
            at + 12 + entries_len(run.take(i)),
            run[0].inode,
            #[trigger] run[i],
        )
}

/// How many bytes several headers take with the entries under them: twelve for each, and the entries.
pub open spec fn runs_len(listing: Seq<Seq<EntryView>>) -> nat
    decreases listing.len(),
{
    if listing.len() == 0 {
        0
    } else {
        runs_len(listing.drop_last()) + 12 + entries_len(listing.last())
    }
}

/// Whether the fragment `f` is read at `at`.
pub open spec fn reads_fragment(s: Seq<u8>, at: int, f: Fragment) -> bool {
    &&& u64_at(s, at) == f.start
    &&& u32_at(s, at + 8) == f.size
    &&& u32_at(s, at + 12) == f.unused
}

/// Of what stands somewhere, the front stands there and the rest behind it.
proof fn stands_apart(s: Seq<u8>, at: int, front: Seq<u8>, rest: Seq<u8>)
    requires
        stands_at(s, at, front + rest),
    ensures
        stands_at(s, at, front),
        stands_at(s, at + front.len(), rest),
{
    let all = s.subrange(at, at + (front + rest).len());
    assert(s.subrange(at, at + front.len()) =~= all.take(front.len() as int));
    assert((front + rest).take(front.len() as int) =~= front);
    assert(s.subrange(at + front.len(), at + front.len() + rest.len()) =~= all.skip(front.len() as int));
    assert((front + rest).skip(front.len() as int) =~= rest);
}

proof fn u16_stands(s: Seq<u8>, at: int, x: u16)
    requires
        stands_at(s, at, le16(x)),
    ensures
        u16_at(s, at) == x,
{
    assert(s.take(at + 2) =~= s.take(at) + s.subrange(at, at + 2));
    u16_follows(s, s.take(at), x);
}

proof fn u32_stands(s: Seq<u8>, at: int, x: u32)
    requires
        stands_at(s, at, le32(x)),
    ensures
        u32_at(s, at) == x,
{
    assert(s.take(at + 4) =~= s.take(at) + s.subrange(at, at + 4));
    u32_follows(s, s.take(at), x);
}

proof fn u64_stands(s: Seq<u8>, at: int, x: u64)
    requires
        stands_at(s, at, le64(x)),
    ensures
        u64_at(s, at) == x,
{
    assert(s.take(at + 8) =~= s.take(at) + s.subrange(at, at + 8));
    u64_follows(s, s.take(at), x);
}

/// Each of several 32-bit numbers is read at its place.
pub proof fn numbers_are_read(s: Seq<u8>, at: int, numbers: Seq<u32>)
    requires
        stands_at(s, at, le32_all(numbers)),
    ensures
        le32_all(numbers).len() == 4 * numbers.len(),
        forall|i: int| 0 <= i < numbers.len() ==> u32_at(s, at + 4 * i) == #[trigger] numbers[i],
    decreases numbers.len(),
{
    if numbers.len() > 0 {
        let front = numbers.drop_last();
        stands_apart(s, at, le32_all(front), le32(numbers.last()));
        numbers_are_read(s, at, front);
        u32_stands(s, at + 4 * front.len(), numbers.last());
        assert forall|i: int| 0 <= i < numbers.len() implies u32_at(s, at + 4 * i) == #[trigger] numbers[i] by {
            if i < front.len() {
                assert(front[i] == numbers[i]);
            }
        }
    }
}

proof fn header_is_read(s: Seq<u8>, at: int, id: InodeId, header: InodeHeader)
    requires
        stands_at(s, at, header_record(id, header)),
    ensures
        header_record(id, header).len() == 16,
        u16_at(s, at) == id.spec_number(),
        u16_at(s, at + 2) == header.permissions,
        u16_at(s, at + 4) == header.uid,
        u16_at(s, at + 6) == header.gid,
        u32_at(s, at + 8) == header.mtime,
        u32_at(s, at + 12) == header.inode_number,
{
    let kind = le16(id.spec_number());
    let permissions = kind + le16(header.permissions);
    let uid = permissions + le16(header.uid);
    let gid = uid + le16(header.gid);
    let mtime = gid + le32(header.mtime);
    stands_apart(s, at, mtime, le32(header.inode_number));
    u32_stands(s, at + 12, header.inode_number);
    stands_apart(s, at, gid, le32(header.mtime));
    u32_stands(s, at + 8, header.mtime);
    stands_apart(s, at, uid, le16(header.gid));
    u16_stands(s, at + 6, header.gid);
    stands_apart(s, at, permissions, le16(header.uid));
    u16_stands(s, at + 4, header.uid);
    stands_apart(s, at, kind, le16(header.permissions));
    u16_stands(s, at + 2, header.permissions);
    u16_stands(s, at, id.spec_number());
}

proof fn directory_is_read(s: Seq<u8>, at: int, d: BasicDirectory)
    requires
        stands_at(s, at, body_record(InodeBody::Directory(d))),
    ensures
        u32_at(s, at) == d.block_index,
        u32_at(s, at + 4) == d.link_count,
        u16_at(s, at + 8) == d.file_size,
        u16_at(s, at + 10) == d.block_offset,
        u32_at(s, at + 12) == d.parent_inode,
{
    let index = le32(d.block_index);
    let links = index + le32(d.link_count);
    let size = links + le16(d.file_size);
    let offset = size + le16(d.block_offset);
    stands_apart(s, at, offset, le32(d.parent_inode));
    u32_stands(s, at + 12, d.parent_inode);
    stands_apart(s, at, size, le16(d.block_offset));
    u16_stands(s, at + 10, d.block_offset);
    stands_apart(s, at, links, le16(d.file_size));
    u16_stands(s, at + 8, d.file_size);
    stands_apart(s, at, index, le32(d.link_count));
    u32_stands(s, at + 4, d.link_count);
    u32_stands(s, at, d.block_index);
}

proof fn file_is_read(
    s: Seq<u8>,
    at: int,
    blocks_start: u32,
    frag_index: u32,
    block_offset: u32,
    file_size: u32,
    block_sizes: Seq<u32>,
)
    requires
        stands_at(
            s,
            at,
            le32(blocks_start) + le32(frag_index) + le32(block_offset) + le32(file_size) + le32_all(block_sizes),
        ),
    ensures
        u32_at(s, at) == blocks_start,
        u32_at(s, at + 4) == frag_index,
        u32_at(s, at + 8) == block_offset,
        u32_at(s, at + 12) == file_size,
        forall|i: int|
            0 <= i < block_sizes.len() ==> u32_at(s, at + 16 + 4 * i) == #[trigger] block_sizes[i],
{
    let start = le32(blocks_start);
    let fragment = start + le32(frag_index);
    let offset = fragment + le32(block_offset);
    let size = offset + le32(file_size);
    stands_apart(s, at, size, le32_all(block_sizes));
    numbers_are_read(s, at + 16, block_sizes);
    stands_apart(s, at, offset, le32(file_size));
    u32_stands(s, at + 12, file_size);
    stands_apart(s, at, fragment, le32(block_offset));
    u32_stands(s, at + 8, block_offset);
    stands_apart(s, at, start, le32(frag_index));
    u32_stands(s, at + 4, frag_index);
    u32_stands(s, at, blocks_start);
}

/// An inode is read where its record stands, whatever follows it.
pub proof fn inode_is_read(s: Seq<u8>, at: int, id: InodeId, header: InodeHeader, body: InodeBody)
    requires
        stands_at(s, at, inode_record(id, header, body)),
    ensures
        reads_inode(s, at, id, header, body),
{
    reveal(reads_inode);
    reveal(inode_record);
    stands_apart(s, at, header_record(id, header), body_record(body));
    header_is_read(s, at, id, header);
    match body {
        InodeBody::Directory(d) => directory_is_read(s, at + 16, d),
        InodeBody::File { blocks_start, frag_index, block_offset, file_size, block_sizes } => {
            file_is_read(s, at + 16, blocks_start, frag_index, block_offset, file_size, block_sizes);
        },
        InodeBody::Symlink { link_count, target_size, target_path } => {
            let links = le32(link_count);
            stands_apart(s, at + 16, links + le32(target_size), target_path);
            stands_apart(s, at + 16, links, le32(target_size));
            u32_stands(s, at + 20, target_size);
            u32_stands(s, at + 16, link_count);
        },
    }
}

/// An entry is read where its record stands, if it can stand under the header.
pub proof fn entry_is_read(s: Seq<u8>, at: int, first: EntryView, e: EntryView)
    requires
        joins(first, e),
        stands_at(s, at, entry_record(first.inode, e)),
    ensures
        entry_record(first.inode, e).len() == 8 + e.name.len(),
        reads_entry(s, at, first.inode, e),
{
    reveal(reads_entry);
    let distance = ((e.inode - first.inode) % 0x1_0000) as u16;
    let offset = le16(e.offset);
    let number = offset + le16(distance);
    let kind = number + le16(e.t.spec_number());
    let size = kind + le16(e.name_size);
    stands_apart(s, at, size, e.name);
    stands_apart(s, at, kind, le16(e.name_size));
    u16_stands(s, at + 6, e.name_size);
    stands_apart(s, at, number, le16(e.t.spec_number()));
    u16_stands(s, at + 4, e.t.spec_number());
    stands_apart(s, at, offset, le16(distance));
    u16_stands(s, at + 2, distance);
    u16_stands(s, at, e.offset);
}

proof fn entries_are_read(s: Seq<u8>, at: int, first: EntryView, entries: Seq<EntryView>)
    requires
        forall|i: int| 0 <= i < entries.len() ==> joins(first, #[trigger] entries[i]),
        stands_at(s, at, entry_records(first.inode, entries)),
    ensures
        entry_records(first.inode, entries).len() == entries_len(entries),
        forall|i: int|
            0 <= i < entries.len() ==> reads_entry(
                s,
                at + entries_len(entries.take(i)),
                first.inode,
                #[trigger] entries[i],
            ),
    decreases entries.len(),
{
    if entries.len() > 0 {
        let front = entries.drop_last();
        let n = front.len() as int;
        stands_apart(s, at, entry_records(first.inode, front), entry_record(first.inode, entries.last()));
        assert forall|i: int| 0 <= i < front.len() implies joins(first, #[trigger] front[i]) by {
            assert(front[i] == entries[i]);
        }
        entries_are_read(s, at, first, front);
        assert(joins(first, entries[n]));
        entry_is_read(s, at + entries_len(front), first, entries.last());
        assert forall|i: int| 0 <= i < entries.len() implies reads_entry(
            s,
            at + entries_len(entries.take(i)),
            first.inode,
            #[trigger] entries[i],
        ) by {
            if i < n {
                assert(front[i] == entries[i]);
                assert(front.take(i) =~= entries.take(i));
            } else {
                assert(entries.take(i) =~= front);
            }
        }
    }
}

/// A header and the entries under it are read where their record stands, whatever follows it.
pub proof fn run_is_read(s: Seq<u8>, at: int, run: Seq<EntryView>)
    requires
        is_run(run),
        stands_at(s, at, run_record(run)),
    ensures
        run_record(run).len() == 12 + entries_len(run),
        reads_run(s, at, run),
{
    reveal(reads_run);
    let count = le32((run.len() - 1) as u32);
    let start = count + le32(run[0].start);
    let number = start + le32(run[0].inode);
    stands_apart(s, at, number, entry_records(run[0].inode, run));
    entries_are_read(s, at + 12, run[0], run);
    stands_apart(s, at, start, le32(run[0].inode));
    u32_stands(s, at + 8, run[0].inode);
    stands_apart(s, at, count, le32(run[0].start));
    u32_stands(s, at + 4, run[0].start);
    u32_stands(s, at, (run.len() - 1) as u32);
}

/// The headers of a listing and the entries under them are read one behind the other where the listing
/// stands.
pub proof fn listing_is_read(s: Seq<u8>, at: int, listing: Seq<Seq<EntryView>>)
    requires
        forall|i: int| 0 <= i < listing.len() ==> is_run(#[trigger] listing[i]),
        stands_at(s, at, listing_record(listing)),
    ensures
        listing_record(listing).len() == runs_len(listing),
        forall|i: int|
            0 <= i < listing.len() ==> reads_run(s, at + runs_len(listing.take(i)), #[trigger] listing[i]),
    decreases listing.len(),
{
    if listing.len() > 0 {
        let front = listing.drop_last();
        let n = front.len() as int;
        stands_apart(s, at, listing_record(front), run_record(listing.last()));
        assert forall|i: int| 0 <= i < front.len() implies is_run(#[trigger] front[i]) by {
            assert(front[i] == listing[i]);
        }
        listing_is_read(s, at, front);
        assert(is_run(listing[n]));
        run_is_read(s, at + runs_len(front), listing.last());
        assert forall|i: int| 0 <= i < listing.len() implies reads_run(
            s,
            at + runs_len(listing.take(i)),
            #[trigger] listing[i],
        ) by {
            if i < n {
                assert(front[i] == listing[i]);
                assert(front.take(i) =~= listing.take(i));
            } else {
                assert(listing.take(i) =~= front);
            }
        }
    }
}

/// Each fragment is read at its place in the fragment table.
pub proof fn fragments_are_read(s: Seq<u8>, at: int, table: Seq<Fragment>)
    requires
        stands_at(s, at, fragment_records(table)),
    ensures
        fragment_records(table).len() == 16 * table.len(),
        forall|i: int| 0 <= i < table.len() ==> reads_fragment(s, at + 16 * i, #[trigger] table[i]),
    decreases table.len(),
{
    if table.len() > 0 {
        let front = table.drop_last();
        let f = table.last();
        let here = at + 16 * front.len();
        stands_apart(s, at, fragment_records(front), f.record());
        fragments_are_read(s, at, front);
        stands_apart(s, here, le64(f.start) + le32(f.size), le32(f.unused));
        u32_stands(s, here + 12, f.unused);
        stands_apart(s, here, le64(f.start), le32(f.size));
        u32_stands(s, here + 8, f.size);
        u64_stands(s, here, f.start);
        assert forall|i: int| 0 <= i < table.len() implies reads_fragment(s, at + 16 * i, #[trigger] table[i]) by {
            if i < front.len() {
                assert(front[i] == table[i]);
            }
        }
    }
}

/// Each id is read at its place in the id table.
pub proof fn ids_are_read(s: Seq<u8>, at: int, ids: Seq<Id>)
    requires
        stands_at(s, at, id_records(ids)),
    ensures
        id_records(ids).len() == 4 * ids.len(),
        forall|i: int| 0 <= i < ids.len() ==> u32_at(s, at + 4 * i) == (#[trigger] ids[i]).num,
    decreases ids.len(),
{
    if ids.len() > 0 {
        let front = ids.drop_last();
        stands_apart(s, at, id_records(front), le32(ids.last().num));
        ids_are_read(s, at, front);
        u32_stands(s, at + 4 * front.len(), ids.last().num);
        assert forall|i: int| 0 <= i < ids.len() implies u32_at(s, at + 4 * i) == (#[trigger] ids[i]).num by {
            if i < front.len() {
                assert(front[i] == ids[i]);
            }
        }
    }
}

/// The header of an inode is read where its record stands, field by field.
pub proof fn inode_header_is_read(s: Seq<u8>, at: int, id: InodeId, header: InodeHeader, body: InodeBody)
    requires
        stands_at(s, at, inode_record(id, header, body)),
    ensures
        id == InodeId::BasicDirectory <==> u16_at(s, at) == 1,
        id == InodeId::BasicFile <==> u16_at(s, at) == 2,
        id == InodeId::BasicSymlink <==> u16_at(s, at) == 3,
        u16_at(s, at + 2) == header.permissions,
        u16_at(s, at + 4) == header.uid,
        u16_at(s, at + 6) == header.gid,
        u32_at(s, at + 8) == header.mtime,
        u32_at(s, at + 12) == header.inode_number,
{
    inode_is_read(s, at, id, header, body);
    reveal(reads_inode);
}

/// What follows the header of an inode of a directory is read field by field.
pub proof fn directory_fields_are_read(s: Seq<u8>, at: int, id: InodeId, header: InodeHeader, d: BasicDirectory)
    requires
        stands_at(s, at, inode_record(id, header, InodeBody::Directory(d))),
    ensures
        u32_at(s, at + 16) == d.block_index,
        u32_at(s, at + 20) == d.link_count,
        u16_at(s, at + 24) == d.file_size,
        u16_at(s, at + 26) == d.block_offset,
        u32_at(s, at + 28) == d.parent_inode,
{
    inode_is_read(s, at, id, header, InodeBody::Directory(d));
    reveal(reads_inode);
}

/// What follows the header of an inode of a file is read field by field.
pub proof fn file_fields_are_read(
    s: Seq<u8>,
    at: int,
    id: InodeId,
    header: InodeHeader,
    blocks_start: u32,
    frag_index: u32,
    block_offset: u32,
    file_size: u32,
    block_sizes: Seq<u32>,
)
    requires
        stands_at(
            s,
            at,
            inode_record(
                id,
                header,
                InodeBody::File { blocks_start, frag_index, block_offset, file_size, block_sizes },
            ),
        ),
    ensures
        u32_at(s, at + 16) == blocks_start,
        u32_at(s, at + 20) == frag_index,
        u32_at(s, at + 24) == block_offset,
        u32_at(s, at + 28) == file_size,
        forall|i: int|
            0 <= i < block_sizes.len() ==> u32_at(s, at + 32 + 4 * i) == #[trigger] block_sizes[i],
{
    let body = InodeBody::File { blocks_start, frag_index, block_offset, file_size, block_sizes };
    reveal(inode_record);
    stands_apart(s, at, header_record(id, header), body_record(body));
    header_is_read(s, at, id, header);
    file_is_read(s, at + 16, blocks_start, frag_index, block_offset, file_size, block_sizes);
    assert forall|i: int| 0 <= i < block_sizes.len() implies u32_at(s, at + 32 + 4 * i)
        == #[trigger] block_sizes[i] by {
        assert(u32_at(s, at + 16 + 16 + 4 * i) == block_sizes[i]);
    }
}

/// What follows the header of an inode of a symbolic link is read field by field.
pub proof fn symlink_fields_are_read(
    s: Seq<u8>,
    at: int,
    id: InodeId,
    header: InodeHeader,
    link_count: u32,
    target_size: u32,
    target_path: Seq<u8>,
)
    requires
        stands_at(
            s,
            at,
            inode_record(id, header, InodeBody::Symlink { link_count, target_size, target_path }),
        ),
    ensures
        u32_at(s, at + 16) == link_count,
        u32_at(s, at + 20) == target_size,
        at + 24 + target_path.len() <= s.len(),
        s.subrange(at + 24, at + 24 + target_path.len()) == target_path,
{
    inode_is_read(s, at, id, header, InodeBody::Symlink { link_count, target_size, target_path });
    reveal(reads_inode);
}

/// The entries under one header are read one behind the other, field by field.
pub proof fn run_fields_are_read(s: Seq<u8>, at: int, run: Seq<EntryView>, i: int)
    requires
        is_run(run),
        stands_at(s, at, run_record(run)),
        0 <= i < run.len(),
    ensures
        u32_at(s, at) + 1 == run.len(),
        u32_at(s, at + 4) == run[i].start,
        ({
            let here = at + 12 + entries_len(run.take(i));
            let distance = u16_at(s, here + 2);
            &&& u16_at(s, here) == run[i].offset
            &&& u32_at(s, at + 8) + distance - (if distance < 0x8000 {
                0int
            } else {
                0x1_0000
            }) == run[i].inode
            &&& run[i].t == InodeId::BasicDirectory <==> u16_at(s, here + 4) == 1
            &&& run[i].t == InodeId::BasicFile <==> u16_at(s, here + 4) == 2
            &&& run[i].t == InodeId::BasicSymlink <==> u16_at(s, here + 4) == 3
            &&& u16_at(s, here + 6) == run[i].name_size
            &&& here + 8 + run[i].name.len() <= s.len()
            &&& s.subrange(here + 8, here + 8 + run[i].name.len()) == run[i].name
        }),
        entries_len(run.take(0)) == 0,
        entries_len(run.take(i + 1)) == entries_len(run.take(i)) + 8 + run[i].name.len(),
        run_record(run).len() == 12 + entries_len(run),
{
    run_is_read(s, at, run);
    reveal(reads_run);
    reveal(reads_entry);
    assert(run[0].start == run[i].start);
    assert(run.take(i + 1).drop_last() =~= run.take(i));
    assert(run.take(i + 1).last() == run[i]);
}

/// Each fragment is read at its place in the fragment table, field by field.
pub proof fn fragment_fields_are_read(s: Seq<u8>, at: int, table: Seq<Fragment>, i: int)
    requires
        stands_at(s, at, fragment_records(table)),
        0 <= i < table.len(),
    ensures
        u64_at(s, at + 16 * i) == table[i].start,
        u32_at(s, at + 16 * i + 8) == table[i].size,
        u32_at(s, at + 16 * i + 12) == table[i].unused,
        fragment_records(table).len() == 16 * table.len(),
{
    fragments_are_read(s, at, table);
    assert(reads_fragment(s, at + 16 * i, table[i]));
}

/// A metadata block is read where it stands: the low bits of the number in front say how many bytes are stored
/// behind it, and the highest bit that they are not compressed.
pub proof fn metadata_block_is_read(s: Seq<u8>, at: int, compressor: Compressor, bytes: Seq<u8>)
    requires
        bytes.len() <= 0x2000,
        stands_at(s, at, metadata_block(compressor, bytes)),
    ensures
        u16_at(s, at) % 0x8000 == stored(compressor, bytes).len(),
        u16_at(s, at) >= 0x8000 <==> !is_compressed(compressor, bytes),
        stands_at(s, at + 2, stored(compressor, bytes)),
{
    let len = stored(compressor, bytes).len() as u16;
    let field = if is_compressed(compressor, bytes) {
        len
    } else {
        uncompressed_len(len)
    };
    assert(len | 0x8000 == len + 0x8000) by (bit_vector)
        requires
            len < 0x8000u16,
    ;
    stands_apart(s, at, le16(field), stored(compressor, bytes));
    u16_stands(s, at, field);
}

/// The size that is recorded of a data block says in its low bits how many bytes are stored, and with the bit
/// above these that they are not compressed. This holds of blocks below 16 MiB.
pub proof fn block_size_is_read(compressor: Compressor, bytes: Seq<u8>)
    requires
        bytes.len() < 0x100_0000,
    ensures
        block_size_field(compressor, bytes) % 0x100_0000 == stored(compressor, bytes).len(),
        block_size_field(compressor, bytes) >= 0x100_0000 <==> !is_compressed(compressor, bytes),
        block_size_field(compressor, bytes) < 0x200_0000,
{
    let len = stored(compressor, bytes).len() as u32;
    assert(len | 0x100_0000 == len + 0x100_0000) by (bit_vector)
        requires
            len < 0x100_0000u32,
    ;
}

/// The inode that an entry refers to is read in the image of a filesystem: in what the metadata blocks hold
/// from the start on that the entry gives, at the offset that it gives.
pub proof fn image_reads_inode(
    fs: FilesystemView,
    e: EntryView,
    header: FilesystemHeader,
    body: InodeBody,
) -> (held: Seq<u8>)
    requires
        draft(fs) is Some,
        draft(fs).unwrap().bytes.len() <= u64::MAX,
        has_inode(recorded(fs), e, header, body),
    ensures
        stands_at(
            draft(fs).unwrap().bytes,
            draft(fs).unwrap().superblock.inode_table + e.start,
            metadata_blocks(fs.compressor, held),
        ),
        reads_inode(held, e.offset as int, e.t, header.spec_numbered(e.inode), body),
{
    let at = draft(fs).unwrap().superblock.inode_table + e.start;
    let record = inode_record(e.t, header.spec_numbered(e.inode), body);
    inode_is_stored(fs, e, header, body);
    assert(has_record(fs, at, e.offset, record));
    let held = choose|held: Seq<u8>| #[trigger]
        stands_at(draft(fs).unwrap().bytes, at, metadata_blocks(fs.compressor, held)) && stands_at(
            held,
            e.offset as int,
            record,
        );
    inode_is_read(held, e.offset as int, e.t, header.spec_numbered(e.inode), body);
    held
}

/// The listing of a directory is read in the image of a filesystem: in what the metadata blocks hold from the
/// block on that the directory gives, at the offset that it gives.
pub proof fn image_reads_listing(fs: FilesystemView, d: BasicDirectory, entries: Seq<EntryView>) -> (held: Seq<u8>)
    requires
        draft(fs) is Some,
        draft(fs).unwrap().bytes.len() <= u64::MAX,
        has_listing(recorded(fs), d, entries),
    ensures
        stands_at(
            draft(fs).unwrap().bytes,
            draft(fs).unwrap().superblock.dir_table + d.block_index,
            metadata_blocks(fs.compressor, held),
        ),
        ({
            let listing = runs(by_name(entries));
            forall|i: int|
                0 <= i < listing.len() ==> reads_run(
                    held,
                    d.block_offset + runs_len(listing.take(i)),
                    #[trigger] listing[i],
                )
        }),
{
    let at = draft(fs).unwrap().superblock.dir_table + d.block_index;
    let listing = runs(by_name(entries));
    listing_is_stored(fs, d, entries);
    assert(has_record(fs, at, d.block_offset, listing_record(listing)));
    let held = choose|held: Seq<u8>| #[trigger]
        stands_at(draft(fs).unwrap().bytes, at, metadata_blocks(fs.compressor, held)) && stands_at(
            held,
            d.block_offset as int,
            listing_record(listing),
        );
    runs_hold_entries(by_name(entries));
    listing_is_read(held, d.block_offset as int, listing);
    held
}

/// The fragments and the ids are read in the image of a filesystem, in the tables that the superblock leads
/// to.
pub proof fn image_reads_tables(fs: FilesystemView)
    requires
        draft(fs) is Some,
        draft(fs).unwrap().bytes.len() <= u64::MAX,
    ensures
        ({
            let image = draft(fs).unwrap().bytes;
            let superblock = draft(fs).unwrap().superblock;
            let table = recorded(fs).data.table;
            &&& forall|i: int|
                0 <= i < table.len() ==> reads_fragment(
                    image,
                    u64_at(image, superblock.frag_table as int) + 2 + 16 * i,
                    #[trigger] table[i],
                )
            &&& fs.id_table matches Some(ids) ==> forall|i: int|
                0 <= i < ids.len() ==> u32_at(
                    image,
                    u64_at(image, superblock.id_table as int) + 2 + 4 * i,
                ) == (#[trigger] ids[i]).num
        }),
{
    let image = draft(fs).unwrap().bytes;
    let superblock = draft(fs).unwrap().superblock;
    let table = recorded(fs).data.table;
    image_has_sections(fs);
    assert(has_table(image, superblock.frag_table as int, fragment_records(table)));
    fragments_are_read(image, u64_at(image, superblock.frag_table as int) + 2, table);
    if let Some(ids) = fs.id_table {
        ids_are_read(image, u64_at(image, superblock.id_table as int) + 2, ids);
    }
}

} // verus!
