//! That what is recorded of a filesystem is in its image.

use vstd::prelude::*;
use crate::compressor::stored;
use crate::data::{block_size_field, file_blocks, AddedView};
use crate::entry::{by_name, runs, EntryView};
use crate::growth::{flushing_grows, fragment_begins, fragment_is, growing_keeps_parameters, node_grows,
    stands_at, stands_still};
use crate::image::{all_written, beginning, directory_header, draft, FilesystemView};
use crate::inode::{inode_record, BasicDirectory, InodeBody};
use crate::laws::{has_inode, has_listing, holds_contents, listing_record, refers};
use crate::layout::{image_has_sections, recorded};
use crate::metadata::{metadata_blocks, record_is_found, whole_len};
use crate::node::FilesystemHeader;
use crate::squashfs::SUPERBLOCK_SIZE;
use crate::tree::tree_of;

verus! {

/// Whether the image has metadata blocks from `at` on, and `record` stands at `offset` in what these hold.
pub open spec fn has_record(fs: FilesystemView, at: int, offset: u16, record: Seq<u8>) -> bool {
    exists|held: Seq<u8>| #[trigger]
        stands_at(draft(fs).unwrap().bytes, at, metadata_blocks(fs.compressor, held)) && stands_at(
            held,
            offset as int,
            record,
        )
}

/// Whether the image has the fragment `whole` where the fragment table says that the `i`th is.
pub open spec fn has_fragment(fs: FilesystemView, i: int, whole: Seq<u8>) -> bool {
    let table = recorded(fs).data.table;
    &&& 0 <= i < table.len()
    &&& table[i].size == block_size_field(fs.compressor, whole)
    &&& stands_at(draft(fs).unwrap().bytes, table[i].start as int, stored(fs.compressor, whole))
}

/// What is recorded was stored with the parameters of the filesystem.
pub proof fn recorded_has_parameters(fs: FilesystemView)
    requires
        draft(fs) is Some,
    ensures
        recorded(fs).data.compressor == fs.compressor,
        recorded(fs).data.block_size == fs.block_size,
        recorded(fs).data.data_start == SUPERBLOCK_SIZE,
{
    let t = tree_of(fs.nodes);
    let w = all_written(fs).unwrap();
    node_grows(beginning(fs), t, directory_header(t, fs.root_inode), 0);
    growing_keeps_parameters(beginning(fs).data, w.progress.data);
    flushing_grows(w.progress.data);
    growing_keeps_parameters(w.progress.data, recorded(fs).data);
}

/// A part of what stands somewhere stands there too.
proof fn part_stands(s: Seq<u8>, at: int, whole: Seq<u8>, from: int, part: Seq<u8>)
    requires
        stands_at(s, at, whole),
        stands_at(whole, from, part),
    ensures
        stands_at(s, at + from, part),
{
    assert forall|i: int| 0 <= i < part.len() implies s[at + from + i] == part[i] by {
        assert(s.subrange(at, at + whole.len())[from + i] == whole[from + i]);
        assert(whole.subrange(from, from + part.len())[i] == part[i]);
    }
    assert(s.subrange(at + from, at + from + part.len()) =~= part);
}

proof fn record_is_stored(
    fs: FilesystemView,
    table: Seq<u8>,
    begin: int,
    at: int,
    record: Seq<u8>,
    start: u32,
    offset: u16,
)
    requires
        draft(fs) is Some,
        stands_at(draft(fs).unwrap().bytes, begin, metadata_blocks(fs.compressor, table)),
        refers(recorded(fs), table, at, record, start, offset),
    ensures
        has_record(fs, begin + start, offset, record),
{
    recorded_has_parameters(fs);
    let image = draft(fs).unwrap().bytes;
    let before = table.take(at);
    let rest = table.skip(at);
    let blocks = metadata_blocks(fs.compressor, table);
    let from = whole_len(before);
    assert(before + rest =~= table);
    record_is_found(fs.compressor, before, rest);
    let held = table.skip(from);
    let tail = metadata_blocks(fs.compressor, held);
    assert(blocks.subrange(start as int, start + tail.len()) =~= tail);
    part_stands(image, begin, blocks, start as int, tail);
    assert(held.subrange(offset as int, offset + record.len()) =~= rest.take(record.len() as int)) by {
        assert(held.skip(offset as int) == rest);
    }
    assert(rest.take(record.len() as int) =~= record);
}

/// The inode that an entry refers to is in the image, in a block of the inode table.
pub proof fn inode_is_stored(fs: FilesystemView, e: EntryView, header: FilesystemHeader, body: InodeBody)
    requires
        draft(fs) is Some,
        draft(fs).unwrap().bytes.len() <= u64::MAX,
        has_inode(recorded(fs), e, header, body),
    ensures
        has_record(
            fs,
            draft(fs).unwrap().superblock.inode_table + e.start,
            e.offset,
            inode_record(e.t, header.spec_numbered(e.inode), body),
        ),
{
    reveal(has_inode);
    image_has_sections(fs);
    let r = recorded(fs);
    let record = inode_record(e.t, header.spec_numbered(e.inode), body);
    let at = choose|at: int| #[trigger] refers(r, r.inodes, at, record, e.start, e.offset);
    let begin = draft(fs).unwrap().superblock.inode_table as int;
    record_is_stored(fs, r.inodes, begin, at, record, e.start, e.offset);
}

/// The listing of a directory is in the image, in a block of the directory table.
pub proof fn listing_is_stored(fs: FilesystemView, d: BasicDirectory, entries: Seq<EntryView>)
    requires
        draft(fs) is Some,
        draft(fs).unwrap().bytes.len() <= u64::MAX,
        has_listing(recorded(fs), d, entries),
    ensures
        has_record(
            fs,
            draft(fs).unwrap().superblock.dir_table + d.block_index,
            d.block_offset,
            listing_record(runs(by_name(entries))),
        ),
{
    reveal(has_listing);
    image_has_sections(fs);
    let r = recorded(fs);
    let record = listing_record(runs(by_name(entries)));
    let at = choose|at: int| #[trigger] refers(r, r.dirs, at, record, d.block_index, d.block_offset);
    let begin = draft(fs).unwrap().superblock.dir_table as int;
    record_is_stored(fs, r.dirs, begin, at, record, d.block_index, d.block_offset);
}

/// The contents of a file are in the image where its inode says: in blocks of their own, or in a fragment.
pub proof fn contents_are_stored(fs: FilesystemView, added: AddedView, bytes: Seq<u8>)
    requires
        draft(fs) is Some,
        draft(fs).unwrap().bytes.len() <= u64::MAX,
        holds_contents(recorded(fs).data, added, bytes),
        added is Fragment ==> bytes.len() > 0,
    ensures
        match added {
            AddedView::Data { blocks_start, block_sizes } => stands_at(
                draft(fs).unwrap().bytes,
                blocks_start as int,
                file_blocks(fs.compressor, fs.block_size, bytes),
            ),
            AddedView::Fragment { frag_index, block_offset } => exists|whole: Seq<u8>| #[trigger]
                has_fragment(fs, frag_index as int, whole) && stands_at(whole, block_offset as int, bytes),
        },
{
    recorded_has_parameters(fs);
    image_has_sections(fs);
    let image = draft(fs).unwrap().bytes;
    let data = recorded(fs).data;
    match added {
        AddedView::Data { blocks_start, block_sizes } => {
            part_stands(
                image,
                SUPERBLOCK_SIZE as int,
                data.data,
                blocks_start - data.data_start,
                file_blocks(fs.compressor, fs.block_size, bytes),
            );
        },
        AddedView::Fragment { frag_index, block_offset } => {
            let i = frag_index as int;
            let f = choose|f: Seq<u8>| #[trigger]
                fragment_begins(data, i, f) && stands_at(f, block_offset as int, bytes);
            assert(i != data.table.len());
            let whole = choose|whole: Seq<u8>| #[trigger]
                fragment_is(data, i, whole) && f.is_prefix_of(whole);
            part_stands(
                image,
                SUPERBLOCK_SIZE as int,
                data.data,
                data.table[i].start - data.data_start,
                stored(fs.compressor, whole),
            );
            stands_still(f, whole, block_offset as int, bytes);
            assert(has_fragment(fs, i, whole));
        },
    }
}

} // verus!
