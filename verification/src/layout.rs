//! Where the parts of an image are.

use vstd::prelude::*;
use crate::bytes::{le16, le64, read_le16, read_le64, u16_at, u32_at, u64_at};
use crate::fragment::{fragment_records, Fragment};
use crate::growth::stands_at;
use crate::image::{all_written, can_pad, draft, finished, image, main_sections, padding, table_section,
    with_fragments, with_ids, zeros, Draft, FilesystemView, Progress};
use crate::metadata::{metadata_blocks, uncompressed_len};
use crate::squashfs::{id_records, Id, SuperBlock, SUPERBLOCK_SIZE};

verus! {

/// All that is recorded of a filesystem.
pub open spec fn recorded(fs: FilesystemView) -> Progress {
    let p = all_written(fs).unwrap().progress;
    Progress { data: p.data.flushed().unwrap(), ..p }
}

/// Whether the image has a table of `records` that is found by the number at `at`: it says where the block
/// with the records begins, which is not compressed and has its length in front.
pub open spec fn has_table(image: Seq<u8>, at: int, records: Seq<u8>) -> bool {
    let start = u64_at(image, at) as int;
    &&& 0 <= at <= image.len() - 8
    &&& start + 2 <= image.len()
    &&& u16_at(image, start) == uncompressed_len((records.len() % 0x1_0000) as u16)
    &&& stands_at(image, start + 2, records)
}

/// What is put between two byte strings stands behind the first.
proof fn stands_between(a: Seq<u8>, b: Seq<u8>, c: Seq<u8>)
    ensures
        stands_at(a + b + c, a.len() as int, b),
{
    assert((a + b + c).subrange(a.len() as int, (a.len() + b.len()) as int) =~= b);
}

proof fn stands_past_superblock(body: Seq<u8>, image: Seq<u8>, at: int, bytes: Seq<u8>)
    requires
        body.len() <= image.len(),
        forall|i: int| SUPERBLOCK_SIZE <= i < body.len() ==> #[trigger] image[i] == body[i],
        SUPERBLOCK_SIZE <= at,
        stands_at(body, at, bytes),
    ensures
        stands_at(image, at, bytes),
{
    assert(image.subrange(at, at + bytes.len()) =~= body.subrange(at, at + bytes.len()));
}

proof fn table_stands(before: Seq<u8>, records: Seq<u8>, after: Seq<u8>, image: Seq<u8>)
    requires
        SUPERBLOCK_SIZE <= before.len() <= u64::MAX,
        ({
            let body = before + table_section(records, before.len()) + after;
            &&& body.len() <= image.len()
            &&& forall|i: int| SUPERBLOCK_SIZE <= i < body.len() ==> #[trigger] image[i] == body[i]
        }),
    ensures
        has_table(image, (before.len() + 2 + records.len()) as int, records),
{
    let len = uncompressed_len((records.len() % 0x1_0000) as u16);
    let start = before.len() as int;
    let at = start + 2 + records.len();
    let body = before + table_section(records, before.len()) + after;
    read_le16(before, len, records + le64(start as u64) + after);
    assert(body =~= before + le16(len) + (records + le64(start as u64) + after));
    assert(u16_at(image, start) == len);
    read_le64(before + le16(len) + records, start as u64, after);
    assert(body =~= (before + le16(len) + records) + le64(start as u64) + after);
    assert(forall|i: int| at <= i < at + 8 ==> #[trigger] image[i] == body[i]);
    assert(u64_at(image, at) == u64_at(body, at));
    stands_between(before + le16(len), records, le64(start as u64) + after);
    assert(body =~= (before + le16(len)) + records + (le64(start as u64) + after));
    stands_past_superblock(body, image, start + 2, records);
}

proof fn sections_stand(
    front: Seq<u8>,
    data: Seq<u8>,
    inodes: Seq<u8>,
    dirs: Seq<u8>,
    rest: Seq<u8>,
    image: Seq<u8>,
)
    requires
        front.len() == SUPERBLOCK_SIZE,
        ({
            let body = front + data + inodes + dirs + rest;
            &&& body.len() <= image.len()
            &&& forall|i: int| SUPERBLOCK_SIZE <= i < body.len() ==> #[trigger] image[i] == body[i]
        }),
    ensures
        stands_at(image, front.len() as int, data),
        stands_at(image, (front.len() + data.len()) as int, inodes),
        stands_at(image, (front.len() + data.len() + inodes.len()) as int, dirs),
{
    let body = front + data + inodes + dirs + rest;
    stands_between(front, data, inodes + dirs + rest);
    assert(body =~= front + data + (inodes + dirs + rest));
    stands_past_superblock(body, image, front.len() as int, data);
    stands_between(front + data, inodes, dirs + rest);
    assert(body =~= front + data + inodes + (dirs + rest));
    stands_past_superblock(body, image, (front.len() + data.len()) as int, inodes);
    stands_between(front + data + inodes, dirs, rest);
    stands_past_superblock(body, image, (front.len() + data.len() + inodes.len()) as int, dirs);
}

/// What is finished has the superblock at its front, is otherwise what it was, and is padded with zeros to
/// a multiple of 4096 bytes.
pub proof fn finished_is_padded(d: Draft)
    requires
        SUPERBLOCK_SIZE <= d.bytes.len(),
    ensures
        ({
            let image = finished(d).bytes;
            &&& image.take(SUPERBLOCK_SIZE as int) == finished(d).superblock.record()
            &&& d.bytes.len() < image.len() <= d.bytes.len() + 0x1000
            &&& image.len() % 0x1000 == 0
            &&& forall|i: int|
                SUPERBLOCK_SIZE <= i < d.bytes.len() ==> #[trigger] image[i] == d.bytes[i]
            &&& forall|i: int| d.bytes.len() <= i < image.len() ==> #[trigger] image[i] == 0
        }),
{
    let image = finished(d).bytes;
    finished(d).superblock.record_is_read(Seq::empty());
    assert(image.len() == d.bytes.len() + padding(d.bytes.len()));
    assert(image.take(SUPERBLOCK_SIZE as int) =~= finished(d).superblock.record());
}

/// The image of a filesystem begins with its superblock. The contents of files follow, then the inode
/// table, the directory table, the fragment table and the id table if there is one, and the superblock
/// says where each of these is. The image is padded with zeros to a multiple of 4096 bytes.
pub proof fn image_has_sections(fs: FilesystemView)
    requires
        draft(fs) is Some,
        draft(fs).unwrap().bytes.len() <= u64::MAX,
    ensures
        ({
            let image = draft(fs).unwrap().bytes;
            let superblock = draft(fs).unwrap().superblock;
            let r = recorded(fs);
            let inodes = metadata_blocks(fs.compressor, r.inodes);
            let dirs = metadata_blocks(fs.compressor, r.dirs);
            &&& image.take(SUPERBLOCK_SIZE as int) == superblock.record()
            &&& stands_at(image, SUPERBLOCK_SIZE as int, r.data.data)
            &&& superblock.inode_table == SUPERBLOCK_SIZE + r.data.data.len()
            &&& stands_at(image, superblock.inode_table as int, inodes)
            &&& superblock.dir_table == superblock.inode_table + inodes.len()
            &&& stands_at(image, superblock.dir_table as int, dirs)
            &&& has_table(image, superblock.frag_table as int, fragment_records(r.data.table))
            &&& superblock.frag_count == r.data.table.len() % 0x1_0000_0000
            &&& match fs.id_table {
                Some(ids) => has_table(image, superblock.id_table as int, id_records(ids))
                    && superblock.id_count == ids.len() % 0x1_0000,
                None => superblock.id_table == 0 && superblock.id_count == 0,
            }
            &&& superblock.bytes_used < image.len() <= superblock.bytes_used + 0x1000
            &&& image.len() % 0x1000 == 0
            &&& forall|i: int| superblock.bytes_used <= i < image.len() ==> #[trigger] image[i] == 0
        }),
{
    let w = all_written(fs).unwrap();
    let r = recorded(fs);
    let inodes = metadata_blocks(fs.compressor, r.inodes);
    let dirs = metadata_blocks(fs.compressor, r.dirs);
    let front = zeros(SUPERBLOCK_SIZE as nat);
    let m = main_sections(fs, w, r.data);
    let f = with_fragments(m, r.data.table);
    let g = with_ids(f, fs.id_table);
    let image = draft(fs).unwrap().bytes;
    let fragments = table_section(fragment_records(r.data.table), m.bytes.len());
    finished_is_padded(g);
    match fs.id_table {
        Some(ids) => {
            let section = table_section(id_records(ids), f.bytes.len());
            assert(g.bytes =~= m.bytes + (fragments + section));
            sections_stand(front, r.data.data, inodes, dirs, fragments + section, image);
            assert(g.bytes =~= f.bytes + section + Seq::empty());
            table_stands(f.bytes, id_records(ids), Seq::empty(), image);
            table_stands(m.bytes, fragment_records(r.data.table), section, image);
        },
        None => {
            sections_stand(front, r.data.data, inodes, dirs, fragments, image);
            assert(g.bytes =~= m.bytes + fragments + Seq::empty());
            table_stands(m.bytes, fragment_records(r.data.table), Seq::empty(), image);
        },
    }
}

/// The superblock of an image has the settings of the filesystem: its compressor, the size of its blocks and
/// the logarithm of that size.
pub proof fn superblock_keeps_settings(fs: FilesystemView)
    requires
        draft(fs) is Some,
    ensures
        draft(fs).unwrap().superblock.compressor == fs.compressor,
        draft(fs).unwrap().superblock.block_size == fs.block_size,
        draft(fs).unwrap().superblock.block_log == fs.block_log,
{
}

/// The superblock of an image has what the filesystem says of itself, the constants of the format, and where
/// the tables are.
pub proof fn superblock_is_of_filesystem(fs: FilesystemView)
    requires
        draft(fs) is Some,
        draft(fs).unwrap().bytes.len() <= u64::MAX,
    ensures
        ({
            let superblock = draft(fs).unwrap().superblock;
            let r = recorded(fs);
            let inodes = metadata_blocks(fs.compressor, r.inodes).len();
            let dirs = metadata_blocks(fs.compressor, r.dirs).len();
            let frag_start = 96 + r.data.data.len() + inodes + dirs;
            let frag_end = frag_start + 2 + fragment_records(r.data.table).len() + 8;
            &&& superblock.magic == 0x7371_7368
            &&& superblock.inode_count == r.inode
            &&& superblock.mod_time == 0
            &&& superblock.block_size == fs.block_size
            &&& superblock.frag_count == r.data.table.len() % 0x1_0000_0000
            &&& superblock.compressor == fs.compressor
            &&& superblock.block_log == fs.block_log
            &&& superblock.flags == 0
            &&& superblock.version_major == 4
            &&& superblock.version_minor == 0
            &&& superblock.xattr_table == 0xffff_ffff_ffff_ffff
            &&& superblock.inode_table == 96 + r.data.data.len()
            &&& superblock.dir_table == 96 + r.data.data.len() + inodes
            &&& superblock.frag_table == frag_end - 8
            &&& superblock.export_table == 0xffff_ffff_ffff_ffff
            &&& match fs.id_table {
                Some(ids) => {
                    &&& superblock.id_count == ids.len() % 0x1_0000
                    &&& superblock.id_table == frag_end + 2 + id_records(ids).len()
                    &&& superblock.bytes_used == frag_end + 2 + id_records(ids).len() + 8
                },
                None => {
                    &&& superblock.id_count == 0
                    &&& superblock.id_table == 0
                    &&& superblock.bytes_used == frag_end
                },
            }
        }),
{
    let r = recorded(fs);
    let w = all_written(fs).unwrap();
    let m = main_sections(fs, w, r.data);
    let f = with_fragments(m, r.data.table);
    let g = with_ids(f, fs.id_table);
    finished_is_padded(g);
    assert(m.bytes.len() == 96 + r.data.data.len() + metadata_blocks(fs.compressor, r.inodes).len()
        + metadata_blocks(fs.compressor, r.dirs).len());
    assert(f.bytes.len() == m.bytes.len() + 2 + fragment_records(r.data.table).len() + 8);
}

/// The numbers to which the superblock leads for the fragment table and the id table say where these begin:
/// behind the directory table, and behind the fragment table.
pub proof fn tables_begin(fs: FilesystemView)
    requires
        draft(fs) is Some,
        draft(fs).unwrap().bytes.len() <= u64::MAX,
    ensures
        ({
            let image = draft(fs).unwrap().bytes;
            let superblock = draft(fs).unwrap().superblock;
            let dirs = metadata_blocks(fs.compressor, recorded(fs).dirs).len();
            &&& u64_at(image, superblock.frag_table as int) == superblock.dir_table + dirs
            &&& fs.id_table is Some ==> u64_at(image, superblock.id_table as int) == superblock.frag_table + 8
        }),
{
    let image = draft(fs).unwrap().bytes;
    let r = recorded(fs);
    let w = all_written(fs).unwrap();
    let m = main_sections(fs, w, r.data);
    let f = with_fragments(m, r.data.table);
    let g = with_ids(f, fs.id_table);
    let fragments = fragment_records(r.data.table);
    finished_is_padded(g);
    superblock_is_of_filesystem(fs);
    match fs.id_table {
        Some(ids) => {
            let section = table_section(id_records(ids), f.bytes.len());
            table_begins(m.bytes, fragments, section, image);
            assert(g.bytes =~= f.bytes + section + Seq::empty());
            table_begins(f.bytes, id_records(ids), Seq::empty(), image);
        },
        None => {
            assert(g.bytes =~= m.bytes + table_section(fragments, m.bytes.len()) + Seq::empty());
            table_begins(m.bytes, fragments, Seq::empty(), image);
        },
    }
}

/// The superblock is read at the front of an image, field by field.
pub proof fn image_reads_superblock(fs: FilesystemView)
    requires
        draft(fs) is Some,
    ensures
        ({
            let image = draft(fs).unwrap().bytes;
            let superblock = draft(fs).unwrap().superblock;
            &&& image.len() >= 96
            &&& u32_at(image, 0) == superblock.magic
            &&& u32_at(image, 4) == superblock.inode_count
            &&& u32_at(image, 8) == superblock.mod_time
            &&& u32_at(image, 12) == superblock.block_size == fs.block_size
            &&& u32_at(image, 16) == superblock.frag_count
            &&& u16_at(image, 20) == superblock.compressor.spec_id() == fs.compressor.spec_id()
            &&& u16_at(image, 22) == superblock.block_log == fs.block_log
            &&& u16_at(image, 24) == superblock.flags
            &&& u16_at(image, 26) == superblock.id_count
            &&& u16_at(image, 28) == superblock.version_major
            &&& u16_at(image, 30) == superblock.version_minor
            &&& u64_at(image, 32) == superblock.root_inode
            &&& u64_at(image, 40) == superblock.bytes_used
            &&& u64_at(image, 48) == superblock.id_table
            &&& u64_at(image, 56) == superblock.xattr_table
            &&& u64_at(image, 64) == superblock.inode_table
            &&& u64_at(image, 72) == superblock.dir_table
            &&& u64_at(image, 80) == superblock.frag_table
            &&& u64_at(image, 88) == superblock.export_table
        }),
{
    let image = draft(fs).unwrap().bytes;
    let superblock = draft(fs).unwrap().superblock;
    let w = all_written(fs).unwrap();
    let m = main_sections(fs, w, recorded(fs).data);
    let g = with_ids(with_fragments(m, recorded(fs).data.table), fs.id_table);
    finished_is_padded(g);
    superblock.record_is_read(image.skip(SUPERBLOCK_SIZE as int));
    assert(image =~= superblock.record() + image.skip(SUPERBLOCK_SIZE as int));
}

proof fn table_begins(before: Seq<u8>, records: Seq<u8>, after: Seq<u8>, image: Seq<u8>)
    requires
        SUPERBLOCK_SIZE <= before.len() <= u64::MAX,
        ({
            let body = before + table_section(records, before.len()) + after;
            &&& body.len() <= image.len()
            &&& forall|i: int| SUPERBLOCK_SIZE <= i < body.len() ==> #[trigger] image[i] == body[i]
        }),
    ensures
        table_section(records, before.len()).len() == 2 + records.len() + 8,
        u64_at(image, (before.len() + 2 + records.len()) as int) == before.len(),
{
    let len = uncompressed_len((records.len() % 0x1_0000) as u16);
    let start = before.len() as int;
    let at = start + 2 + records.len();
    let body = before + table_section(records, before.len()) + after;
    read_le64(before + le16(len) + records, start as u64, after);
    assert(body =~= (before + le16(len) + records) + le64(start as u64) + after);
    assert(forall|i: int| at <= i < at + 8 ==> #[trigger] image[i] == body[i]);
    assert(u64_at(image, at) == u64_at(body, at));
}

/// The fragment table and the id table are blocks that are marked as not compressed, with as many bytes as
/// their length says while it is below 32 KiB.
pub proof fn tables_are_marked(image: Seq<u8>, at: int, records: Seq<u8>)
    requires
        has_table(image, at, records),
        records.len() < 0x8000,
    ensures
        u16_at(image, u64_at(image, at) as int) == 0x8000 + records.len(),
        image.subrange(u64_at(image, at) + 2, u64_at(image, at) + 2 + records.len()) == records,
{
    let len = records.len() as u16;
    assert(len | 0x8000 == len + 0x8000) by (bit_vector)
        requires
            len < 0x8000u16,
    ;
}

/// An image is its draft without the superblock beside it.
pub proof fn image_is_of_draft(fs: FilesystemView)
    ensures
        image(fs) is Some <==> draft(fs) is Some,
        image(fs) is Some ==> image(fs).unwrap() == draft(fs).unwrap().bytes,
{
}

/// Appending the fragment table keeps all that is there. The records follow as one block that is marked as not
/// compressed, and then the number that says where the block begins, to which the superblock leads.
pub proof fn fragments_are_appended(d: Draft, table: Seq<Fragment>)
    requires
        with_fragments(d, table).bytes.len() <= u64::MAX,
    ensures
        ({
            let out = with_fragments(d, table);
            let records = fragment_records(table);
            let n = d.bytes.len() as int;
            &&& out.bytes.len() == n + 2 + records.len() + 8
            &&& out.bytes.take(n) == d.bytes
            &&& records.len() < 0x8000 ==> u16_at(out.bytes, n) == 0x8000 + records.len()
            &&& out.bytes.subrange(n + 2, n + 2 + records.len()) == records
            &&& out.superblock.frag_table == n + 2 + records.len()
            &&& u64_at(out.bytes, n + 2 + records.len()) == n
            &&& table.len() <= u32::MAX ==> out.superblock.frag_count == table.len()
            &&& d.superblock == (SuperBlock {
                frag_table: d.superblock.frag_table,
                frag_count: d.superblock.frag_count,
                ..out.superblock
            })
        }),
{
    section_is_appended(d.bytes, fragment_records(table));
}

/// Appending the id table keeps all that is there. The records follow as one block that is marked as not
/// compressed, and then the number that says where the block begins, to which the superblock leads. Where
/// there is no table nothing changes.
pub proof fn ids_are_appended(d: Draft, ids: Option<Seq<Id>>)
    requires
        with_ids(d, ids).bytes.len() <= u64::MAX,
    ensures
        ids is None ==> with_ids(d, ids) == d,
        ids is Some ==> {
            let out = with_ids(d, ids);
            let records = id_records(ids.unwrap());
            let n = d.bytes.len() as int;
            &&& out.bytes.len() == n + 2 + records.len() + 8
            &&& out.bytes.take(n) == d.bytes
            &&& records.len() < 0x8000 ==> u16_at(out.bytes, n) == 0x8000 + records.len()
            &&& out.bytes.subrange(n + 2, n + 2 + records.len()) == records
            &&& out.superblock.id_table == n + 2 + records.len()
            &&& u64_at(out.bytes, n + 2 + records.len()) == n
            &&& ids.unwrap().len() <= u16::MAX ==> out.superblock.id_count == ids.unwrap().len()
            &&& d.superblock == (SuperBlock {
                id_table: d.superblock.id_table,
                id_count: d.superblock.id_count,
                ..out.superblock
            })
        },
{
    if let Some(all) = ids {
        section_is_appended(d.bytes, id_records(all));
    }
}

proof fn section_is_appended(before: Seq<u8>, records: Seq<u8>)
    requires
        (before + table_section(records, before.len())).len() <= u64::MAX,
    ensures
        ({
            let out = before + table_section(records, before.len());
            let n = before.len() as int;
            &&& out.len() == n + 2 + records.len() + 8
            &&& out.take(n) == before
            &&& records.len() < 0x8000 ==> u16_at(out, n) == 0x8000 + records.len()
            &&& out.subrange(n + 2, n + 2 + records.len()) == records
            &&& u64_at(out, n + 2 + records.len()) == n
        }),
{
    let short = (records.len() % 0x1_0000) as u16;
    let len = uncompressed_len(short);
    let n = before.len() as int;
    let out = before + table_section(records, before.len());
    assert(out.take(n) =~= before);
    assert(out.subrange(n + 2, n + 2 + records.len()) =~= records);
    read_le16(before, len, records + le64(n as u64));
    assert(out =~= before + le16(len) + (records + le64(n as u64)));
    read_le64(before + le16(len) + records, n as u64, Seq::empty());
    assert(out =~= (before + le16(len) + records) + le64(n as u64) + Seq::empty());
    assert(short < 0x8000 ==> short | 0x8000 == short + 0x8000) by (bit_vector);
}

/// Finishing puts the number of bytes that are used into the superblock and changes nothing else in it. It can
/// be done unless the padded length does not fit in 32 bits, but for what the length has above these.
pub proof fn finished_says_what_is_used(d: Draft)
    ensures
        d.bytes.len() <= u64::MAX ==> finished(d).superblock.bytes_used == d.bytes.len(),
        d.superblock == (SuperBlock { bytes_used: d.superblock.bytes_used, ..finished(d).superblock }),
        can_pad(d.bytes.len()) <==> d.bytes.len() % 0x1_0000_0000 < 0xffff_f000,
{
}

} // verus!
