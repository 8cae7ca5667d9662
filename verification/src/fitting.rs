//! Which filesystems have an image.

use vstd::prelude::*;
use vstd::utf8::encode_utf8;
use crate::compressor::{block_is_stored, Compressor};
use crate::data::{contents_are_added, contents_can_be_added, file_block_sizes, file_blocks,
    fragment_is_flushed, DataView};
use crate::entry::{by_name, entry_records, place_is_between, place_of, run_from, run_record, runs,
    EntryView};
use crate::fragment::{fragment_records, Fragment};
use crate::image::{all_written, beginning, children_written, counted, directory_header, directory_written,
    draft, entered, file_body, leaf_written, leaves_written, listed, main_sections, node_written, start_of,
    with_fragments, with_ids, FilesystemView, Progress, Written};
use crate::inode::{inode_record, le32_all, BasicDirectory, InodeBody, InodeHeader, InodeId};
use crate::metadata::{block_offset, block_start, metadata_blocks, whole_len};
use crate::node::{FilesystemHeader, NodeView};
use crate::path::file_name;
use crate::reading::entry_name;
use crate::records::{entries_len, runs_len};
use crate::squashfs::{id_records, Id};
use crate::tree::{tree_of, Tree};

verus! {

/// Whether a name can be recorded: it is not empty and its length fits in 16 bits.
pub open spec fn is_nameable(name: Option<Seq<u8>>) -> bool {
    name is Some && 0 < name.unwrap().len() < 0x1_0000
}

/// What an entry may take in a listing: a header of its own, its fields and its name.
pub open spec fn name_width(name: Option<Seq<u8>>) -> nat {
    match name {
        Some(name) => 20 + name.len(),
        None => 20,
    }
}

/// What the entries of `children` may take in a listing.
pub open spec fn width(children: Seq<Tree>) -> nat
    decreases children.len(),
{
    if children.len() == 0 {
        0
    } else {
        width(children.drop_last()) + name_width(entry_name(children.last()))
    }
}

/// What a node with nothing below it may take of the room in an image.
pub open spec fn node_room(node: NodeView, block_size: u32) -> nat {
    match node {
        NodeView::Path(_) => 200,
        NodeView::File(file) => 200 + file.bytes.len() + 12 * (file.bytes.len() / block_size as nat),
        NodeView::Symlink(symlink) => 200 + 3 * encode_utf8(symlink.link).len(),
    }
}

/// What a place and all that is below it may take of the room in an image.
pub open spec fn room(t: Tree, block_size: u32) -> nat
    decreases t,
{
    if t.children.len() == 0 {
        match t.node {
            Some(node) => node_room(node, block_size),
            None => 0,
        }
    } else {
        200 + 3 * width(t.children) + all_room(t.children, block_size)
    }
}

/// What several places and all that is below them may take of the room in an image.
pub open spec fn all_room(trees: Seq<Tree>, block_size: u32) -> nat
    decreases trees,
{
    if trees.len() == 0 {
        0
    } else {
        all_room(trees.drop_last(), block_size) + room(trees.last(), block_size)
    }
}

/// Whether each place has a name and, with nothing below it, a node, and the listing of no directory is longer
/// than its inode can say.
pub open spec fn fits(t: Tree) -> bool
    decreases t,
{
    &&& is_nameable(entry_name(t))
    &&& width(t.children) <= 0xfffc
    &&& forall|i: int| 0 <= i < t.children.len() ==> fits(#[trigger] t.children[i])
}

/// How much of the room in an image is taken.
spec fn taken(p: Progress) -> int {
    p.inode + 3 * p.inodes.len() + 3 * p.dirs.len() + p.data.data.len() + p.data.fragment.len() + 16
        * p.data.table.len()
}

/// Whether contents are stored as an image of blocks of `block_size` bytes has them.
spec fn is_set(d: DataView, block_size: u32) -> bool {
    d.block_size == block_size && block_size > 0 && d.data_start == 96
}

proof fn blocks_are_short(compressor: Compressor, s: Seq<u8>)
    ensures
        metadata_blocks(compressor, s).len() <= 3 * s.len(),
    decreases s.len(),
{
    if s.len() > 0 {
        if s.len() > 0x2000 {
            blocks_are_short(compressor, s.skip(0x2000));
            block_is_stored(compressor, s.take(0x2000));
        } else {
            block_is_stored(compressor, s);
        }
    }
}

proof fn block_start_is_low(compressor: Compressor, s: Seq<u8>)
    ensures
        block_start(compressor, s) <= 3 * s.len(),
{
    blocks_are_short(compressor, s.take(whole_len(s)));
}

proof fn numbers_len(numbers: Seq<u32>)
    ensures
        le32_all(numbers).len() == 4 * numbers.len(),
    decreases numbers.len(),
{
    if numbers.len() > 0 {
        numbers_len(numbers.drop_last());
    }
}

proof fn record_len(id: InodeId, header: InodeHeader, body: InodeBody)
    ensures
        inode_record(id, header, body).len() == match body {
            InodeBody::Directory(d) => 32,
            InodeBody::File { blocks_start, frag_index, block_offset, file_size, block_sizes } => 32 + 4
                * block_sizes.len(),
            InodeBody::Symlink { link_count, target_size, target_path } => 24 + target_path.len(),
        },
{
    reveal(inode_record);
    if let InodeBody::File { blocks_start, frag_index, block_offset, file_size, block_sizes } = body {
        numbers_len(block_sizes);
    }
}

proof fn file_blocks_are_short(compressor: Compressor, block_size: u32, bytes: Seq<u8>)
    requires
        block_size > 0,
    ensures
        file_blocks(compressor, block_size, bytes).len() <= bytes.len(),
        file_block_sizes(compressor, block_size, bytes).len() <= bytes.len() / block_size as nat + 1,
    decreases bytes.len(),
{
    let n = block_size as int;
    if bytes.len() > 0 {
        if bytes.len() <= n {
            block_is_stored(compressor, bytes);
        } else {
            let rest = bytes.skip(n);
            file_blocks_are_short(compressor, block_size, rest);
            block_is_stored(compressor, bytes.take(n));
            let len = bytes.len() as int;
            assert((len - n) / n == len / n - 1) by (nonlinear_arith)
                requires
                    n > 0,
            ;
        }
    }
}

proof fn entry_can_be_made(
    p: Progress,
    id: InodeId,
    header: FilesystemHeader,
    number: u32,
    body: InodeBody,
    name: Seq<u8>,
)
    requires
        0 < name.len() < 0x1_0000,
        3 * (p.inodes.len() + inode_record(id, header.spec_numbered(number), body).len()) <= u32::MAX,
    ensures
        entered(p, id, header, number, body, name) is Some,
        ({
            let (e, q) = entered(p, id, header, number, body, name).unwrap();
            let record = inode_record(id, header.spec_numbered(number), body);
            &&& e.name == name
            &&& q == (Progress { inodes: q.inodes, ..p })
            &&& q.inodes.len() == p.inodes.len() + record.len()
        }),
{
    let record = inode_record(id, header.spec_numbered(number), body);
    block_start_is_low(p.data.compressor, p.inodes + record);
}

/// What the entry of a node with nothing below it is called.
spec fn leaf_name(name: Seq<u8>, node: NodeView) -> Option<Seq<u8>> {
    match node {
        NodeView::Path(_) => Some(name),
        NodeView::File(file) => file_name(file.path),
        NodeView::Symlink(symlink) => Some(encode_utf8(symlink.original)),
    }
}

proof fn file_can_be_written(p: Progress, name: Seq<u8>, node: NodeView, parent: u32, block_size: u32)
    requires
        node is File,
        is_set(p.data, block_size),
        is_nameable(leaf_name(name, node)),
        taken(p) + node_room(node, block_size) <= 0xf000_0000,
    ensures
        leaf_written(p, name, node, parent) is Some,
        ({
            let (e, q) = leaf_written(p, name, node, parent).unwrap();
            &&& Some(e.name) == leaf_name(name, node)
            &&& is_set(q.data, block_size)
            &&& taken(q) <= taken(p) + node_room(node, block_size)
        }),
{
    reveal(leaf_written);
    let file = node->File_0;
    let q = counted(p).unwrap();
    contents_can_be_added(p.data, file.bytes);
    contents_are_added(p.data, file.bytes);
    let (added, data) = p.data.added(file.bytes).unwrap();
    let body = file_body(added, file.bytes.len());
    file_blocks_are_short(p.data.compressor, block_size, file.bytes);
    block_is_stored(p.data.compressor, p.data.fragment);
    record_len(InodeId::BasicFile, file.header.spec_numbered(p.inode), body);
    entry_can_be_made(
        Progress { data, ..q },
        InodeId::BasicFile,
        file.header,
        p.inode,
        body,
        file_name(file.path).unwrap(),
    );
}

proof fn leaf_can_be_written(p: Progress, name: Seq<u8>, node: NodeView, parent: u32, block_size: u32)
    requires
        is_set(p.data, block_size),
        is_nameable(leaf_name(name, node)),
        taken(p) + node_room(node, block_size) <= 0xf000_0000,
    ensures
        leaf_written(p, name, node, parent) is Some,
        ({
            let (e, q) = leaf_written(p, name, node, parent).unwrap();
            &&& Some(e.name) == leaf_name(name, node)
            &&& is_set(q.data, block_size)
            &&& taken(q) <= taken(p) + node_room(node, block_size)
        }),
{
    let q = counted(p).unwrap();
    match node {
        NodeView::Path(path) => {
            reveal(leaf_written);
            let body = InodeBody::Directory(
                BasicDirectory {
                    block_index: start_of(p, p.dirs),
                    link_count: 2,
                    file_size: 3,
                    block_offset: block_offset(p.dirs),
                    parent_inode: parent,
                },
            );
            record_len(InodeId::BasicDirectory, path.header.spec_numbered(p.inode), body);
            entry_can_be_made(q, InodeId::BasicDirectory, path.header, p.inode, body, name);
        },
        NodeView::File(file) => {
            file_can_be_written(p, name, node, parent, block_size);
        },
        NodeView::Symlink(symlink) => {
            reveal(leaf_written);
            let target = encode_utf8(symlink.link);
            let body = InodeBody::Symlink {
                link_count: 1,
                target_size: (target.len() % 0x1_0000_0000) as u32,
                target_path: target,
            };
            record_len(InodeId::BasicSymlink, symlink.header.spec_numbered(p.inode), body);
            entry_can_be_made(
                q,
                InodeId::BasicSymlink,
                symlink.header,
                p.inode,
                body,
                encode_utf8(symlink.original),
            );
        },
    }
}

spec fn leaves_room(leaves: Seq<(Seq<u8>, NodeView)>, block_size: u32) -> nat
    decreases leaves.len(),
{
    if leaves.len() == 0 {
        0
    } else {
        leaves_room(leaves.drop_last(), block_size) + node_room(leaves.last().1, block_size)
    }
}

spec fn leaves_width(leaves: Seq<(Seq<u8>, NodeView)>) -> nat
    decreases leaves.len(),
{
    if leaves.len() == 0 {
        0
    } else {
        leaves_width(leaves.drop_last()) + name_width(leaf_name(leaves.last().0, leaves.last().1))
    }
}

spec fn are_nameable(leaves: Seq<(Seq<u8>, NodeView)>) -> bool {
    forall|i: int|
        0 <= i < leaves.len() ==> is_nameable(leaf_name((#[trigger] leaves[i]).0, leaves[i].1))
}

/// What several entries may take in a listing.
spec fn entries_width(entries: Seq<EntryView>) -> nat {
    entries_len(entries) + 12 * entries.len()
}

proof fn leaves_can_be_written(p: Progress, leaves: Seq<(Seq<u8>, NodeView)>, parent: u32, block_size: u32)
    requires
        is_set(p.data, block_size),
        are_nameable(leaves),
        taken(p) + leaves_room(leaves, block_size) <= 0xf000_0000,
    ensures
        leaves_written(p, leaves, parent) is Some,
        ({
            let (entries, q) = leaves_written(p, leaves, parent).unwrap();
            &&& entries_width(entries) == leaves_width(leaves)
            &&& is_set(q.data, block_size)
            &&& taken(q) <= taken(p) + leaves_room(leaves, block_size)
        }),
    decreases leaves.len(),
{
    if leaves.len() > 0 {
        let front = leaves.drop_last();
        let last = leaves.last();
        assert(leaves[leaves.len() - 1] == last);
        assert forall|i: int| 0 <= i < front.len() implies is_nameable(
            leaf_name((#[trigger] front[i]).0, front[i].1),
        ) by {
            assert(front[i] == leaves[i]);
        }
        leaves_can_be_written(p, front, parent, block_size);
        let (before, q) = leaves_written(p, front, parent).unwrap();
        leaf_can_be_written(q, last.0, last.1, parent, block_size);
        let (entry, r) = leaf_written(q, last.0, last.1, parent).unwrap();
        assert(before.push(entry).drop_last() =~= before);
    }
}

proof fn entries_len_of_both(a: Seq<EntryView>, b: Seq<EntryView>)
    ensures
        entries_len(a + b) == entries_len(a) + entries_len(b),
    decreases b.len(),
{
    if b.len() == 0 {
        assert(a + b =~= a);
    } else {
        entries_len_of_both(a, b.drop_last());
        assert((a + b).drop_last() =~= a + b.drop_last());
    }
}

proof fn sorting_keeps_len(entries: Seq<EntryView>)
    ensures
        entries_len(by_name(entries)) == entries_len(entries),
        by_name(entries).len() == entries.len(),
    decreases entries.len(),
{
    if entries.len() > 0 {
        let sorted = by_name(entries.drop_last());
        let last = entries.last();
        let k = place_of(sorted, last.name);
        sorting_keeps_len(entries.drop_last());
        place_is_between(sorted, last.name);
        let one = seq![last];
        assert(one.drop_last() =~= Seq::empty());
        assert(entries_len(one) == 8 + last.name.len()) by {
            assert(entries_len(one.drop_last()) == 0);
        }
        assert(sorted.insert(k, last) =~= sorted.take(k) + one + sorted.skip(k));
        entries_len_of_both(sorted.take(k) + one, sorted.skip(k));
        entries_len_of_both(sorted.take(k), one);
        entries_len_of_both(sorted.take(k), sorted.skip(k));
        assert(sorted.take(k) + sorted.skip(k) =~= sorted);
    }
}

proof fn runs_len_of_both(a: Seq<Seq<EntryView>>, b: Seq<Seq<EntryView>>)
    ensures
        runs_len(a + b) == runs_len(a) + runs_len(b),
    decreases b.len(),
{
    if b.len() == 0 {
        assert(a + b =~= a);
    } else {
        runs_len_of_both(a, b.drop_last());
        assert((a + b).drop_last() =~= a + b.drop_last());
    }
}

proof fn runs_are_short(entries: Seq<EntryView>)
    ensures
        runs_len(runs(entries)) <= entries_width(entries),
    decreases entries.len(),
{
    if entries.len() > 0 {
        let k = run_from(entries, 1);
        if 0 < k <= entries.len() {
            let one = seq![entries.take(k)];
            runs_are_short(entries.skip(k));
            runs_len_of_both(one, runs(entries.skip(k)));
            assert(one.drop_last() =~= Seq::empty());
            assert(runs_len(one) == 12 + entries_len(entries.take(k))) by {
                assert(runs_len(one.drop_last()) == 0);
            }
            entries_len_of_both(entries.take(k), entries.skip(k));
            assert(entries.take(k) + entries.skip(k) =~= entries);
        }
    }
}

proof fn entry_records_len(first: u32, entries: Seq<EntryView>)
    ensures
        entry_records(first, entries).len() == entries_len(entries),
    decreases entries.len(),
{
    if entries.len() > 0 {
        entry_records_len(first, entries.drop_last());
    }
}

proof fn listing_can_be_written(p: Progress, listing: Seq<Seq<EntryView>>)
    requires
        runs_len(listing) <= 0xfffc,
        3 * (p.dirs.len() + runs_len(listing)) <= u32::MAX,
    ensures
        listed(p, listing) is Some,
        ({
            let (q, size) = listed(p, listing).unwrap();
            &&& q == (Progress { dirs: q.dirs, ..p })
            &&& q.dirs.len() == p.dirs.len() + runs_len(listing)
            &&& size <= 3 + runs_len(listing)
        }),
    decreases listing.len(),
{
    if listing.len() > 0 {
        let run = listing.last();
        listing_can_be_written(p, listing.drop_last());
        let (q, size) = listed(p, listing.drop_last()).unwrap();
        entry_records_len(run[0].inode, run);
        assert(run_record(run).len() == 12 + entries_len(run));
        block_start_is_low(q.data.compressor, q.dirs + run_record(run));
    }
}

proof fn directory_can_be_written(
    p: Progress,
    name: Seq<u8>,
    entries: Seq<EntryView>,
    header: FilesystemHeader,
    number: u32,
    parent: u32,
)
    requires
        0 < name.len() < 0x1_0000,
        entries_width(entries) <= 0xfffc,
        taken(p) + 3 * entries_width(entries) + 96 <= 0xf000_0000,
    ensures
        directory_written(p, name, entries, Some(header), number, parent) is Some,
        ({
            let (e, q) = directory_written(p, name, entries, Some(header), number, parent).unwrap();
            &&& e.name == name
            &&& q.data == p.data
            &&& taken(q) <= taken(p) + 3 * entries_width(entries) + 96
        }),
{
    reveal(directory_written);
    let sorted = by_name(entries);
    sorting_keeps_len(entries);
    runs_are_short(sorted);
    listing_can_be_written(p, runs(sorted));
    let (q, file_size) = listed(p, runs(sorted)).unwrap();
    let body = InodeBody::Directory(
        BasicDirectory {
            block_index: start_of(p, p.dirs),
            link_count: 2,
            file_size,
            block_offset: block_offset(p.dirs),
            parent_inode: parent,
        },
    );
    record_len(InodeId::BasicDirectory, header.spec_numbered(number), body);
    entry_can_be_made(q, InodeId::BasicDirectory, header, number, body, name);
}

/// Whether `w` is what may come of places that take `space` of the room and `span` of a listing.
#[verifier::opaque]
spec fn is_small(w: Written, before: int, space: nat, span: nat, block_size: u32) -> bool {
    &&& is_set(w.progress.data, block_size)
    &&& are_nameable(w.leaves)
    &&& taken(w.progress) + leaves_room(w.leaves, block_size) <= before + space
    &&& entries_width(w.entries) + leaves_width(w.leaves) == span
}

proof fn leaves_of_both(
    a: Seq<(Seq<u8>, NodeView)>,
    b: Seq<(Seq<u8>, NodeView)>,
    block_size: u32,
)
    ensures
        leaves_room(a + b, block_size) == leaves_room(a, block_size) + leaves_room(b, block_size),
        leaves_width(a + b) == leaves_width(a) + leaves_width(b),
        are_nameable(a) && are_nameable(b) ==> are_nameable(a + b),
    decreases b.len(),
{
    let all = a + b;
    if b.len() == 0 {
        assert(all =~= a);
    } else {
        leaves_of_both(a, b.drop_last(), block_size);
        assert(all.drop_last() =~= a + b.drop_last());
        if are_nameable(a) && are_nameable(b) {
            assert forall|i: int| 0 <= i < all.len() implies is_nameable(
                leaf_name((#[trigger] all[i]).0, all[i].1),
            ) by {
                if i < a.len() {
                    assert(all[i] == a[i]);
                } else {
                    assert(all[i] == b[i - a.len()]);
                }
            }
        }
    }
}

proof fn leaf_is_small(p: Progress, t: Tree, header: FilesystemHeader, parent: u32, block_size: u32)
    requires
        t.children.len() == 0,
        is_set(p.data, block_size),
        is_nameable(entry_name(t)),
    ensures
        node_written(p, t, Some(header), parent) is Some,
        is_small(
            node_written(p, t, Some(header), parent).unwrap(),
            taken(p),
            room(t, block_size),
            name_width(entry_name(t)),
            block_size,
        ),
{
    reveal(is_small);
    let node = t.node.unwrap();
    let one = seq![(t.name, node)];
    assert(one.drop_last() =~= Seq::empty());
    assert(leaves_room(one, block_size) == node_room(node, block_size)) by {
        assert(leaves_room(one.drop_last(), block_size) == 0);
    }
    assert(leaves_width(one) == name_width(leaf_name(t.name, node))) by {
        assert(leaves_width(one.drop_last()) == 0);
    }
}

proof fn node_can_be_written(p: Progress, t: Tree, header: FilesystemHeader, parent: u32, block_size: u32)
    requires
        fits(t),
        is_set(p.data, block_size),
        taken(p) + room(t, block_size) <= 0xf000_0000,
    ensures
        node_written(p, t, Some(header), parent) is Some,
        is_small(
            node_written(p, t, Some(header), parent).unwrap(),
            taken(p),
            room(t, block_size),
            name_width(entry_name(t)),
            block_size,
        ),
    decreases t, 1int,
{
    if t.children.len() == 0 {
        leaf_is_small(p, t, header, parent, block_size);
    } else {
        let q = counted(p).unwrap();
        assert(room(t, block_size) == 200 + 3 * width(t.children) + all_room(t.children, block_size));
        children_can_be_written(q, t.children, header, p.inode, block_size);
        directory_is_small(p, t, header, parent, block_size);
    }
}

proof fn directory_is_small(p: Progress, t: Tree, header: FilesystemHeader, parent: u32, block_size: u32)
    requires
        t.children.len() > 0,
        is_nameable(entry_name(t)),
        width(t.children) <= 0xfffc,
        taken(p) + room(t, block_size) <= 0xf000_0000,
        room(t, block_size) == 200 + 3 * width(t.children) + all_room(t.children, block_size),
        counted(p) is Some,
        children_written(counted(p).unwrap(), t.children, Some(header), p.inode) is Some,
        is_small(
            children_written(counted(p).unwrap(), t.children, Some(header), p.inode).unwrap(),
            taken(p) + 1,
            all_room(t.children, block_size),
            width(t.children),
            block_size,
        ),
    ensures
        node_written(p, t, Some(header), parent) is Some,
        is_small(
            node_written(p, t, Some(header), parent).unwrap(),
            taken(p),
            room(t, block_size),
            name_width(entry_name(t)),
            block_size,
        ),
{
    reveal(is_small);
    let q = counted(p).unwrap();
    let below = children_written(q, t.children, Some(header), p.inode).unwrap();
    leaves_can_be_written(below.progress, below.leaves, p.inode, block_size);
    let (leaf_entries, r) = leaves_written(below.progress, below.leaves, p.inode).unwrap();
    let entries = below.entries + leaf_entries;
    entries_len_of_both(below.entries, leaf_entries);
    directory_can_be_written(r, t.name, entries, header, p.inode, parent);
    let (e, end) = directory_written(r, t.name, entries, Some(header), p.inode, parent).unwrap();
    let one = seq![e];
    assert(one.drop_last() =~= Seq::empty());
    assert(entries_len(one) == 8 + e.name.len()) by {
        assert(entries_len(one.drop_last()) == 0);
    }
    assert(leaves_room(Seq::empty(), block_size) == 0);
    assert(leaves_width(Seq::empty()) == 0);
}

proof fn children_can_be_written(
    p: Progress,
    children: Seq<Tree>,
    header: FilesystemHeader,
    parent: u32,
    block_size: u32,
)
    requires
        forall|i: int| 0 <= i < children.len() ==> fits(#[trigger] children[i]),
        is_set(p.data, block_size),
        taken(p) + all_room(children, block_size) <= 0xf000_0000,
    ensures
        children_written(p, children, Some(header), parent) is Some,
        is_small(
            children_written(p, children, Some(header), parent).unwrap(),
            taken(p),
            all_room(children, block_size),
            width(children),
            block_size,
        ),
    decreases children, 0int,
{
    if children.len() == 0 {
        reveal(is_small);
        assert(leaves_room(Seq::empty(), block_size) == 0);
        assert(leaves_width(Seq::empty()) == 0);
    } else {
        let front = children.drop_last();
        let last = children.last();
        assert(children[children.len() - 1] == last);
        assert forall|i: int| 0 <= i < front.len() implies fits(#[trigger] front[i]) by {
            assert(front[i] == children[i]);
        }
        assert(all_room(children, block_size) == all_room(front, block_size) + room(last, block_size));
        children_can_be_written(p, front, header, parent, block_size);
        let before = children_written(p, front, Some(header), parent).unwrap();
        assert(is_set(before.progress.data, block_size) && taken(before.progress) <= taken(p) + all_room(
            front,
            block_size,
        )) by {
            reveal(is_small);
        }
        node_can_be_written(before.progress, last, header, parent, block_size);
        let w = node_written(before.progress, last, Some(header), parent).unwrap();
        both_are_small(
            before,
            w,
            children_written(p, children, Some(header), parent).unwrap(),
            taken(p),
            all_room(front, block_size),
            width(front),
            room(last, block_size),
            name_width(entry_name(last)),
            block_size,
        );
    }
}

proof fn both_are_small(
    a: Written,
    b: Written,
    all: Written,
    before: int,
    space_a: nat,
    span_a: nat,
    space_b: nat,
    span_b: nat,
    block_size: u32,
)
    requires
        is_small(a, before, space_a, span_a, block_size),
        is_small(b, taken(a.progress), space_b, span_b, block_size),
        all.progress == b.progress,
        all.entries == a.entries + b.entries,
        all.leaves == a.leaves + b.leaves,
    ensures
        is_small(all, before, space_a + space_b, span_a + span_b, block_size),
{
    reveal(is_small);
    entries_len_of_both(a.entries, b.entries);
    leaves_of_both(a.leaves, b.leaves, block_size);
}

proof fn fragments_len(table: Seq<Fragment>)
    ensures
        fragment_records(table).len() == 16 * table.len(),
    decreases table.len(),
{
    if table.len() > 0 {
        fragments_len(table.drop_last());
    }
}

proof fn ids_len(ids: Seq<Id>)
    ensures
        id_records(ids).len() == 4 * ids.len(),
    decreases ids.len(),
{
    if ids.len() > 0 {
        ids_len(ids.drop_last());
    }
}

/// A filesystem has an image if it has nodes that fit: blocks hold something, a node at the root is a
/// directory, each place has a name, no listing is longer than its inode can say, and all of it together takes
/// less than about four GiB.
pub proof fn fitting_filesystem_has_image(fs: FilesystemView)
    requires
        fs.block_size > 0,
        tree_of(fs.nodes).node is Some ==> tree_of(fs.nodes).node.unwrap() is Path,
        fits(tree_of(fs.nodes)),
        room(tree_of(fs.nodes), fs.block_size) <= 0xe000_0000,
        fs.id_table is Some ==> fs.id_table.unwrap().len() <= 0x1_0000,
    ensures
        draft(fs) is Some,
{
    let t = tree_of(fs.nodes);
    let header = directory_header(t, fs.root_inode).unwrap();
    let p = beginning(fs);
    node_can_be_written(p, t, header, 0, fs.block_size);
    let w = all_written(fs).unwrap();
    let d = w.progress.data;
    assert(is_set(d, fs.block_size) && taken(w.progress) <= taken(p) + room(t, fs.block_size)) by {
        reveal(is_small);
    }
    contents_can_be_added(d, Seq::empty());
    fragment_is_flushed(d);
    block_is_stored(d.compressor, d.fragment);
    let data = d.flushed().unwrap();
    sections_are_short(fs, w, data);
}

proof fn sections_are_short(fs: FilesystemView, w: Written, data: DataView)
    requires
        3 * w.progress.inodes.len() + 3 * w.progress.dirs.len() + data.data.len() + 16 * data.table.len()
            <= 0xf000_0000,
        fs.id_table is Some ==> fs.id_table.unwrap().len() <= 0x1_0000,
    ensures
        with_ids(with_fragments(main_sections(fs, w, data), data.table), fs.id_table).bytes.len() < 0xffff_f000,
{
    let inodes = metadata_blocks(fs.compressor, w.progress.inodes);
    let dirs = metadata_blocks(fs.compressor, w.progress.dirs);
    blocks_are_short(fs.compressor, w.progress.inodes);
    blocks_are_short(fs.compressor, w.progress.dirs);
    fragments_len(data.table);
    let m = main_sections(fs, w, data);
    assert(m.bytes.len() == 96 + data.data.len() + inodes.len() + dirs.len());
    let f = with_fragments(m, data.table);
    assert(f.bytes.len() == m.bytes.len() + 10 + 16 * data.table.len());
    if let Some(ids) = fs.id_table {
        ids_len(ids);
        assert(with_ids(f, fs.id_table).bytes.len() == f.bytes.len() + 10 + 4 * ids.len());
    }
}

/// A filesystem without nodes has no image, nor has one with something below a root that is no directory.
pub proof fn rootless_filesystem_has_no_image(fs: FilesystemView)
    requires
        fs.nodes.len() == 0 || (tree_of(fs.nodes).children.len() > 0 && tree_of(fs.nodes).node is Some
            && !(tree_of(fs.nodes).node.unwrap() is Path)),
    ensures
        draft(fs) is None,
{
    reveal(directory_written);
}

} // verus!
