//! What the image of a filesystem promises to its readers.

use vstd::prelude::*;
use vstd::utf8::encode_utf8;
use crate::data::{file_block_sizes, file_blocks, AddedView, DataView};
use crate::entry::{by_name, by_name_sorts, joined, run_record, runs, runs_hold_entries, EntryView};
use crate::growth::{data_grows, directory_grows, fragment_begins, growing_keeps_parameters, grows, grows_on,
    leaf_grows, leaves_grow, node_grows, stands_at, stands_still};
use crate::image::{children_written, counted, directory_written, entered, file_body, leaf_written,
    leaves_written, listed, node_written, reference_to, start_of, Progress, Written};
use crate::inode::{inode_record, BasicDirectory, InodeBody, InodeId};
use crate::metadata::{block_offset, block_start, block_start_grows};
use crate::node::{FilesystemHeader, NodeView};
use crate::path::file_name;
use crate::tree::{all_places, places, Tree};

verus! {

/// Whether a record of the table `s` is where a start of a block and an offset in it say: `record` stands
/// in `s` at `at`, and a record that begins there is in the block at `start`, at `offset`.
pub open spec fn refers(p: Progress, s: Seq<u8>, at: int, record: Seq<u8>, start: u32, offset: u16) -> bool {
    &&& stands_at(s, at, record)
    &&& start == block_start(p.data.compressor, s.take(at))
    &&& offset == block_offset(s.take(at))
}

/// Whether the entry `e` refers to an inode of its kind and its number, with the metadata `header` and
/// the body `body`.
#[verifier::opaque]
pub open spec fn has_inode(p: Progress, e: EntryView, header: FilesystemHeader, body: InodeBody) -> bool {
    exists|at: int| #[trigger]
        refers(
            p,
            p.inodes,
            at,
            inode_record(e.t, header.spec_numbered(e.inode), body),
            e.start,
            e.offset,
        )
}

/// Whether the contents of a file are stored where `added` says.
pub open spec fn holds_contents(d: DataView, added: AddedView, bytes: Seq<u8>) -> bool {
    match added {
        AddedView::Data { blocks_start, block_sizes } => {
            &&& stands_at(
                d.data,
                blocks_start - d.data_start,
                file_blocks(d.compressor, d.block_size, bytes),
            )
            &&& block_sizes == file_block_sizes(d.compressor, d.block_size, bytes)
        },
        AddedView::Fragment { frag_index, block_offset } => exists|f: Seq<u8>| #[trigger]
            fragment_begins(d, frag_index as int, f) && stands_at(f, block_offset as int, bytes),
    }
}

/// Whether the entry is called `name`.
pub open spec fn is_called(e: EntryView, name: Seq<u8>) -> bool {
    &&& e.name == name
    &&& name.len() % 0x1_0000 > 0
    &&& e.name_size == name.len() % 0x1_0000 - 1
}

/// Whether the entry `e`, of the directory with the inode `parent`, leads to a node with nothing below
/// it, at a place called `name`.
#[verifier::opaque]
pub open spec fn shows_leaf(p: Progress, e: EntryView, name: Seq<u8>, node: NodeView, parent: u32) -> bool {
    match node {
        NodeView::Path(path) => {
            &&& e.t == InodeId::BasicDirectory
            &&& is_called(e, name)
            &&& exists|d: BasicDirectory| #[trigger]
                has_inode(p, e, path.header, InodeBody::Directory(d)) && d.file_size == 3 && d.link_count
                    == 2 && d.parent_inode == parent
        },
        NodeView::File(file) => {
            &&& e.t == InodeId::BasicFile
            &&& file_name(file.path) is Some
            &&& is_called(e, file_name(file.path).unwrap())
            &&& exists|added: AddedView| #[trigger]
                holds_contents(p.data, added, file.bytes) && has_inode(
                    p,
                    e,
                    file.header,
                    file_body(added, file.bytes.len()),
                ) && (added is Fragment) == (0 < file.bytes.len() < p.data.block_size)
        },
        NodeView::Symlink(symlink) => {
            &&& e.t == InodeId::BasicSymlink
            &&& is_called(e, encode_utf8(symlink.original))
            &&& has_inode(
                p,
                e,
                symlink.header,
                InodeBody::Symlink {
                    link_count: 1,
                    target_size: (encode_utf8(symlink.link).len() % 0x1_0000_0000) as u32,
                    target_path: encode_utf8(symlink.link),
                },
            )
        },
    }
}

/// The records of a listing, one behind the other.
pub open spec fn listing_record(listing: Seq<Seq<EntryView>>) -> Seq<u8>
    decreases listing.len(),
{
    if listing.len() == 0 {
        Seq::empty()
    } else {
        listing_record(listing.drop_last()) + run_record(listing.last())
    }
}

/// The size that is recorded of a listing.
pub open spec fn listing_size(listing: Seq<Seq<EntryView>>) -> nat
    decreases listing.len(),
{
    if listing.len() == 0 {
        3
    } else {
        listing_size(listing.drop_last()) + run_record(listing.last()).len() % 0x1_0000
    }
}

/// Whether the directory `d` has a listing of `entries`.
#[verifier::opaque]
pub open spec fn has_listing(p: Progress, d: BasicDirectory, entries: Seq<EntryView>) -> bool {
    &&& d.file_size == listing_size(runs(by_name(entries)))
    &&& exists|at: int| #[trigger]
        refers(
            p,
            p.dirs,
            at,
            listing_record(runs(by_name(entries))),
            d.block_index,
            d.block_offset,
        )
}

/// Whether `seats` gives each of `n` places an entry of its own, of `n` entries.
pub open spec fn is_seating(seats: Seq<int>, n: nat) -> bool {
    &&& seats.len() == n
    &&& forall|i: int| 0 <= i < n ==> 0 <= #[trigger] seats[i] < n
    &&& forall|i: int, j: int| 0 <= i < j < n ==> #[trigger] seats[i] != #[trigger] seats[j]
}

/// How many of `children` have places below them.
pub open spec fn dir_count(children: Seq<Tree>) -> nat
    decreases children.len(),
{
    if children.len() == 0 {
        0
    } else {
        dir_count(children.drop_last()) + if children.last().children.len() > 0 {
            1nat
        } else {
            0nat
        }
    }
}

/// How many places there are in those of `children` that have places below them.
pub open spec fn dir_places(children: Seq<Tree>) -> nat
    decreases children.len(),
{
    if children.len() == 0 {
        0
    } else {
        dir_places(children.drop_last()) + if children.last().children.len() > 0 {
            places(children.last())
        } else {
            0nat
        }
    }
}

/// The number that is due to the `i`th child of the directory with the inode `parent`. Children with places
/// below them come first, each followed by all that is below it, and then the others.
pub open spec fn child_number(children: Seq<Tree>, parent: int, i: int) -> int {
    if children[i].children.len() > 0 {
        parent + 1 + dir_places(children.take(i))
    } else {
        parent + 1 + dir_places(children) + (i - dir_count(children.take(i)))
    }
}

/// Whether the entry `e`, of the directory with the inode `parent`, leads to the place `t` and to all that
/// is below it: its inode is recorded, and if it has children, the listing of the directory has one entry
/// for each of them, which leads to it, and no other. The directories have the metadata `header`, and the
/// inodes of the children have the numbers that are due to them.
#[verifier::opaque]
pub open spec fn shows(p: Progress, e: EntryView, t: Tree, header: FilesystemHeader, parent: u32) -> bool
    decreases t,
{
    if t.children.len() == 0 {
        t.node is Some && shows_leaf(p, e, t.name, t.node.unwrap(), parent)
    } else {
        &&& e.t == InodeId::BasicDirectory
        &&& is_called(e, t.name)
        &&& exists|d: BasicDirectory, entries: Seq<EntryView>, seats: Seq<int>|
            {
                &&& #[trigger] has_listing(p, d, entries)
                &&& has_inode(p, e, header, InodeBody::Directory(d))
                &&& d.link_count == 2
                &&& d.parent_inode == parent
                &&& entries.len() == t.children.len()
                &&& #[trigger] is_seating(seats, entries.len())
                &&& forall|i: int|
                    #![trigger t.children[i]]
                    0 <= i < t.children.len() ==> shows(
                        p,
                        entries[seats[i]],
                        t.children[i],
                        header,
                        e.inode,
                    ) && entries[seats[i]].inode == child_number(t.children, e.inode as int, i)
            }
    }
}

proof fn refers_on(p: Progress, q: Progress, s: Seq<u8>, t: Seq<u8>, at: int, record: Seq<u8>, start: u32,
    offset: u16)
    requires
        p.data.compressor == q.data.compressor,
        s.is_prefix_of(t),
        refers(p, s, at, record, start, offset),
    ensures
        refers(q, t, at, record, start, offset),
{
    stands_still(s, t, at, record);
    assert(s.take(at) =~= t.take(at)) by {
        assert forall|i: int| 0 <= i < at implies s[i] == t[i] by {
            assert(t[i] == t.subrange(0, s.len() as int)[i]);
        }
    }
}

proof fn has_inode_on(p: Progress, q: Progress, e: EntryView, header: FilesystemHeader, body: InodeBody)
    requires
        grows(p, q),
        has_inode(p, e, header, body),
    ensures
        has_inode(q, e, header, body),
{
    reveal(has_inode);
    growing_keeps_parameters(p.data, q.data);
    let record = inode_record(e.t, header.spec_numbered(e.inode), body);
    let at = choose|at: int| #[trigger] refers(p, p.inodes, at, record, e.start, e.offset);
    refers_on(p, q, p.inodes, q.inodes, at, record, e.start, e.offset);
}

proof fn has_listing_on(p: Progress, q: Progress, d: BasicDirectory, entries: Seq<EntryView>)
    requires
        grows(p, q),
        has_listing(p, d, entries),
    ensures
        has_listing(q, d, entries),
{
    reveal(has_listing);
    growing_keeps_parameters(p.data, q.data);
    let record = listing_record(runs(by_name(entries)));
    let at = choose|at: int| #[trigger] refers(p, p.dirs, at, record, d.block_index, d.block_offset);
    refers_on(p, q, p.dirs, q.dirs, at, record, d.block_index, d.block_offset);
}

proof fn holds_contents_on(a: DataView, b: DataView, added: AddedView, bytes: Seq<u8>)
    requires
        data_grows(a, b),
        holds_contents(a, added, bytes),
    ensures
        holds_contents(b, added, bytes),
{
    reveal(data_grows);
    match added {
        AddedView::Data { blocks_start, block_sizes } => {
            stands_still(
                a.data,
                b.data,
                blocks_start - a.data_start,
                file_blocks(a.compressor, a.block_size, bytes),
            );
        },
        AddedView::Fragment { frag_index, block_offset } => {
            let f = choose|f: Seq<u8>| #[trigger]
                fragment_begins(a, frag_index as int, f) && stands_at(f, block_offset as int, bytes);
            assert(fragment_begins(b, frag_index as int, f));
        },
    }
}

proof fn shows_leaf_on(p: Progress, q: Progress, e: EntryView, name: Seq<u8>, node: NodeView, parent: u32)
    requires
        grows(p, q),
        shows_leaf(p, e, name, node, parent),
    ensures
        shows_leaf(q, e, name, node, parent),
{
    reveal(shows_leaf);
    match node {
        NodeView::Path(path) => {
            let d = choose|d: BasicDirectory| #[trigger]
                has_inode(p, e, path.header, InodeBody::Directory(d)) && d.file_size == 3 && d.link_count
                    == 2 && d.parent_inode == parent;
            has_inode_on(p, q, e, path.header, InodeBody::Directory(d));
        },
        NodeView::File(file) => {
            let added = choose|added: AddedView| #[trigger]
                holds_contents(p.data, added, file.bytes) && has_inode(
                    p,
                    e,
                    file.header,
                    file_body(added, file.bytes.len()),
                ) && (added is Fragment) == (0 < file.bytes.len() < p.data.block_size);
            growing_keeps_parameters(p.data, q.data);
            holds_contents_on(p.data, q.data, added, file.bytes);
            has_inode_on(p, q, e, file.header, file_body(added, file.bytes.len()));
        },
        NodeView::Symlink(symlink) => {
            has_inode_on(
                p,
                q,
                e,
                symlink.header,
                InodeBody::Symlink {
                    link_count: 1,
                    target_size: (encode_utf8(symlink.link).len() % 0x1_0000_0000) as u32,
                    target_path: encode_utf8(symlink.link),
                },
            );
        },
    }
}

/// What an entry leads to it leads to still when more is written.
pub proof fn shows_on(
    p: Progress,
    q: Progress,
    e: EntryView,
    t: Tree,
    header: FilesystemHeader,
    parent: u32,
)
    requires
        grows(p, q),
        shows(p, e, t, header, parent),
    ensures
        shows(q, e, t, header, parent),
    decreases t,
{
    reveal(shows);
    if t.children.len() == 0 {
        shows_leaf_on(p, q, e, t.name, t.node.unwrap(), parent);
    } else {
        let (d, entries, seats) = choose|d: BasicDirectory, entries: Seq<EntryView>, seats: Seq<int>|
            {
                &&& #[trigger] has_listing(p, d, entries)
                &&& has_inode(p, e, header, InodeBody::Directory(d))
                &&& d.link_count == 2
                &&& d.parent_inode == parent
                &&& entries.len() == t.children.len()
                &&& #[trigger] is_seating(seats, entries.len())
                &&& forall|i: int|
                    #![trigger t.children[i]]
                    0 <= i < t.children.len() ==> shows(
                        p,
                        entries[seats[i]],
                        t.children[i],
                        header,
                        e.inode,
                    ) && entries[seats[i]].inode == child_number(t.children, e.inode as int, i)
            };
        has_listing_on(p, q, d, entries);
        has_inode_on(p, q, e, header, InodeBody::Directory(d));
        assert forall|i: int| #![trigger t.children[i]] 0 <= i < t.children.len() implies shows(
            q,
            entries[seats[i]],
            t.children[i],
            header,
            e.inode,
        ) && entries[seats[i]].inode == child_number(t.children, e.inode as int, i) by {
            shows_on(p, q, entries[seats[i]], t.children[i], header, e.inode);
        }
    }
}

proof fn directory_is_shown(
    p: Progress,
    e: EntryView,
    t: Tree,
    header: FilesystemHeader,
    parent: u32,
    d: BasicDirectory,
    entries: Seq<EntryView>,
    seats: Seq<int>,
)
    requires
        t.children.len() > 0,
        e.t == InodeId::BasicDirectory,
        is_called(e, t.name),
        has_listing(p, d, entries),
        has_inode(p, e, header, InodeBody::Directory(d)),
        d.link_count == 2,
        d.parent_inode == parent,
        entries.len() == t.children.len(),
        is_seating(seats, entries.len()),
        forall|i: int|
            #![trigger t.children[i]]
            0 <= i < t.children.len() ==> shows(p, entries[seats[i]], t.children[i], header, e.inode)
                && entries[seats[i]].inode == child_number(t.children, e.inode as int, i),
    ensures
        shows(p, e, t, header, parent),
{
    reveal(shows);
}

proof fn leaf_place_is_shown(p: Progress, e: EntryView, t: Tree, header: FilesystemHeader, parent: u32)
    requires
        t.children.len() == 0,
        t.node is Some,
        shows_leaf(p, e, t.name, t.node.unwrap(), parent),
    ensures
        shows(p, e, t, header, parent),
{
    reveal(shows);
}

/// The contents of a file are stored where adding them says.
pub proof fn added_is_held(d: DataView, bytes: Seq<u8>)
    requires
        d.added(bytes) is Some,
    ensures
        holds_contents(d.added(bytes).unwrap().1, d.added(bytes).unwrap().0, bytes),
{
    let (added, b) = d.added(bytes).unwrap();
    match added {
        AddedView::Data { blocks_start, block_sizes } => {
            let s = file_blocks(d.compressor, d.block_size, bytes);
            assert(b.data.subrange(d.data.len() as int, d.data.len() + s.len() as int) =~= s);
        },
        AddedView::Fragment { frag_index, block_offset } => {
            assert(b.fragment =~= b.fragment.subrange(0, b.fragment.len() as int));
            assert(fragment_begins(b, frag_index as int, b.fragment));
            assert(b.fragment.subrange(block_offset as int, block_offset + bytes.len()) =~= bytes);
        },
    }
}

proof fn entered_has_inode(
    p: Progress,
    id: InodeId,
    header: FilesystemHeader,
    number: u32,
    body: InodeBody,
    name: Seq<u8>,
)
    requires
        entered(p, id, header, number, body, name) is Some,
    ensures
        ({
            let (e, q) = entered(p, id, header, number, body, name).unwrap();
            &&& has_inode(q, e, header, body)
            &&& is_called(e, name)
            &&& e.t == id
            &&& e.inode == number
            &&& q.inode == p.inode
            &&& q.data == p.data
            &&& q.dirs == p.dirs
        }),
{
    reveal(has_inode);
    let (e, q) = entered(p, id, header, number, body, name).unwrap();
    let record = inode_record(id, header.spec_numbered(number), body);
    let at = p.inodes.len() as int;
    block_start_grows(p.data.compressor, p.inodes, record);
    assert(q.inodes.take(at) =~= p.inodes);
    assert(q.inodes.subrange(at, at + record.len()) =~= record);
    assert(e.t == id && e.inode == number);
    assert(record == inode_record(e.t, header.spec_numbered(e.inode), body));
    assert(refers(q, q.inodes, at, record, e.start, e.offset));
}

/// The entry of a node with nothing below it leads to the node.
pub proof fn leaf_is_shown(p: Progress, name: Seq<u8>, node: NodeView, parent: u32)
    requires
        leaf_written(p, name, node, parent) is Some,
    ensures
        ({
            let (e, q) = leaf_written(p, name, node, parent).unwrap();
            shows_leaf(q, e, name, node, parent) && e.inode == p.inode && q.inode == p.inode + 1
        }),
{
    reveal(shows_leaf);
    reveal(leaf_written);
    let (e, r) = leaf_written(p, name, node, parent).unwrap();
    let q = counted(p).unwrap();
    match node {
        NodeView::Path(path) => {
            let d = BasicDirectory {
                block_index: start_of(p, p.dirs),
                link_count: 2,
                file_size: 3,
                block_offset: block_offset(p.dirs),
                parent_inode: parent,
            };
            entered_has_inode(
                q,
                InodeId::BasicDirectory,
                path.header,
                p.inode,
                InodeBody::Directory(d),
                name,
            );
            assert(has_inode(r, e, path.header, InodeBody::Directory(d)));
        },
        NodeView::File(file) => {
            let (added, data) = p.data.added(file.bytes).unwrap();
            added_is_held(p.data, file.bytes);
            entered_has_inode(
                Progress { data, ..q },
                InodeId::BasicFile,
                file.header,
                p.inode,
                file_body(added, file.bytes.len()),
                file_name(file.path).unwrap(),
            );
            assert(holds_contents(r.data, added, file.bytes));
        },
        NodeView::Symlink(symlink) => {
            entered_has_inode(
                q,
                InodeId::BasicSymlink,
                symlink.header,
                p.inode,
                InodeBody::Symlink {
                    link_count: 1,
                    target_size: (encode_utf8(symlink.link).len() % 0x1_0000_0000) as u32,
                    target_path: encode_utf8(symlink.link),
                },
                encode_utf8(symlink.original),
            );
        },
    }
}

/// The entries of several such nodes lead to these, in their order.
pub proof fn leaves_are_shown(p: Progress, leaves: Seq<(Seq<u8>, NodeView)>, parent: u32)
    requires
        leaves_written(p, leaves, parent) is Some,
    ensures
        ({
            let (entries, q) = leaves_written(p, leaves, parent).unwrap();
            &&& entries.len() == leaves.len()
            &&& q.inode == p.inode + leaves.len()
            &&& forall|k: int|
                0 <= k < leaves.len() ==> shows_leaf(
                    q,
                    #[trigger] entries[k],
                    leaves[k].0,
                    leaves[k].1,
                    parent,
                ) && entries[k].inode == p.inode + k
        }),
    decreases leaves.len(),
{
    if leaves.len() > 0 {
        let front = leaves.drop_last();
        let last = leaves.last();
        leaves_are_shown(p, front, parent);
        let (before, q) = leaves_written(p, front, parent).unwrap();
        leaf_is_shown(q, last.0, last.1, parent);
        leaf_grows(q, last.0, last.1, parent);
        let (entries, r) = leaves_written(p, leaves, parent).unwrap();
        assert forall|k: int| 0 <= k < leaves.len() implies shows_leaf(
            r,
            #[trigger] entries[k],
            leaves[k].0,
            leaves[k].1,
            parent,
        ) && entries[k].inode == p.inode + k by {
            if k < front.len() {
                assert(entries[k] == before[k]);
                assert(front[k] == leaves[k]);
                shows_leaf_on(q, r, before[k], leaves[k].0, leaves[k].1, parent);
            }
        }
    }
}

proof fn listing_stands(p: Progress, listing: Seq<Seq<EntryView>>)
    requires
        listed(p, listing) is Some,
    ensures
        ({
            let (q, size) = listed(p, listing).unwrap();
            &&& q.dirs == p.dirs + listing_record(listing)
            &&& size == listing_size(listing)
            &&& q == (Progress { dirs: q.dirs, ..p })
            &&& listing.len() > 0 ==> block_start(p.data.compressor, q.dirs) <= u32::MAX
        }),
    decreases listing.len(),
{
    if listing.len() == 0 {
        assert(p.dirs + listing_record(listing) =~= p.dirs);
    } else {
        listing_stands(p, listing.drop_last());
        let q = listed(p, listing).unwrap().0;
        assert(q.dirs =~= p.dirs + listing_record(listing));
    }
}

proof fn directory_is_held(
    p: Progress,
    name: Seq<u8>,
    entries: Seq<EntryView>,
    header: Option<FilesystemHeader>,
    number: u32,
    parent: u32,
)
    requires
        directory_written(p, name, entries, header, number, parent) is Some,
        entries.len() > 0,
    ensures
        ({
            let (e, q) = directory_written(p, name, entries, header, number, parent).unwrap();
            &&& header is Some
            &&& e.t == InodeId::BasicDirectory
            &&& e.inode == number
            &&& q.inode == p.inode
            &&& is_called(e, name)
            &&& exists|d: BasicDirectory| #[trigger]
                has_listing(q, d, entries) && has_inode(
                    q,
                    e,
                    header.unwrap(),
                    InodeBody::Directory(d),
                ) && d.link_count == 2 && d.parent_inode == parent
        }),
{
    reveal(has_listing);
    reveal(directory_written);
    let listing = runs(by_name(entries));
    let record = listing_record(listing);
    let (q, file_size) = listed(p, listing).unwrap();
    let (e, r) = directory_written(p, name, entries, header, number, parent).unwrap();
    let d = BasicDirectory {
        block_index: start_of(p, p.dirs),
        link_count: 2,
        file_size,
        block_offset: block_offset(p.dirs),
        parent_inode: parent,
    };
    listing_stands(p, listing);
    entered_has_inode(
        q,
        InodeId::BasicDirectory,
        header.unwrap(),
        number,
        InodeBody::Directory(d),
        name,
    );
    by_name_sorts(entries);
    runs_hold_entries(by_name(entries));
    assert(listing.len() > 0) by {
        if listing.len() == 0 {
            assert(joined(listing) =~= Seq::empty());
        }
    }
    let at = p.dirs.len() as int;
    block_start_grows(p.data.compressor, p.dirs, record);
    assert(r.dirs.take(at) =~= p.dirs);
    assert(r.dirs.subrange(at, at + record.len()) =~= record);
    assert(refers(r, r.dirs, at, record, d.block_index, d.block_offset));
    assert(has_listing(r, d, entries));
}

/// What is counted of more children is no less, and grows by no more than one with each.
pub proof fn dir_count_grows(children: Seq<Tree>, i: int, j: int)
    requires
        0 <= i <= j <= children.len(),
    ensures
        dir_count(children.take(i)) <= dir_count(children.take(j)) <= dir_count(children.take(i)) + j - i,
        i < children.len() ==> dir_count(children.take(i + 1)) == dir_count(children.take(i))
            + if children[i].children.len() > 0 {
            1nat
        } else {
            0nat
        },
    decreases j - i,
{
    if i < children.len() {
        assert(children.take(i + 1).drop_last() =~= children.take(i));
    }
    if i < j {
        assert(children.take(j).drop_last() =~= children.take(j - 1));
        dir_count_grows(children, i, j - 1);
    }
}

/// The places in several trees are those in the ones with places below them, and one for each other.
pub proof fn places_of_children(children: Seq<Tree>)
    ensures
        all_places(children) == dir_places(children) + children.len() - dir_count(children),
        dir_count(children) <= children.len(),
    decreases children.len(),
{
    if children.len() > 0 {
        places_of_children(children.drop_last());
        let last = children.last();
        assert(places(last) == 1 + all_places(last.children));
    }
}

/// The entry that a child is given: those with places below them come first.
spec fn seat(children: Seq<Tree>, i: int) -> int {
    let k = dir_count(children.take(i));
    if children[i].children.len() > 0 {
        k as int
    } else {
        dir_count(children) + (i - k)
    }
}

proof fn seats_are_seating(children: Seq<Tree>)
    ensures
        is_seating(Seq::new(children.len(), |i: int| seat(children, i)), children.len()),
{
    let n = children.len() as int;
    let seats = Seq::new(children.len(), |i: int| seat(children, i));
    assert(children.take(n) =~= children);
    assert forall|i: int| 0 <= i < n implies 0 <= #[trigger] seats[i] < n by {
        dir_count_grows(children, i, n);
        dir_count_grows(children, i + 1, n);
        dir_count_grows(children, 0, i);
    }
    assert forall|i: int, j: int| 0 <= i < j < n implies #[trigger] seats[i] != #[trigger] seats[j] by {
        dir_count_grows(children, i, j);
        dir_count_grows(children, i + 1, j);
        dir_count_grows(children, i + 1, n);
        dir_count_grows(children, j, n);
        dir_count_grows(children, j + 1, n);
        dir_count_grows(children, 0, i);
        dir_count_grows(children, 0, j);
    }
}

proof fn entry_shows_child(
    below: Written,
    leaf_entries: Seq<EntryView>,
    r: Progress,
    end: Progress,
    children: Seq<Tree>,
    header: FilesystemHeader,
    number: u32,
    i: int,
)
    requires
        holds_dirs(below, children, header, number),
        holds_leaves(below, children),
        leaf_entries.len() == below.leaves.len(),
        forall|k: int|
            0 <= k < below.leaves.len() ==> shows_leaf(
                r,
                #[trigger] leaf_entries[k],
                below.leaves[k].0,
                below.leaves[k].1,
                number,
            ) && leaf_entries[k].inode == below.progress.inode + k,
        grows(below.progress, end),
        grows(r, end),
        0 <= i < children.len(),
    ensures
        below.entries.len() + leaf_entries.len() == children.len(),
        shows(
            end,
            (below.entries + leaf_entries)[seat(children, i)],
            children[i],
            header,
            number,
        ),
        (below.entries + leaf_entries)[seat(children, i)].inode == child_number(children, number as int, i),
{
    let c = children[i];
    let k = dir_count(children.take(i)) as int;
    let n = children.len() as int;
    let entries = below.entries + leaf_entries;
    assert(children.take(n) =~= children);
    dir_count_grows(children, i, n);
    dir_count_grows(children, i + 1, n);
    dir_count_grows(children, 0, i);
    assert(below.entries.len() == dir_count(children) && below.leaves.len() + dir_count(children) == n) by {
        reveal(holds_dirs);
        reveal(holds_leaves);
    }
    if c.children.len() > 0 {
        assert(entries[seat(children, i)] == below.entries[k]);
        assert(shows(below.progress, below.entries[k], c, header, number) && below.entries[k].inode
            == child_number(children, number as int, i)) by {
            reveal(holds_dirs);
        }
        shows_on(below.progress, end, below.entries[k], c, header, number);
    } else {
        assert(entries[seat(children, i)] == leaf_entries[i - k]);
        assert(c.node is Some && below.leaves[i - k] == (c.name, c.node.unwrap())) by {
            reveal(holds_leaves);
        }
        assert(below.progress.inode == number + 1 + dir_places(children)) by {
            reveal(holds_dirs);
        }
        shows_leaf_on(r, end, leaf_entries[i - k], c.name, c.node.unwrap(), number);
        leaf_place_is_shown(end, leaf_entries[i - k], c, header, number);
    }
}

proof fn entries_show_children(
    below: Written,
    leaf_entries: Seq<EntryView>,
    r: Progress,
    end: Progress,
    children: Seq<Tree>,
    header: FilesystemHeader,
    number: u32,
)
    requires
        holds_dirs(below, children, header, number),
        holds_leaves(below, children),
        leaf_entries.len() == below.leaves.len(),
        forall|k: int|
            0 <= k < below.leaves.len() ==> shows_leaf(
                r,
                #[trigger] leaf_entries[k],
                below.leaves[k].0,
                below.leaves[k].1,
                number,
            ) && leaf_entries[k].inode == below.progress.inode + k,
        grows(below.progress, end),
        grows(r, end),
    ensures
        below.entries.len() + leaf_entries.len() == children.len(),
        forall|i: int|
            #![trigger children[i]]
            0 <= i < children.len() ==> shows(
                end,
                (below.entries + leaf_entries)[seat(children, i)],
                children[i],
                header,
                number,
            ) && (below.entries + leaf_entries)[seat(children, i)].inode == child_number(
                children,
                number as int,
                i,
            ),
{
    assert(below.entries.len() + leaf_entries.len() == children.len()) by {
        reveal(holds_dirs);
        reveal(holds_leaves);
    }
    assert forall|i: int| #![trigger children[i]] 0 <= i < children.len() implies shows(
        end,
        (below.entries + leaf_entries)[seat(children, i)],
        children[i],
        header,
        number,
    ) && (below.entries + leaf_entries)[seat(children, i)].inode == child_number(
        children,
        number as int,
        i,
    ) by {
        entry_shows_child(below, leaf_entries, r, end, children, header, number, i);
    }
}

/// The entry of a place with others below it leads to the place and to all that is below it.
pub proof fn node_is_shown(p: Progress, t: Tree, header: Option<FilesystemHeader>, parent: u32)
    requires
        node_written(p, t, header, parent) is Some,
        t.children.len() > 0,
    ensures
        ({
            let w = node_written(p, t, header, parent).unwrap();
            &&& header is Some
            &&& w.entries.len() == 1
            &&& w.entries[0].inode == p.inode
            &&& w.reference == reference_to(w.entries[0])
            &&& w.progress.inode == p.inode + places(t)
            &&& shows(w.progress, w.entries[0], t, header.unwrap(), parent)
        }),
    decreases t, 1int,
{
    let q = counted(p).unwrap();
    let below = children_written(q, t.children, header, p.inode).unwrap();
    let (leaf_entries, r) = leaves_written(below.progress, below.leaves, p.inode).unwrap();
    let entries = below.entries + leaf_entries;
    let (e, end) = directory_written(r, t.name, entries, header, p.inode, parent).unwrap();
    children_are_shown(q, t.children, header, p.inode);
    leaves_are_shown(below.progress, below.leaves, p.inode);
    leaves_grow(below.progress, below.leaves, p.inode);
    directory_grows(r, t.name, entries, header, p.inode, parent);
    grows_on(below.progress, r, end);
    entries_show_children(below, leaf_entries, r, end, t.children, header.unwrap(), p.inode);
    directory_is_held(r, t.name, entries, header, p.inode, parent);
    places_of_children(t.children);
    assert(end.inode == p.inode + places(t)) by {
        reveal(holds_dirs);
        reveal(holds_leaves);
    }
    seats_are_seating(t.children);
    let seats = Seq::new(t.children.len(), |i: int| seat(t.children, i));
    let d = choose|d: BasicDirectory| #[trigger]
        has_listing(end, d, entries) && has_inode(
            end,
            e,
            header.unwrap(),
            InodeBody::Directory(d),
        ) && d.link_count == 2 && d.parent_inode == parent;
    directory_is_shown(end, e, t, header.unwrap(), parent, d, entries, seats);
}

/// Whether the entries of `b` lead to those of `children` with places below them, which are in the directory
/// with the inode `parent`.
#[verifier::opaque]
spec fn holds_dirs(b: Written, children: Seq<Tree>, header: FilesystemHeader, parent: u32) -> bool {
    &&& b.entries.len() == dir_count(children)
    &&& b.progress.inode == parent + 1 + dir_places(children)
    &&& forall|i: int|
        #![trigger children[i]]
        0 <= i < children.len() && children[i].children.len() > 0 ==> {
            let e = b.entries[dir_count(children.take(i)) as int];
            shows(b.progress, e, children[i], header, parent) && e.inode == child_number(
                children,
                parent as int,
                i,
            )
        }
}

/// Whether the leaves of `b` are those of `children` with nothing below them.
#[verifier::opaque]
spec fn holds_leaves(b: Written, children: Seq<Tree>) -> bool {
    &&& b.leaves.len() + dir_count(children) == children.len()
    &&& forall|i: int|
        #![trigger children[i]]
        0 <= i < children.len() && children[i].children.len() == 0 ==> children[i].node is Some
            && b.leaves[i - dir_count(children.take(i))] == (
            children[i].name,
            children[i].node.unwrap(),
        )
}

proof fn holds_one_more_dir(
    before: Written,
    last: Written,
    b: Written,
    children: Seq<Tree>,
    header: FilesystemHeader,
    parent: u32,
)
    requires
        children.len() > 0,
        holds_dirs(before, children.drop_last(), header, parent),
        grows(before.progress, last.progress),
        b.progress == last.progress,
        b.entries == before.entries + last.entries,
        children.last().children.len() > 0 ==> {
            &&& last.entries.len() == 1
            &&& shows(last.progress, last.entries[0], children.last(), header, parent)
            &&& last.entries[0].inode == before.progress.inode
            &&& last.progress.inode == before.progress.inode + places(children.last())
        },
        children.last().children.len() == 0 ==> {
            &&& last.entries.len() == 0
            &&& last.progress == before.progress
        },
    ensures
        holds_dirs(b, children, header, parent),
{
    reveal(holds_dirs);
    let front = children.drop_last();
    let n = front.len() as int;
    assert(children.take(n) =~= front);
    assert forall|i: int|
        #![trigger children[i]]
        0 <= i < children.len() && children[i].children.len() > 0 implies {
        let e = b.entries[dir_count(children.take(i)) as int];
        shows(b.progress, e, children[i], header, parent) && e.inode == child_number(
            children,
            parent as int,
            i,
        )
    } by {
        let k = dir_count(children.take(i)) as int;
        if i < n {
            assert(front[i] == children[i]);
            assert(front.take(i) =~= children.take(i));
            dir_count_grows(children, i, n);
            dir_count_grows(children, i + 1, n);
            assert(b.entries[k] == before.entries[k]);
            shows_on(before.progress, b.progress, before.entries[k], children[i], header, parent);
        } else {
            assert(b.entries[k] == last.entries[0]);
        }
    }
}

proof fn holds_one_more_leaf(before: Written, last: Written, b: Written, children: Seq<Tree>)
    requires
        children.len() > 0,
        holds_leaves(before, children.drop_last()),
        b.leaves == before.leaves + last.leaves,
        children.last().children.len() > 0 ==> last.leaves.len() == 0,
        children.last().children.len() == 0 ==> {
            &&& children.last().node is Some
            &&& last.leaves == seq![(children.last().name, children.last().node.unwrap())]
        },
    ensures
        holds_leaves(b, children),
{
    reveal(holds_leaves);
    let front = children.drop_last();
    let n = front.len() as int;
    assert(children.take(n) =~= front);
    assert forall|i: int|
        #![trigger children[i]]
        0 <= i < children.len() && children[i].children.len() == 0 implies children[i].node is Some
        && b.leaves[i - dir_count(children.take(i))] == (
        children[i].name,
        children[i].node.unwrap(),
    ) by {
        if i < n {
            assert(front[i] == children[i]);
            assert(front.take(i) =~= children.take(i));
            dir_count_grows(children, i, n);
            dir_count_grows(children, i + 1, n);
            dir_count_grows(children, 0, i);
        }
    }
}

proof fn children_are_shown(
    p: Progress,
    children: Seq<Tree>,
    header: Option<FilesystemHeader>,
    parent: u32,
)
    requires
        children_written(p, children, header, parent) is Some,
        p.inode == parent + 1,
    ensures
        holds_dirs(
            children_written(p, children, header, parent).unwrap(),
            children,
            header.unwrap(),
            parent,
        ),
        holds_leaves(children_written(p, children, header, parent).unwrap(), children),
    decreases children, 0int,
{
    if children.len() == 0 {
        reveal(holds_dirs);
        reveal(holds_leaves);
    } else {
        let front = children.drop_last();
        children_are_shown(p, front, header, parent);
        let before = children_written(p, front, header, parent).unwrap();
        let last = node_written(before.progress, children.last(), header, parent).unwrap();
        node_grows(before.progress, children.last(), header, parent);
        if children.last().children.len() > 0 {
            node_is_shown(before.progress, children.last(), header, parent);
        }
        let b = children_written(p, children, header, parent).unwrap();
        holds_one_more_dir(before, last, b, children, header.unwrap(), parent);
        holds_one_more_leaf(before, last, b, children);
    }
}

/// The size that the inode of a directory records is three more than the length of its listing, while no part
/// under one header is longer than 16 bits can say.
pub proof fn listing_size_is_length(listing: Seq<Seq<EntryView>>)
    requires
        forall|i: int| 0 <= i < listing.len() ==> run_record(#[trigger] listing[i]).len() < 0x1_0000,
    ensures
        listing_size(listing) == 3 + listing_record(listing).len(),
    decreases listing.len(),
{
    if listing.len() > 0 {
        let front = listing.drop_last();
        assert forall|i: int| 0 <= i < front.len() implies run_record(#[trigger] front[i]).len() < 0x1_0000 by {
            assert(front[i] == listing[i]);
        }
        assert(run_record(listing[listing.len() - 1]).len() < 0x1_0000);
        listing_size_is_length(front);
    }
}

} // verus!
