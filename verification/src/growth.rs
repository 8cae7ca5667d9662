//! Writing only adds: what has been stored or recorded stays where it is.

use vstd::prelude::*;
use crate::compressor::stored;
use crate::data::{block_size_field, DataView};
use crate::entry::{by_name, runs, EntryView};
use crate::image::{children_written, counted, directory_written, leaf_written, leaves_written, listed,
    node_written, Progress};
use crate::node::{FilesystemHeader, NodeView};
use crate::tree::Tree;

verus! {

/// Whether `bytes` stand in `s` at `at`.
pub open spec fn stands_at(s: Seq<u8>, at: int, bytes: Seq<u8>) -> bool {
    &&& 0 <= at
    &&& at + bytes.len() <= s.len()
    &&& s.subrange(at, at + bytes.len()) == bytes
}

/// Whether the fragment `whole` is stored as the `i`th.
pub open spec fn fragment_is(d: DataView, i: int, whole: Seq<u8>) -> bool {
    &&& 0 <= i < d.table.len()
    &&& stands_at(d.data, d.table[i].start - d.data_start, stored(d.compressor, whole))
    &&& d.table[i].size == block_size_field(d.compressor, whole)
}

/// Whether the `i`th fragment, which is stored or being filled, begins with `f`.
pub open spec fn fragment_begins(d: DataView, i: int, f: Seq<u8>) -> bool {
    if i == d.table.len() {
        f.is_prefix_of(d.fragment)
    } else {
        exists|whole: Seq<u8>| #[trigger] fragment_is(d, i, whole) && f.is_prefix_of(whole)
    }
}

/// Whether `b` is what `a` may become: what is stored stays, and fragments keep what they begin with.
#[verifier::opaque]
pub open spec fn data_grows(a: DataView, b: DataView) -> bool {
    &&& a.compressor == b.compressor
    &&& a.block_size == b.block_size
    &&& a.data_start == b.data_start
    &&& a.data.is_prefix_of(b.data)
    &&& a.table.is_prefix_of(b.table)
    &&& forall|i: int, f: Seq<u8>| #[trigger] fragment_begins(a, i, f) ==> fragment_begins(b, i, f)
}

/// Whether `q` is what `p` may become: the tables and the data of `p` are the beginning of those of `q`.
pub open spec fn grows(p: Progress, q: Progress) -> bool {
    &&& p.inode <= q.inode
    &&& p.inodes.is_prefix_of(q.inodes)
    &&& p.dirs.is_prefix_of(q.dirs)
    &&& data_grows(p.data, q.data)
}

/// What stands somewhere stays there when more is added.
pub proof fn stands_still(s: Seq<u8>, t: Seq<u8>, at: int, bytes: Seq<u8>)
    requires
        s.is_prefix_of(t),
        stands_at(s, at, bytes),
    ensures
        stands_at(t, at, bytes),
{
    let here = s.subrange(at, at + bytes.len());
    let there = t.subrange(at, at + bytes.len());
    assert forall|i: int| 0 <= i < bytes.len() implies here[i] == there[i] by {
        assert(t[at + i] == t.subrange(0, s.len() as int)[at + i]);
    }
    assert(here =~= there);
}

proof fn stored_fragment_stays(a: DataView, b: DataView, i: int, whole: Seq<u8>)
    requires
        a.compressor == b.compressor,
        a.data_start == b.data_start,
        a.data.is_prefix_of(b.data),
        a.table.is_prefix_of(b.table),
        fragment_is(a, i, whole),
    ensures
        fragment_is(b, i, whole),
{
    assert(b.table[i] == b.table.subrange(0, a.table.len() as int)[i]);
    stands_still(a.data, b.data, a.table[i].start - a.data_start, stored(a.compressor, whole));
}

/// Growing twice is growing.
pub proof fn data_grows_on(a: DataView, b: DataView, c: DataView)
    requires
        data_grows(a, b),
        data_grows(b, c),
    ensures
        data_grows(a, c),
{
    reveal(data_grows);
    assert(a.data =~= c.data.subrange(0, a.data.len() as int)) by {
        assert forall|i: int| 0 <= i < a.data.len() implies a.data[i] == c.data[i] by {
            assert(b.data[i] == b.data.subrange(0, a.data.len() as int)[i]);
            assert(c.data[i] == c.data.subrange(0, b.data.len() as int)[i]);
        }
    }
    assert(a.table =~= c.table.subrange(0, a.table.len() as int)) by {
        assert forall|i: int| 0 <= i < a.table.len() implies a.table[i] == c.table[i] by {
            assert(b.table[i] == b.table.subrange(0, a.table.len() as int)[i]);
            assert(c.table[i] == c.table.subrange(0, b.table.len() as int)[i]);
        }
    }
}

proof fn prefix_of_prefix(a: Seq<u8>, b: Seq<u8>, c: Seq<u8>)
    requires
        a.is_prefix_of(b),
        b.is_prefix_of(c),
    ensures
        a.is_prefix_of(c),
{
    assert forall|i: int| 0 <= i < a.len() implies a[i] == c[i] by {
        assert(b[i] == b.subrange(0, a.len() as int)[i]);
        assert(c[i] == c.subrange(0, b.len() as int)[i]);
    }
    assert(a =~= c.subrange(0, a.len() as int));
}

/// Growing twice is growing.
pub proof fn grows_on(p: Progress, q: Progress, r: Progress)
    requires
        grows(p, q),
        grows(q, r),
    ensures
        grows(p, r),
{
    prefix_of_prefix(p.inodes, q.inodes, r.inodes);
    prefix_of_prefix(p.dirs, q.dirs, r.dirs);
    data_grows_on(p.data, q.data, r.data);
}

/// What nothing is written to has grown by nothing.
pub proof fn grows_by_nothing(p: Progress)
    ensures
        grows(p, p),
{
    reveal(data_grows);
    assert(p.inodes =~= p.inodes.subrange(0, p.inodes.len() as int));
    assert(p.dirs =~= p.dirs.subrange(0, p.dirs.len() as int));
    assert(p.data.data =~= p.data.data.subrange(0, p.data.data.len() as int));
    assert(p.data.table =~= p.data.table.subrange(0, p.data.table.len() as int));
}

/// Storing the fragment that is being filled keeps all that is stored.
pub proof fn flushing_grows(d: DataView)
    requires
        d.flushed() is Some,
    ensures
        data_grows(d, d.flushed().unwrap()),
{
    reveal(data_grows);
    let b = d.flushed().unwrap();
    assert(d.data =~= b.data.subrange(0, d.data.len() as int));
    assert(d.table =~= b.table.subrange(0, d.table.len() as int));
    assert forall|i: int, f: Seq<u8>| #[trigger] fragment_begins(d, i, f) implies fragment_begins(b, i, f) by {
        if d.fragment.len() > 0 {
            if i == d.table.len() {
                let s = stored(d.compressor, d.fragment);
                assert(b.data.subrange(d.data.len() as int, (d.data.len() + s.len()) as int) =~= s);
                assert(fragment_is(b, i, d.fragment));
            } else {
                let whole = choose|whole: Seq<u8>| #[trigger]
                    fragment_is(d, i, whole) && f.is_prefix_of(whole);
                stored_fragment_stays(d, b, i, whole);
            }
        }
    }
}

/// Adding the contents of a file keeps all that is stored.
pub proof fn adding_grows(d: DataView, bytes: Seq<u8>)
    requires
        d.added(bytes) is Some,
    ensures
        data_grows(d, d.added(bytes).unwrap().1),
{
    reveal(data_grows);
    let b = d.added(bytes).unwrap().1;
    if d.has_own_blocks(bytes) {
        assert(d.data =~= b.data.subrange(0, d.data.len() as int));
        assert(d.table =~= b.table.subrange(0, d.table.len() as int));
        assert forall|i: int, f: Seq<u8>| #[trigger] fragment_begins(d, i, f) implies fragment_begins(
            b,
            i,
            f,
        ) by {
            if i != d.table.len() {
                let whole = choose|whole: Seq<u8>| #[trigger]
                    fragment_is(d, i, whole) && f.is_prefix_of(whole);
                stored_fragment_stays(d, b, i, whole);
            }
        }
    } else {
        let c = if d.fragment.len() + bytes.len() > d.block_size {
            flushing_grows(d);
            d.flushed().unwrap()
        } else {
            d
        };
        assert(c.data =~= b.data.subrange(0, c.data.len() as int));
        assert(c.table =~= b.table.subrange(0, c.table.len() as int));
        assert forall|i: int, f: Seq<u8>| #[trigger] fragment_begins(c, i, f) implies fragment_begins(
            b,
            i,
            f,
        ) by {
            if i == c.table.len() {
                assert(f =~= b.fragment.subrange(0, f.len() as int)) by {
                    assert forall|k: int| 0 <= k < f.len() implies f[k] == b.fragment[k] by {
                        assert(c.fragment[k] == c.fragment.subrange(0, f.len() as int)[k]);
                    }
                }
            } else {
                let whole = choose|whole: Seq<u8>| #[trigger]
                    fragment_is(c, i, whole) && f.is_prefix_of(whole);
                stored_fragment_stays(c, b, i, whole);
            }
        }
        assert(data_grows(c, b));
        if d.fragment.len() + bytes.len() > d.block_size {
            data_grows_on(d, c, b);
        }
    }
}

/// The compressor, the size of blocks and the start of the data stay.
pub proof fn growing_keeps_parameters(a: DataView, b: DataView)
    requires
        data_grows(a, b),
    ensures
        a.compressor == b.compressor,
        a.block_size == b.block_size,
        a.data_start == b.data_start,
{
    reveal(data_grows);
}

/// Recording a node with nothing below it only adds.
pub proof fn leaf_grows(p: Progress, name: Seq<u8>, node: NodeView, parent: u32)
    requires
        leaf_written(p, name, node, parent) is Some,
    ensures
        grows(p, leaf_written(p, name, node, parent).unwrap().1),
{
    reveal(leaf_written);
    grows_by_nothing(p);
    let r = leaf_written(p, name, node, parent).unwrap().1;
    let q = match node {
        NodeView::File(file) => {
            adding_grows(p.data, file.bytes);
            Progress { data: p.data.added(file.bytes).unwrap().1, ..counted(p).unwrap() }
        },
        _ => counted(p).unwrap(),
    };
    assert(grows(p, q));
    assert(q.inodes.is_prefix_of(r.inodes)) by {
        assert(q.inodes =~= r.inodes.subrange(0, q.inodes.len() as int));
    }
    grows_by_nothing(q);
    assert(grows(q, r));
    grows_on(p, q, r);
}

/// Recording several such nodes only adds.
pub proof fn leaves_grow(p: Progress, leaves: Seq<(Seq<u8>, NodeView)>, parent: u32)
    requires
        leaves_written(p, leaves, parent) is Some,
    ensures
        grows(p, leaves_written(p, leaves, parent).unwrap().1),
    decreases leaves.len(),
{
    if leaves.len() == 0 {
        grows_by_nothing(p);
    } else {
        leaves_grow(p, leaves.drop_last(), parent);
        let q = leaves_written(p, leaves.drop_last(), parent).unwrap().1;
        leaf_grows(q, leaves.last().0, leaves.last().1, parent);
        grows_on(p, q, leaves_written(p, leaves, parent).unwrap().1);
    }
}

/// Recording a listing only adds.
pub proof fn listing_grows(p: Progress, listing: Seq<Seq<EntryView>>)
    requires
        listed(p, listing) is Some,
    ensures
        grows(p, listed(p, listing).unwrap().0),
    decreases listing.len(),
{
    if listing.len() == 0 {
        grows_by_nothing(p);
    } else {
        listing_grows(p, listing.drop_last());
        let q = listed(p, listing.drop_last()).unwrap().0;
        let r = listed(p, listing).unwrap().0;
        grows_by_nothing(q);
        assert(q.dirs =~= r.dirs.subrange(0, q.dirs.len() as int));
        grows_on(p, q, r);
    }
}

/// Recording a directory only adds.
pub proof fn directory_grows(
    p: Progress,
    name: Seq<u8>,
    entries: Seq<EntryView>,
    header: Option<FilesystemHeader>,
    number: u32,
    parent: u32,
)
    requires
        directory_written(p, name, entries, header, number, parent) is Some,
    ensures
        grows(p, directory_written(p, name, entries, header, number, parent).unwrap().1),
{
    reveal(directory_written);
    let listing = runs(by_name(entries));
    listing_grows(p, listing);
    let q = listed(p, listing).unwrap().0;
    let r = directory_written(p, name, entries, header, number, parent).unwrap().1;
    grows_by_nothing(q);
    assert(q.inodes =~= r.inodes.subrange(0, q.inodes.len() as int));
    grows_on(p, q, r);
}

/// Recording a place only adds.
pub proof fn node_grows(p: Progress, t: Tree, header: Option<FilesystemHeader>, parent: u32)
    requires
        node_written(p, t, header, parent) is Some,
    ensures
        grows(p, node_written(p, t, header, parent).unwrap().progress),
    decreases t,
{
    grows_by_nothing(p);
    if t.children.len() > 0 {
        let q = counted(p).unwrap();
        children_grow(q, t.children, header, p.inode);
        let below = children_written(q, t.children, header, p.inode).unwrap();
        leaves_grow(below.progress, below.leaves, p.inode);
        let (entries, r) = leaves_written(below.progress, below.leaves, p.inode).unwrap();
        directory_grows(r, t.name, below.entries + entries, header, p.inode, parent);
        assert(grows(p, q));
        grows_on(p, q, below.progress);
        grows_on(p, below.progress, r);
        grows_on(p, r, node_written(p, t, header, parent).unwrap().progress);
    }
}

/// Recording several places only adds.
pub proof fn children_grow(p: Progress, children: Seq<Tree>, header: Option<FilesystemHeader>, parent: u32)
    requires
        children_written(p, children, header, parent) is Some,
    ensures
        grows(p, children_written(p, children, header, parent).unwrap().progress),
    decreases children,
{
    if children.len() == 0 {
        grows_by_nothing(p);
    } else {
        children_grow(p, children.drop_last(), header, parent);
        let q = children_written(p, children.drop_last(), header, parent).unwrap().progress;
        node_grows(q, children.last(), header, parent);
        grows_on(p, q, children_written(p, children, header, parent).unwrap().progress);
    }
}

} // verus!
