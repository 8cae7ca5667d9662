//! What a reader of an image finds in it.

use vstd::prelude::*;
use vstd::utf8::encode_utf8;
use crate::entry::EntryView;
use crate::growth::{flushing_grows, grows, grows_by_nothing};
use crate::image::{all_written, beginning, directory_header, draft, reference_to, FilesystemView, Progress};
use crate::inode::{BasicDirectory, InodeBody, InodeId};
use crate::laws::{child_number, has_inode, has_listing, is_called, is_seating, node_is_shown, shows,
    shows_leaf, shows_on};
use crate::layout::recorded;
use crate::node::{FilesystemHeader, NodeView};
use crate::numbering::number_at;
use crate::path::file_name;
use crate::tree::{found_is_at_place, is_seated, last_at, last_is_there, place, places, seat_is_between,
    seat_of, tree_holds_nodes, tree_of, Tree};

verus! {

/// What the entry for a place is called: a symbolic link and a file say it themselves if there is nothing
/// below them.
pub open spec fn entry_name(t: Tree) -> Option<Seq<u8>> {
    if t.children.len() > 0 {
        Some(t.name)
    } else {
        match t.node {
            Some(NodeView::Path(_)) => Some(t.name),
            Some(NodeView::File(file)) => file_name(file.path),
            Some(NodeView::Symlink(symlink)) => Some(encode_utf8(symlink.original)),
            None => None,
        }
    }
}

/// Whether the inode of `from` is a directory with the metadata `header`, in whose listing `entry` is.
pub open spec fn lists(p: Progress, from: EntryView, header: FilesystemHeader, entry: EntryView) -> bool {
    &&& from.t == InodeId::BasicDirectory
    &&& exists|d: BasicDirectory, entries: Seq<EntryView>| #[trigger]
        has_listing(p, d, entries) && has_inode(p, from, header, InodeBody::Directory(d))
            && entries.contains(entry)
}

/// Whether one gets from one entry to another by looking up `names` in the directories on the way, each of
/// which has the metadata `header`.
pub open spec fn leads(
    p: Progress,
    from: EntryView,
    header: FilesystemHeader,
    names: Seq<Seq<u8>>,
    to: EntryView,
) -> bool
    decreases names.len(),
{
    if names.len() == 0 {
        from == to
    } else {
        exists|next: EntryView| #[trigger]
            lists(p, from, header, next) && next.name == names[0] && leads(
                p,
                next,
                header,
                names.drop_first(),
                to,
            )
    }
}

/// The entry of a place is called what it is said to be.
pub proof fn shown_is_called(p: Progress, e: EntryView, t: Tree, header: FilesystemHeader, parent: u32)
    requires
        shows(p, e, t, header, parent),
    ensures
        entry_name(t) is Some,
        is_called(e, entry_name(t).unwrap()),
{
    reveal(shows);
    reveal(shows_leaf);
}

/// From the entry that leads to a tree, looking up names leads to the entry of the place where the names
/// lead, if the entry of that place is called as the place is. Its inode has the number that is due to it.
pub proof fn lookup_leads(
    p: Progress,
    e: EntryView,
    t: Tree,
    header: FilesystemHeader,
    parent: u32,
    names: Seq<Seq<u8>>,
) -> (r: (EntryView, u32))
    requires
        shows(p, e, t, header, parent),
        place(t, names) is Some,
        match entry_name(place(t, names).unwrap()) {
            Some(name) => name == place(t, names).unwrap().name,
            None => true,
        },
    ensures
        leads(p, e, header, names, r.0),
        shows(p, r.0, place(t, names).unwrap(), header, r.1),
        r.0.inode == number_at(t, e.inode as int, names),
        r.1 == if names.len() == 0 {
            parent as int
        } else {
            number_at(t, e.inode as int, names.drop_last())
        },
        entry_name(place(t, names).unwrap()) is Some,
        is_called(r.0, entry_name(place(t, names).unwrap()).unwrap()),
    decreases names.len(),
{
    if names.len() == 0 {
        shown_is_called(p, e, t, header, parent);
        (e, parent)
    } else {
        let k = seat_of(t.children, names[0]);
        let child = t.children[k];
        let rest = names.drop_first();
        seat_is_between(t.children, names[0]);
        let next = child_entry(p, e, t, header, parent, k);
        let r = lookup_leads(p, next, child, header, e.inode, rest);
        shown_is_called(p, next, child, header, e.inode);
        assert(next.name == names[0]) by {
            if rest.len() > 0 {
                assert(child.children.len() > 0) by {
                    assert(is_seated(child.children, rest[0]));
                }
            }
        }
        assert(lists(p, e, header, next));
        if rest.len() > 0 {
            assert(names.drop_last().drop_first() =~= rest.drop_last());
        }
        r
    }
}

/// The listing of a directory has an entry for each child.
pub proof fn child_entry(
    p: Progress,
    e: EntryView,
    t: Tree,
    header: FilesystemHeader,
    parent: u32,
    k: int,
) -> (next: EntryView)
    requires
        shows(p, e, t, header, parent),
        0 <= k < t.children.len(),
    ensures
        lists(p, e, header, next),
        shows(p, next, t.children[k], header, e.inode),
        next.inode == child_number(t.children, e.inode as int, k),
{
    reveal(shows);
    let (d, entries, seats) = choose|d: BasicDirectory, entries: Seq<EntryView>, seats: Seq<int>|
        {
            &&& #[trigger] has_listing(p, d, entries)
            &&& has_inode(p, e, header, InodeBody::Directory(d))
            &&& d.link_count == 2
            &&& d.parent_inode == parent
            &&& entries.len() == t.children.len()
            &&& #[trigger] is_seating(seats, entries.len())
            &&& forall|i: int|
                #![trigger t.children[i]]
                0 <= i < t.children.len() ==> shows(
                    p,
                    entries[seats[i]],
                    t.children[i],
                    header,
                    e.inode,
                ) && entries[seats[i]].inode == child_number(t.children, e.inode as int, i)
        };
    let next = entries[seats[k]];
    assert(entries.contains(next));
    next
}

/// The superblock of an image leads to the entry of the root, and this to all places of the tree that the
/// nodes span. The root has the inode 1.
pub proof fn image_shows_tree(fs: FilesystemView) -> (root: EntryView)
    requires
        draft(fs) is Some,
        tree_of(fs.nodes).children.len() > 0,
    ensures
        draft(fs).unwrap().superblock.root_inode == reference_to(root),
        root.inode == 1,
        directory_header(tree_of(fs.nodes), fs.root_inode) is Some,
        shows(
            recorded(fs),
            root,
            tree_of(fs.nodes),
            directory_header(tree_of(fs.nodes), fs.root_inode).unwrap(),
            0,
        ),
        recorded(fs).data.fragment.len() == 0,
{
    let t = tree_of(fs.nodes);
    let header = directory_header(t, fs.root_inode);
    let w = all_written(fs).unwrap();
    node_is_shown(beginning(fs), t, header, 0);
    flushing_grows(w.progress.data);
    grows_by_nothing(w.progress);
    assert(grows(w.progress, recorded(fs)));
    shows_on(w.progress, recorded(fs), w.entries[0], t, header.unwrap(), 0);
    w.entries[0]
}

/// A node is found again in the image of a filesystem: from the root, to which the superblock leads, looking
/// up the names on the way to the node leads to an entry for it. This holds of the last node whose path
/// leads there, if there are no nodes below it and a symbolic link has its own name as the last on the way.
pub proof fn node_is_found(fs: FilesystemView, names: Seq<Seq<u8>>, node: NodeView) -> (r: (
    EntryView,
    EntryView,
    u32,
))
    requires
        draft(fs) is Some,
        names.len() > 0,
        last_at(fs.nodes, names) == Some(node),
        place(tree_of(fs.nodes), names).unwrap().children.len() == 0,
        node matches NodeView::Symlink(symlink) ==> encode_utf8(symlink.original) == names.last(),
    ensures
        draft(fs).unwrap().superblock.root_inode == reference_to(r.0),
        leads(
            recorded(fs),
            r.0,
            directory_header(tree_of(fs.nodes), fs.root_inode).unwrap(),
            names,
            r.1,
        ),
        r.0.inode == 1,
        r.2 == number_at(tree_of(fs.nodes), 1, names.drop_last()),
        is_called(r.1, names.last()),
        r.1.inode == number_at(tree_of(fs.nodes), 1, names),
        shows_leaf(recorded(fs), r.1, names.last(), node, r.2),
{
    let t = tree_of(fs.nodes);
    let header = directory_header(t, fs.root_inode);
    tree_holds_nodes(fs.nodes, names);
    found_is_at_place(t, names);
    last_is_there(fs.nodes, names);
    let u = place(t, names).unwrap();
    seat_is_between(t.children, names[0]);
    let root = image_shows_tree(fs);
    let (e, parent) = lookup_leads(recorded(fs), root, t, header.unwrap(), 0, names);
    shown_is_called(recorded(fs), e, u, header.unwrap(), parent);
    assert(shows_leaf(recorded(fs), e, names.last(), node, parent)) by {
        reveal(shows);
    }
    (root, e, parent)
}

/// The superblock records one more than there are places: the number that the next inode would have.
pub proof fn inodes_are_counted(fs: FilesystemView)
    requires
        draft(fs) is Some,
        tree_of(fs.nodes).children.len() > 0,
    ensures
        draft(fs).unwrap().superblock.inode_count == 1 + places(tree_of(fs.nodes)),
{
    let t = tree_of(fs.nodes);
    node_is_shown(beginning(fs), t, directory_header(t, fs.root_inode), 0);
}

/// Where no node is below the root nothing is recorded: there are no inodes, no listings and no contents, and
/// the superblock refers to no inode.
pub proof fn bare_root_records_nothing(fs: FilesystemView)
    requires
        draft(fs) is Some,
        tree_of(fs.nodes).children.len() == 0,
    ensures
        recorded(fs).inodes.len() == 0,
        recorded(fs).dirs.len() == 0,
        recorded(fs).data.data.len() == 0,
        recorded(fs).data.table.len() == 0,
        draft(fs).unwrap().superblock.root_inode == 0,
        draft(fs).unwrap().superblock.inode_count == 1,
{
}

} // verus!
