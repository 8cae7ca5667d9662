//! What inserting files does to the nodes of a filesystem.

use vstd::prelude::*;
use crate::bytes::order_is_total;
use crate::data::AddedView;
use crate::entry::EntryView;
use crate::filesystem::{file_index, has_dir, missing_dirs, with_file};
use crate::image::{directory_header, draft, file_body, reference_to, FilesystemView};
use crate::inode::InodeId;
use crate::laws::{has_inode, holds_contents, is_called, shows_leaf};
use crate::layout::recorded;
use crate::node::{FileView, FilesystemHeader, NodeView, PathView};
use crate::path::{absolute, are_names, location, location_has_names, location_of_absolute, same_path,
    same_path_leads_alike};
use crate::reading::{leads, node_is_found};
use crate::tree::{found, found_is_at_place, is_ordered, last_at, last_at_is_last, last_is_there,
    leaves_have_nodes, place, seat_is_between, seat_of, tree_holds_nodes, tree_leaves_have_nodes, tree_of,
    Tree};

verus! {

/// Whether `inner` leads from the root over all of `outer` and further.
pub open spec fn is_below(inner: Seq<Seq<u8>>, outer: Seq<Seq<u8>>) -> bool {
    outer.len() < inner.len() && inner.take(outer.len() as int) == outer
}

/// Whether `node` is a directory on the way over `names`, with the metadata `header`, at a place where
/// `nodes` hold no directory.
pub open spec fn fills_gap(
    nodes: Seq<NodeView>,
    names: Seq<Seq<u8>>,
    header: FilesystemHeader,
    node: NodeView,
) -> bool {
    let there = location(node.path());
    &&& node == NodeView::Path(PathView { header, path: absolute(there) })
    &&& 0 < there.len()
    &&& is_below(names, there)
    &&& !has_dir(nodes, there)
}

proof fn first_names(names: Seq<Seq<u8>>, k: int)
    requires
        are_names(names),
        0 <= k <= names.len(),
    ensures
        location(absolute(names.take(k))) == names.take(k),
{
    assert(are_names(names.take(k)));
    location_of_absolute(names.take(k));
}

proof fn missing_fill_gaps(nodes: Seq<NodeView>, names: Seq<Seq<u8>>, count: int, header: FilesystemHeader)
    requires
        are_names(names),
        count < names.len() || count <= 0,
    ensures
        ({
            let dirs = missing_dirs(nodes, names, count, header);
            &&& forall|i: int|
                0 <= i < dirs.len() ==> fills_gap(nodes, names, header, #[trigger] dirs[i]) && location(
                    dirs[i].path(),
                ).len() <= count
            &&& forall|k: int|
                1 <= k <= count && !has_dir(nodes, names.take(k)) ==> dirs.contains(
                    NodeView::Path(PathView { header, path: absolute(#[trigger] names.take(k)) }),
                )
            &&& forall|i: int, j: int|
                0 <= i < j < dirs.len() ==> location((#[trigger] dirs[i]).path()).len() < location(
                    (#[trigger] dirs[j]).path(),
                ).len()
        }),
    decreases count,
{
    if count > 0 {
        let before = missing_dirs(nodes, names, count - 1, header);
        let dirs = missing_dirs(nodes, names, count, header);
        missing_fill_gaps(nodes, names, count - 1, header);
        first_names(names, count);
        assert(names.take(count).len() == count);
        if !has_dir(nodes, names.take(count)) {
            assert(dirs.last() == NodeView::Path(PathView { header, path: absolute(names.take(count)) }));
        }
        assert forall|k: int| 1 <= k <= count && !has_dir(nodes, names.take(k)) implies dirs.contains(
            NodeView::Path(PathView { header, path: absolute(#[trigger] names.take(k)) }),
        ) by {
            let dir = NodeView::Path(PathView { header, path: absolute(names.take(k)) });
            if k < count {
                let i = choose|i: int| 0 <= i < before.len() && before[i] == dir;
                assert(dirs[i] == dir);
            } else {
                assert(dirs[before.len() as int] == dir);
            }
        }
    }
}

/// Inserting a file keeps all nodes where they are and puts the file at the end. All that is new between
/// them are directories on the way to the file that were missing, outermost first, with the metadata of
/// the file.
pub proof fn pushing_keeps_nodes(nodes: Seq<NodeView>, file: FileView)
    ensures
        ({
            let after = with_file(nodes, file);
            &&& nodes.len() < after.len()
            &&& after.take(nodes.len() as int) == nodes
            &&& after.last() == NodeView::File(file)
            &&& forall|i: int|
                nodes.len() <= i < after.len() - 1 ==> fills_gap(
                    nodes,
                    location(file.path),
                    file.header,
                    #[trigger] after[i],
                )
            &&& forall|i: int, j: int|
                nodes.len() <= i < j < after.len() - 1 ==> location((#[trigger] after[i]).path()).len()
                    < location((#[trigger] after[j]).path()).len()
        }),
{
    let names = location(file.path);
    let dirs = missing_dirs(nodes, names, names.len() - 1, file.header);
    let after = with_file(nodes, file);
    location_has_names(file.path);
    missing_fill_gaps(nodes, names, names.len() - 1, file.header);
    assert(after.take(nodes.len() as int) =~= nodes);
    assert(forall|i: int| nodes.len() <= i < after.len() - 1 ==> #[trigger] after[i] == dirs[i - nodes.len()]);
}

/// After a file was inserted there is a directory at each place on the way to it.
pub proof fn pushing_makes_dirs(nodes: Seq<NodeView>, file: FileView, k: int)
    requires
        1 <= k < location(file.path).len(),
    ensures
        has_dir(with_file(nodes, file), location(file.path).take(k)),
{
    let names = location(file.path);
    let dirs = missing_dirs(nodes, names, names.len() - 1, file.header);
    let after = with_file(nodes, file);
    location_has_names(file.path);
    missing_fill_gaps(nodes, names, names.len() - 1, file.header);
    if has_dir(nodes, names.take(k)) {
        let i = choose|i: int|
            0 <= i < nodes.len() && (#[trigger] nodes[i]) is Path && location(nodes[i].path()) == names.take(
                k,
            );
        assert(after[i] == nodes[i]);
    } else {
        let dir = NodeView::Path(PathView { header: file.header, path: absolute(names.take(k)) });
        let i = choose|i: int| 0 <= i < dirs.len() && dirs[i] == dir;
        assert(after[nodes.len() + i] == dir);
        first_names(names, k);
    }
}

proof fn nothing_is_missing(nodes: Seq<NodeView>, names: Seq<Seq<u8>>, count: int, header: FilesystemHeader)
    requires
        forall|k: int| 1 <= k <= count ==> has_dir(nodes, #[trigger] names.take(k)),
    ensures
        missing_dirs(nodes, names, count, header) == Seq::<NodeView>::empty(),
    decreases count,
{
    if count > 0 {
        nothing_is_missing(nodes, names, count - 1, header);
        assert(has_dir(nodes, names.take(count)));
    }
}

/// A file whose directories are all there is inserted alone.
pub proof fn pushing_adds_no_dir_twice(nodes: Seq<NodeView>, file: FileView)
    requires
        forall|k: int|
            1 <= k < location(file.path).len() ==> has_dir(nodes, #[trigger] location(file.path).take(k)),
    ensures
        with_file(nodes, file) == nodes.push(NodeView::File(file)),
{
    let names = location(file.path);
    nothing_is_missing(nodes, names, names.len() - 1, file.header);
    assert(nodes + Seq::<NodeView>::empty() =~= nodes);
}

/// A second file beside one that was inserted is inserted alone.
pub proof fn pushing_beside_adds_file(nodes: Seq<NodeView>, first: FileView, second: FileView)
    requires
        location(first.path).len() > 0,
        location(second.path).len() > 0,
        location(first.path).drop_last() == location(second.path).drop_last(),
    ensures
        with_file(with_file(nodes, first), second) == with_file(nodes, first).push(NodeView::File(second)),
{
    let a = location(first.path);
    let b = location(second.path);
    assert(a.drop_last().len() == b.drop_last().len());
    assert forall|k: int| 1 <= k < b.len() implies has_dir(
        with_file(nodes, first),
        #[trigger] location(second.path).take(k),
    ) by {
        assert(a.drop_last().take(k) =~= a.take(k));
        assert(b.drop_last().take(k) =~= b.take(k));
        pushing_makes_dirs(nodes, first, k);
    }
    pushing_adds_no_dir_twice(with_file(nodes, first), second);
}

proof fn index_behind(front: Seq<NodeView>, rest: Seq<NodeView>, path: Seq<u8>)
    requires
        forall|i: int|
            0 <= i < front.len() ==> !((#[trigger] front[i]) is File && same_path(front[i].path(), path)),
    ensures
        file_index(front + rest, path) == front.len() + file_index(rest, path),
    decreases front.len(),
{
    let all = front + rest;
    if front.len() == 0 {
        assert(all =~= rest);
    } else {
        assert(all[0] == front[0]);
        assert(all.drop_first() =~= front.drop_first() + rest);
        assert forall|i: int| 0 <= i < front.drop_first().len() implies !((
        #[trigger] front.drop_first()[i]) is File && same_path(front.drop_first()[i].path(), path)) by {
            assert(front.drop_first()[i] == front[i + 1]);
        }
        index_behind(front.drop_first(), rest, path);
    }
}

/// A file that was inserted is the one found at its path, if there was none before.
pub proof fn pushed_file_is_first(nodes: Seq<NodeView>, file: FileView)
    requires
        file_index(nodes, file.path) == nodes.len(),
    ensures
        file_index(with_file(nodes, file), file.path) == with_file(nodes, file).len() - 1,
{
    let names = location(file.path);
    let dirs = missing_dirs(nodes, names, names.len() - 1, file.header);
    let last = seq![NodeView::File(file)];
    location_has_names(file.path);
    missing_fill_gaps(nodes, names, names.len() - 1, file.header);
    no_file_before(nodes, file.path);
    assert forall|i: int| 0 <= i < (nodes + dirs).len() implies !((#[trigger] (nodes + dirs)[i]) is File
        && same_path((nodes + dirs)[i].path(), file.path)) by {
        if i >= nodes.len() {
            assert((nodes + dirs)[i] == dirs[i - nodes.len()]);
        }
    }
    index_behind(nodes + dirs, last, file.path);
    assert(with_file(nodes, file) =~= nodes + dirs + last);
}

/// Where the first file at a path is, no other file at it is in front.
pub proof fn no_file_before(nodes: Seq<NodeView>, path: Seq<u8>)
    ensures
        0 <= file_index(nodes, path) <= nodes.len(),
        forall|i: int|
            0 <= i < file_index(nodes, path) ==> !((#[trigger] nodes[i]) is File && same_path(
                nodes[i].path(),
                path,
            )),
        file_index(nodes, path) < nodes.len() ==> {
            let node = nodes[file_index(nodes, path)];
            node is File && same_path(node.path(), path)
        },
    decreases nodes.len(),
{
    if nodes.len() > 0 {
        no_file_before(nodes.drop_first(), path);
        assert forall|i: int| 0 <= i < file_index(nodes, path) implies !((#[trigger] nodes[i]) is File
            && same_path(nodes[i].path(), path)) by {
            if i > 0 {
                assert(nodes.drop_first()[i - 1] == nodes[i]);
            }
        }
    }
}

/// A file that was inserted is the node at its place, and a place that is not on the way to it has the
/// node that it had.
pub proof fn pushed_file_is_last(nodes: Seq<NodeView>, file: FileView, names: Seq<Seq<u8>>)
    ensures
        last_at(with_file(nodes, file), location(file.path)) == Some(NodeView::File(file)),
        names != location(file.path) && !is_below(location(file.path), names) ==> last_at(
            with_file(nodes, file),
            names,
        ) == last_at(nodes, names),
        has_dir(nodes, names) && names != location(file.path) ==> last_at(with_file(nodes, file), names)
            == last_at(nodes, names),
{
    let way = location(file.path);
    let dirs = missing_dirs(nodes, way, way.len() - 1, file.header);
    location_has_names(file.path);
    missing_fill_gaps(nodes, way, way.len() - 1, file.header);
    assert(with_file(nodes, file).drop_last() =~= nodes + dirs);
    if forall|i: int| 0 <= i < dirs.len() ==> location((#[trigger] dirs[i]).path()) != names {
        last_in_front(nodes, dirs, names);
    }
}

proof fn last_in_front(nodes: Seq<NodeView>, others: Seq<NodeView>, names: Seq<Seq<u8>>)
    requires
        forall|i: int| 0 <= i < others.len() ==> location((#[trigger] others[i]).path()) != names,
    ensures
        last_at(nodes + others, names) == last_at(nodes, names),
    decreases others.len(),
{
    let all = nodes + others;
    if others.len() == 0 {
        assert(all =~= nodes);
    } else {
        assert(all.drop_last() =~= nodes + others.drop_last());
        assert(all.last() == others[others.len() - 1]);
        assert forall|i: int| 0 <= i < others.drop_last().len() implies location(
            (#[trigger] others.drop_last()[i]).path(),
        ) != names by {
            assert(others.drop_last()[i] == others[i]);
        }
        last_in_front(nodes, others.drop_last(), names);
    }
}

/// A file that is replaced by one at the same place is the node there if it was the last one, and all other
/// places have the nodes that they had.
pub proof fn replaced_file_is_last(nodes: Seq<NodeView>, i: int, file: FileView, names: Seq<Seq<u8>>)
    requires
        0 <= i < nodes.len(),
        location(nodes[i].path()) == location(file.path),
        forall|j: int| i < j < nodes.len() ==> location((#[trigger] nodes[j]).path()) != location(file.path),
    ensures
        last_at(nodes.update(i, NodeView::File(file)), names) == if names == location(file.path) {
            Some(NodeView::File(file))
        } else {
            last_at(nodes, names)
        },
    decreases nodes.len(),
{
    let after = nodes.update(i, NodeView::File(file));
    if i == nodes.len() - 1 {
        assert(after.drop_last() =~= nodes.drop_last());
    } else {
        let front = nodes.drop_last();
        assert(after.drop_last() =~= front.update(i, NodeView::File(file)));
        assert(after.last() == nodes[nodes.len() - 1]);
        assert forall|j: int| i < j < front.len() implies location((#[trigger] front[j]).path()) != location(
            file.path,
        ) by {
            assert(front[j] == nodes[j]);
        }
        replaced_file_is_last(front, i, file, names);
    }
}

/// A place with something below it has a node somewhere below it.
proof fn node_below(t: Tree) -> (names: Seq<Seq<u8>>)
    requires
        is_ordered(t),
        leaves_have_nodes(t),
    ensures
        found(t, names) is Some,
        t.children.len() > 0 ==> names.len() > 0,
    decreases t,
{
    if t.children.len() == 0 {
        Seq::empty()
    } else {
        let child = t.children[0];
        assert(is_ordered(child) && leaves_have_nodes(child));
        let rest = node_below(child);
        let names = seq![child.name] + rest;
        order_is_total(child.name, child.name);
        assert(seat_of(t.children, child.name) == 0);
        assert(names.drop_first() =~= rest);
        names
    }
}

proof fn found_below(t: Tree, names: Seq<Seq<u8>>, more: Seq<Seq<u8>>)
    requires
        place(t, names) is Some,
        is_ordered(t),
        leaves_have_nodes(t),
    ensures
        found(t, names + more) == found(place(t, names).unwrap(), more),
        is_ordered(place(t, names).unwrap()),
        leaves_have_nodes(place(t, names).unwrap()),
    decreases names.len(),
{
    if names.len() == 0 {
        assert(names + more =~= more);
    } else {
        seat_is_between(t.children, names[0]);
        let child = t.children[seat_of(t.children, names[0])];
        assert(is_ordered(child) && leaves_have_nodes(child));
        assert((names + more).drop_first() =~= names.drop_first() + more);
        found_below(child, names.drop_first(), more);
    }
}

/// Where no node is below a place, the tree has nothing below it.
pub proof fn nothing_is_below(nodes: Seq<NodeView>, names: Seq<Seq<u8>>)
    requires
        nodes.len() > 0,
        place(tree_of(nodes), names) is Some,
        forall|i: int| 0 <= i < nodes.len() ==> !is_below(location((#[trigger] nodes[i]).path()), names),
    ensures
        place(tree_of(nodes), names).unwrap().children.len() == 0,
{
    let t = tree_of(nodes);
    let u = place(t, names).unwrap();
    if u.children.len() > 0 {
        tree_holds_nodes(nodes, names);
        tree_leaves_have_nodes(nodes);
        found_below(t, names, Seq::empty());
        let more = node_below(u);
        found_below(t, names, more);
        tree_holds_nodes(nodes, names + more);
        last_is_there(nodes, names + more);
        let i = choose|i: int| 0 <= i < nodes.len() && nodes[i] == last_at(nodes, names + more).unwrap();
        assert((names + more).take(names.len() as int) =~= names);
        assert(is_below(location(nodes[i].path()), names));
    }
}

/// A file that is the last node at its place, with none below it, is found again in the image of the
/// filesystem, with all its contents.
pub proof fn file_is_found(fs: FilesystemView, file: FileView) -> (r: (EntryView, EntryView, u32))
    requires
        draft(fs) is Some,
        location(file.path).len() > 0,
        last_at(fs.nodes, location(file.path)) == Some(NodeView::File(file)),
        forall|i: int|
            0 <= i < fs.nodes.len() ==> !is_below(
                location((#[trigger] fs.nodes[i]).path()),
                location(file.path),
            ),
    ensures
        draft(fs).unwrap().superblock.root_inode == reference_to(r.0),
        leads(
            recorded(fs),
            r.0,
            directory_header(tree_of(fs.nodes), fs.root_inode).unwrap(),
            location(file.path),
            r.1,
        ),
        is_called(r.1, location(file.path).last()),
        exists|added: AddedView| #[trigger]
            holds_contents(recorded(fs).data, added, file.bytes) && has_inode(
                recorded(fs),
                r.1,
                file.header,
                file_body(added, file.bytes.len()),
            ),
        r.1.t == InodeId::BasicFile,
{
    let names = location(file.path);
    tree_holds_nodes(fs.nodes, names);
    found_is_at_place(tree_of(fs.nodes), names);
    nothing_is_below(fs.nodes, names);
    let r = node_is_found(fs, names, NodeView::File(file));
    reveal(shows_leaf);
    r
}

/// A file that was inserted is found again in the image of the filesystem, with all its contents, if no node
/// was below its place.
pub proof fn pushed_file_is_found(before: FilesystemView, fs: FilesystemView, file: FileView) -> (r: (
    EntryView,
    EntryView,
    u32,
))
    requires
        fs == (FilesystemView { nodes: with_file(before.nodes, file), ..before }),
        draft(fs) is Some,
        location(file.path).len() > 0,
        forall|i: int|
            0 <= i < before.nodes.len() ==> !is_below(
                location((#[trigger] before.nodes[i]).path()),
                location(file.path),
            ),
    ensures
        draft(fs).unwrap().superblock.root_inode == reference_to(r.0),
        leads(
            recorded(fs),
            r.0,
            directory_header(tree_of(fs.nodes), fs.root_inode).unwrap(),
            location(file.path),
            r.1,
        ),
        is_called(r.1, location(file.path).last()),
        r.1.t == InodeId::BasicFile,
        exists|added: AddedView| #[trigger]
            holds_contents(recorded(fs).data, added, file.bytes) && has_inode(
                recorded(fs),
                r.1,
                file.header,
                file_body(added, file.bytes.len()),
            ),
{
    pushing_keeps_nodes(before.nodes, file);
    pushed_file_is_last(before.nodes, file, location(file.path));
    assert forall|i: int| 0 <= i < fs.nodes.len() implies !is_below(
        location((#[trigger] fs.nodes[i]).path()),
        location(file.path),
    ) by {
        if i < before.nodes.len() {
            assert(fs.nodes[i] == fs.nodes.take(before.nodes.len() as int)[i]);
        }
    }
    file_is_found(fs, file)
}

/// A file that took the place of the last node at its location is found again in the image of the
/// filesystem, with all its contents, if no node is below it.
pub proof fn replaced_file_is_found(before: FilesystemView, i: int, fs: FilesystemView, file: FileView) -> (r: (
    EntryView,
    EntryView,
    u32,
))
    requires
        0 <= i < before.nodes.len(),
        fs == (FilesystemView { nodes: before.nodes.update(i, NodeView::File(file)), ..before }),
        draft(fs) is Some,
        location(file.path).len() > 0,
        location(before.nodes[i].path()) == location(file.path),
        forall|j: int|
            i < j < before.nodes.len() ==> location((#[trigger] before.nodes[j]).path()) != location(file.path),
        forall|j: int|
            0 <= j < before.nodes.len() ==> !is_below(
                location((#[trigger] before.nodes[j]).path()),
                location(file.path),
            ),
    ensures
        draft(fs).unwrap().superblock.root_inode == reference_to(r.0),
        leads(
            recorded(fs),
            r.0,
            directory_header(tree_of(fs.nodes), fs.root_inode).unwrap(),
            location(file.path),
            r.1,
        ),
        is_called(r.1, location(file.path).last()),
        r.1.t == InodeId::BasicFile,
        exists|added: AddedView| #[trigger]
            holds_contents(recorded(fs).data, added, file.bytes) && has_inode(
                recorded(fs),
                r.1,
                file.header,
                file_body(added, file.bytes.len()),
            ),
{
    replaced_file_is_last(before.nodes, i, file, location(file.path));
    assert forall|j: int| 0 <= j < fs.nodes.len() implies !is_below(
        location((#[trigger] fs.nodes[j]).path()),
        location(file.path),
    ) by {
        if j != i {
            assert(fs.nodes[j] == before.nodes[j]);
        }
    }
    file_is_found(fs, file)
}

/// What inserting a file does, place by place. All nodes stay where they were and the file comes last. Each
/// place on the way to it then has a directory that is exactly there. Each node between the old ones and the
/// file is a directory at a place on the way where no directory was, from the root, with the metadata of the
/// file, and no two are at one place.
pub proof fn pushing_fills_the_way(nodes: Seq<NodeView>, file: FileView)
    ensures
        ({
            let after = with_file(nodes, file);
            let way = location(file.path);
            &&& nodes.len() < after.len()
            &&& forall|i: int| 0 <= i < nodes.len() ==> #[trigger] after[i] == nodes[i]
            &&& after[after.len() - 1] == NodeView::File(file)
            &&& forall|k: int|
                #![trigger way.take(k)]
                1 <= k < way.len() ==> exists|i: int|
                    0 <= i < after.len() - 1 && (#[trigger] after[i]) is Path && location(after[i].path())
                        == way.take(k)
            &&& forall|i: int|
                nodes.len() <= i < after.len() - 1 ==> {
                    let there = location((#[trigger] after[i]).path());
                    &&& after[i] is Path
                    &&& after[i]->Path_0.header == file.header
                    &&& after[i]->Path_0.path.len() > 0
                    &&& after[i]->Path_0.path[0] == 0x2f
                    &&& after[i]->Path_0.path == absolute(there)
                    &&& 0 < there.len() < way.len()
                    &&& there == way.take(there.len() as int)
                }
            &&& forall|i: int, j: int|
                nodes.len() <= i < after.len() - 1 && 0 <= j < i ==> !((#[trigger] after[j]) is Path && location(
                    after[j].path(),
                ) == location((#[trigger] after[i]).path()))
        }),
{
    let after = with_file(nodes, file);
    let way = location(file.path);
    pushing_keeps_nodes(nodes, file);
    location_has_names(file.path);
    assert forall|i: int| 0 <= i < nodes.len() implies #[trigger] after[i] == nodes[i] by {
        assert(after.take(nodes.len() as int)[i] == nodes[i]);
    }
    assert forall|k: int| #![trigger way.take(k)] 1 <= k < way.len() implies exists|i: int|
        0 <= i < after.len() - 1 && (#[trigger] after[i]) is Path && location(after[i].path()) == way.take(k) by {
        pushing_makes_dirs(nodes, file, k);
    }
    assert forall|i: int| nodes.len() <= i < after.len() - 1 implies {
        let there = location((#[trigger] after[i]).path());
        &&& after[i] is Path
        &&& after[i]->Path_0.header == file.header
        &&& after[i]->Path_0.path.len() > 0
        &&& after[i]->Path_0.path[0] == 0x2f
        &&& after[i]->Path_0.path == absolute(there)
        &&& 0 < there.len() < way.len()
        &&& there == way.take(there.len() as int)
    } by {
        let there = location(after[i].path());
        assert(fills_gap(nodes, way, file.header, after[i]));
        location_has_names(after[i].path());
        location_of_absolute(there);
    }
    assert forall|i: int, j: int| nodes.len() <= i < after.len() - 1 && 0 <= j < i implies !((
    #[trigger] after[j]) is Path && location(after[j].path()) == location((#[trigger] after[i]).path())) by {
        assert(fills_gap(nodes, way, file.header, after[i]));
        if j < nodes.len() {
            assert(nodes[j] == after[j]);
        }
    }
}

/// The directories that inserting a file makes are as few as can be: one for each place on the way to it where
/// there was none.
pub proof fn pushing_makes_only_missing(nodes: Seq<NodeView>, file: FileView, k: int)
    requires
        1 <= k < location(file.path).len(),
    ensures
        (exists|i: int|
            nodes.len() <= i < with_file(nodes, file).len() - 1 && location(
                (#[trigger] with_file(nodes, file)[i]).path(),
            ) == location(file.path).take(k)) <==> !(exists|j: int|
            0 <= j < nodes.len() && (#[trigger] nodes[j]) is Path && location(nodes[j].path()) == location(
                file.path,
            ).take(k)),
{
    let after = with_file(nodes, file);
    let way = location(file.path);
    pushing_fills_the_way(nodes, file);
    if exists|j: int|
        0 <= j < nodes.len() && (#[trigger] nodes[j]) is Path && location(nodes[j].path()) == way.take(k) {
        let j = choose|j: int|
            0 <= j < nodes.len() && (#[trigger] nodes[j]) is Path && location(nodes[j].path()) == way.take(k);
        assert(after[j] == nodes[j]);
    } else {
        assert(way.take(k) == way.take(k));
        let i = choose|i: int|
            0 <= i < after.len() - 1 && (#[trigger] after[i]) is Path && location(after[i].path()) == way.take(k);
        if i < nodes.len() {
            assert(after[i] == nodes[i]);
        }
    }
}

/// The first file at a path leads over exactly the names of the path, from the root if the path does. No file
/// in front of it does so in the same way, and where there is none at all no file does.
pub proof fn first_file_is_there(nodes: Seq<NodeView>, path: Seq<u8>)
    requires
        path.len() > 0,
        path[0] == 0x2f,
    ensures
        0 <= file_index(nodes, path) <= nodes.len(),
        file_index(nodes, path) < nodes.len() ==> {
            let node = nodes[file_index(nodes, path)];
            &&& node is File
            &&& location(node.path()) == location(path)
            &&& node.path().len() > 0
            &&& node.path()[0] == 0x2f
        },
        forall|i: int|
            0 <= i < file_index(nodes, path) ==> !({
                &&& (#[trigger] nodes[i]) is File
                &&& location(nodes[i].path()) == location(path)
                &&& nodes[i].path().len() > 0
                &&& nodes[i].path()[0] == 0x2f
            }),
{
    no_file_before(nodes, path);
    if file_index(nodes, path) < nodes.len() {
        same_path_leads_alike(nodes[file_index(nodes, path)].path(), path);
    }
    assert forall|i: int| 0 <= i < file_index(nodes, path) implies !({
        &&& (#[trigger] nodes[i]) is File
        &&& location(nodes[i].path()) == location(path)
        &&& nodes[i].path().len() > 0
        &&& nodes[i].path()[0] == 0x2f
    }) by {
        same_path_leads_alike(nodes[i].path(), path);
    }
}

proof fn place_of_front(t: Tree, names: Seq<Seq<u8>>, k: int)
    requires
        found(t, names) is Some,
        0 <= k <= names.len(),
    ensures
        place(t, names.take(k)) is Some,
    decreases names.len(),
{
    if k > 0 {
        let child = t.children[seat_of(t.children, names[0])];
        place_of_front(child, names.drop_first(), k - 1);
        assert(names.take(k).drop_first() =~= names.drop_first().take(k - 1));
    }
}

/// The places of the tree of a filesystem are the root and those on the way to a node, with the places of the
/// nodes themselves, and no others.
pub proof fn places_are_on_the_way(nodes: Seq<NodeView>, names: Seq<Seq<u8>>)
    requires
        nodes.len() > 0,
    ensures
        place(tree_of(nodes), names) is Some <==> exists|i: int|
            0 <= i < nodes.len() && names.len() <= location((#[trigger] nodes[i]).path()).len() && location(
                nodes[i].path(),
            ).take(names.len() as int) == names,
{
    let t = tree_of(nodes);
    if place(t, names) is Some {
        tree_holds_nodes(nodes, names);
        tree_leaves_have_nodes(nodes);
        found_below(t, names, Seq::empty());
        let more = node_below(place(t, names).unwrap());
        found_below(t, names, more);
        tree_holds_nodes(nodes, names + more);
        last_is_there(nodes, names + more);
        let i = choose|i: int| 0 <= i < nodes.len() && nodes[i] == last_at(nodes, names + more).unwrap();
        assert((names + more).take(names.len() as int) =~= names);
        assert(location(nodes[i].path()).take(names.len() as int) == names);
    }
    if exists|i: int|
        0 <= i < nodes.len() && names.len() <= location((#[trigger] nodes[i]).path()).len() && location(
            nodes[i].path(),
        ).take(names.len() as int) == names {
        let i = choose|i: int|
            0 <= i < nodes.len() && names.len() <= location((#[trigger] nodes[i]).path()).len() && location(
                nodes[i].path(),
            ).take(names.len() as int) == names;
        let way = location(nodes[i].path());
        tree_holds_nodes(nodes, way);
        last_at_is_last(nodes, way);
        place_of_front(t, way, names.len() as int);
    }
}

} // verus!
