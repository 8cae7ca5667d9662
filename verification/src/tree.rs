//! The tree that the paths of the nodes span.

use vstd::prelude::*;
use crate::bytes::{comes_before, copy_of, is_before, order_is_total, order_is_transitive, same_bytes};
use crate::node::{node_views, Node, NodeView};
use crate::path::{contents, location};

verus! {

/// A place in a filesystem: its name, the node there if there is one, and the places below it.
#[verifier::ext_equal]
pub struct Tree {
    pub name: Seq<u8>,
    pub node: Option<NodeView>,
    pub children: Seq<Tree>,
}

/// A place with nothing at it and nothing below it.
pub open spec fn bare(name: Seq<u8>) -> Tree {
    Tree { name, node: None, children: Seq::empty() }
}

/// The name of the root.
pub open spec fn root_name() -> Seq<u8> {
    seq![0x2fu8]
}

/// How many of `children` have names that come before `name`, up to the first that has not.
pub open spec fn seat_of(children: Seq<Tree>, name: Seq<u8>) -> int
    decreases children.len(),
{
    if children.len() == 0 || !comes_before(children[0].name, name) {
        0
    } else {
        1 + seat_of(children.drop_first(), name)
    }
}

/// Whether there is a child called `name` where it belongs.
pub open spec fn is_seated(children: Seq<Tree>, name: Seq<u8>) -> bool {
    let k = seat_of(children, name);
    k < children.len() && children[k].name == name
}

/// The tree `t` after `node` was put where `names` lead. Places on the way are made where they are
/// missing, and a node that was there is replaced.
pub open spec fn inserted(t: Tree, names: Seq<Seq<u8>>, node: NodeView) -> Tree
    decreases names.len(),
{
    if names.len() == 0 {
        Tree { node: Some(node), ..t }
    } else {
        let k = seat_of(t.children, names[0]);
        if is_seated(t.children, names[0]) {
            Tree {
                children: t.children.update(k, inserted(t.children[k], names.drop_first(), node)),
                ..t
            }
        } else {
            Tree {
                children: t.children.insert(k, inserted(bare(names[0]), names.drop_first(), node)),
                ..t
            }
        }
    }
}

/// The tree that the paths of `nodes` span. Of nodes at the same place the last one counts.
pub open spec fn tree_of(nodes: Seq<NodeView>) -> Tree
    decreases nodes.len(),
{
    if nodes.len() == 0 {
        bare(root_name())
    } else {
        inserted(tree_of(nodes.drop_last()), location(nodes.last().path()), nodes.last())
    }
}

/// What is found in the tree where `names` lead.
pub open spec fn found(t: Tree, names: Seq<Seq<u8>>) -> Option<NodeView>
    decreases names.len(),
{
    if names.len() == 0 {
        t.node
    } else if is_seated(t.children, names[0]) {
        found(t.children[seat_of(t.children, names[0])], names.drop_first())
    } else {
        None
    }
}

/// The place in the tree where `names` lead.
pub open spec fn place(t: Tree, names: Seq<Seq<u8>>) -> Option<Tree>
    decreases names.len(),
{
    if names.len() == 0 {
        Some(t)
    } else if is_seated(t.children, names[0]) {
        place(t.children[seat_of(t.children, names[0])], names.drop_first())
    } else {
        None
    }
}

/// Whether the names of `children` are different and in order.
pub open spec fn in_order(children: Seq<Tree>) -> bool {
    forall|i: int, j: int|
        0 <= i < j < children.len() ==> comes_before(
            (#[trigger] children[i]).name,
            (#[trigger] children[j]).name,
        )
}

/// Whether the places below each place have different names and stand in the order of these.
pub open spec fn is_ordered(t: Tree) -> bool
    decreases t,
{
    &&& in_order(t.children)
    &&& forall|i: int| 0 <= i < t.children.len() ==> is_ordered(#[trigger] t.children[i])
}

/// The last of `nodes` whose path leads over `names`.
pub open spec fn last_at(nodes: Seq<NodeView>, names: Seq<Seq<u8>>) -> Option<NodeView>
    decreases nodes.len(),
{
    if nodes.len() == 0 {
        None
    } else if location(nodes.last().path()) == names {
        Some(nodes.last())
    } else {
        last_at(nodes.drop_last(), names)
    }
}

/// A child called `name` belongs behind all those in front whose names come before it.
pub proof fn seat_is_between(children: Seq<Tree>, name: Seq<u8>)
    ensures
        0 <= seat_of(children, name) <= children.len(),
        forall|i: int| 0 <= i < seat_of(children, name) ==> comes_before((#[trigger] children[i]).name, name),
        seat_of(children, name) < children.len() ==> !comes_before(
            children[seat_of(children, name)].name,
            name,
        ),
    decreases children.len(),
{
    if children.len() > 0 && comes_before(children[0].name, name) {
        seat_is_between(children.drop_first(), name);
        assert forall|i: int| 0 <= i < seat_of(children, name) implies comes_before(
            (#[trigger] children[i]).name,
            name,
        ) by {
            if i > 0 {
                assert(children.drop_first()[i - 1] == children[i]);
            }
        }
    }
}

proof fn seat_is(children: Seq<Tree>, name: Seq<u8>, k: int)
    requires
        0 <= k <= children.len(),
        forall|i: int| 0 <= i < k ==> comes_before((#[trigger] children[i]).name, name),
        k < children.len() ==> !comes_before(children[k].name, name),
    ensures
        seat_of(children, name) == k,
{
    seat_is_between(children, name);
    let s = seat_of(children, name);
    if s < k {
        assert(comes_before(children[s].name, name));
    } else if k < s {
        assert(comes_before(children[k].name, name));
    }
}

proof fn inserted_keeps_name(t: Tree, names: Seq<Seq<u8>>, node: NodeView)
    ensures
        inserted(t, names, node).name == t.name,
{
}

/// A node that is put into a tree is found where it was put, all other nodes are found as before, and
/// the tree stays ordered.
pub proof fn inserted_is_found(t: Tree, names: Seq<Seq<u8>>, node: NodeView, wanted: Seq<Seq<u8>>)
    requires
        is_ordered(t),
    ensures
        is_ordered(inserted(t, names, node)),
        found(inserted(t, names, node), wanted) == if wanted == names {
            Some(node)
        } else {
            found(t, wanted)
        },
    decreases names.len(),
{
    let u = inserted(t, names, node);
    if names.len() == 0 {
        assert(is_ordered(u));
        if wanted.len() == 0 {
            assert(wanted =~= names);
        }
    } else {
        let name = names[0];
        let rest = names.drop_first();
        let k = seat_of(t.children, name);
        seat_is_between(t.children, name);
        let place = if is_seated(t.children, name) {
            t.children[k]
        } else {
            bare(name)
        };
        assert(is_ordered(place));
        let changed = inserted(place, rest, node);
        inserted_is_found(place, rest, node, wanted.drop_first());
        inserted_keeps_name(place, rest, node);
        assert(names =~= seq![name] + rest);
        if wanted.len() > 0 {
            assert(wanted =~= seq![wanted[0]] + wanted.drop_first());
            seat_is_between(t.children, wanted[0]);
            order_is_total(wanted[0], name);
            order_is_total(name, name);
        }
        if is_seated(t.children, name) {
            assert(forall|i: int|
                0 <= i < t.children.len() ==> (#[trigger] u.children[i]).name == t.children[i].name);
            assert(is_ordered(u));
            if wanted.len() > 0 {
                seat_is(u.children, wanted[0], seat_of(t.children, wanted[0]));
            }
        } else {
            seat_separates(t.children, name);
            assert forall|i: int, j: int| 0 <= i < j < u.children.len() implies comes_before(
                (#[trigger] u.children[i]).name,
                (#[trigger] u.children[j]).name,
            ) by {
                if i != k && j != k {
                    let a = if i < k { i } else { i - 1 };
                    let b = if j < k { j } else { j - 1 };
                    assert(u.children[i] == t.children[a] && u.children[j] == t.children[b]);
                } else if i == k {
                    assert(u.children[j] == t.children[j - 1]);
                } else {
                    assert(u.children[i] == t.children[i]);
                }
            }
            assert forall|i: int| 0 <= i < u.children.len() implies is_ordered(
                #[trigger] u.children[i],
            ) by {
                if i != k {
                    let a = if i < k { i } else { i - 1 };
                    assert(u.children[i] == t.children[a]);
                }
            }
            assert(is_ordered(u));
            if wanted.len() > 0 {
                found_beside(t.children, changed, wanted[0]);
            }
        }
    }
}

/// Where no child is called `name`, those in front of its seat come before it and the others behind it.
proof fn seat_separates(children: Seq<Tree>, name: Seq<u8>)
    requires
        in_order(children),
        !is_seated(children, name),
    ensures
        forall|i: int|
            0 <= i < seat_of(children, name) ==> comes_before((#[trigger] children[i]).name, name),
        forall|i: int|
            seat_of(children, name) <= i < children.len() ==> comes_before(
                name,
                (#[trigger] children[i]).name,
            ),
{
    let k = seat_of(children, name);
    seat_is_between(children, name);
    assert forall|i: int| k <= i < children.len() implies comes_before(
        name,
        (#[trigger] children[i]).name,
    ) by {
        order_is_total(name, children[k].name);
        if i > k {
            order_is_transitive(name, children[k].name, children[i].name);
        }
    }
}

/// Where a new child takes its seat, the others are found as before.
proof fn found_beside(children: Seq<Tree>, new: Tree, name: Seq<u8>)
    requires
        in_order(children),
        !is_seated(children, new.name),
    ensures
        ({
            let k = seat_of(children, new.name);
            let more = children.insert(k, new);
            let s = seat_of(more, name);
            &&& name == new.name ==> s == k && is_seated(more, name)
            &&& name != new.name ==> is_seated(more, name) == is_seated(children, name)
            &&& name != new.name && is_seated(children, name) ==> more[s] == children[seat_of(
                children,
                name,
            )]
        }),
{
    let k = seat_of(children, new.name);
    let more = children.insert(k, new);
    seat_is_between(children, new.name);
    seat_separates(children, new.name);
    seat_is_between(children, name);
    order_is_total(name, new.name);
    order_is_total(new.name, new.name);
    let s = seat_of(children, name);
    if name == new.name {
        seat_is(more, name, k);
    } else if comes_before(name, new.name) {
        if k < s {
            assert(comes_before(children[k].name, name));
            order_is_transitive(children[k].name, name, new.name);
            order_is_total(children[k].name, new.name);
        }
        assert(forall|i: int| 0 <= i < s ==> more[i] == children[i]);
        if s < k {
            assert(more[s] == children[s]);
        }
        seat_is(more, name, s);
        if s == k && s < children.len() {
            order_is_transitive(name, new.name, children[k].name);
            order_is_total(name, name);
        }
    } else {
        if s < k {
            assert(comes_before(children[s].name, new.name));
            order_is_transitive(children[s].name, new.name, name);
        }
        assert forall|i: int| 0 <= i < s + 1 implies comes_before((#[trigger] more[i]).name, name) by {
            if i < k {
                assert(more[i] == children[i]);
            } else if i > k {
                assert(more[i] == children[i - 1]);
            }
        }
        if s < children.len() {
            assert(more[s + 1] == children[s]);
        }
        seat_is(more, name, s + 1);
    }
}

/// The tree of a filesystem holds at each place the last node whose path leads there and nothing else,
/// and its places are ordered by name.
pub proof fn tree_holds_nodes(nodes: Seq<NodeView>, names: Seq<Seq<u8>>)
    ensures
        found(tree_of(nodes), names) == last_at(nodes, names),
        is_ordered(tree_of(nodes)),
        tree_of(nodes).name == root_name(),
    decreases nodes.len(),
{
    if nodes.len() > 0 {
        let front = nodes.drop_last();
        let last = nodes.last();
        tree_holds_nodes(front, names);
        inserted_is_found(tree_of(front), location(last.path()), last, names);
        inserted_keeps_name(tree_of(front), location(last.path()), last);
    }
}

/// What is found where names lead is at the place where they lead, which is called as the last of them.
pub proof fn found_is_at_place(t: Tree, names: Seq<Seq<u8>>)
    ensures
        found(t, names) == match place(t, names) {
            Some(u) => u.node,
            None => None,
        },
        names.len() > 0 && place(t, names) is Some ==> place(t, names).unwrap().name == names.last(),
    decreases names.len(),
{
    if names.len() > 0 && is_seated(t.children, names[0]) {
        found_is_at_place(t.children[seat_of(t.children, names[0])], names.drop_first());
    }
}

/// The last node at a place is a node that is exactly there, with none behind it that is. Where there is none,
/// no node is there.
pub proof fn last_at_is_last(nodes: Seq<NodeView>, names: Seq<Seq<u8>>)
    ensures
        last_at(nodes, names) is None ==> forall|i: int|
            0 <= i < nodes.len() ==> location((#[trigger] nodes[i]).path()) != names,
        last_at(nodes, names) is Some ==> exists|i: int|
            {
                &&& 0 <= i < nodes.len()
                &&& #[trigger] nodes[i] == last_at(nodes, names).unwrap()
                &&& location(nodes[i].path()) == names
                &&& forall|j: int| i < j < nodes.len() ==> location((#[trigger] nodes[j]).path()) != names
            },
    decreases nodes.len(),
{
    if nodes.len() > 0 {
        let front = nodes.drop_last();
        let last = nodes.len() - 1;
        last_at_is_last(front, names);
        if location(nodes.last().path()) == names {
            assert(nodes[last] == last_at(nodes, names).unwrap());
        } else if last_at(nodes, names) is Some {
            let i = choose|i: int|
                {
                    &&& 0 <= i < front.len()
                    &&& #[trigger] front[i] == last_at(front, names).unwrap()
                    &&& location(front[i].path()) == names
                    &&& forall|j: int|
                        i < j < front.len() ==> location((#[trigger] front[j]).path()) != names
                };
            assert(nodes[i] == last_at(nodes, names).unwrap());
            assert forall|j: int| i < j < nodes.len() implies location((#[trigger] nodes[j]).path()) != names by {
                if j < last {
                    assert(front[j] == nodes[j]);
                }
            }
        } else {
            assert forall|i: int| 0 <= i < nodes.len() implies location((#[trigger] nodes[i]).path())
                != names by {
                if i < last {
                    assert(front[i] == nodes[i]);
                }
            }
        }
    }
}

/// In a tree whose places are ordered, a name leads to the child of that name, and nowhere if there is none.
pub proof fn name_leads_to_child(t: Tree, names: Seq<Seq<u8>>, k: int)
    requires
        is_ordered(t),
        names.len() > 0,
    ensures
        place(t, Seq::empty()) == Some(t),
        0 <= k < t.children.len() && t.children[k].name == names[0] ==> place(t, names) == place(
            t.children[k],
            names.drop_first(),
        ),
        place(t, names) is Some ==> exists|j: int|
            0 <= j < t.children.len() && (#[trigger] t.children[j]).name == names[0],
{
    seat_is_between(t.children, names[0]);
    if 0 <= k < t.children.len() && t.children[k].name == names[0] {
        order_is_total(names[0], names[0]);
        assert forall|i: int| 0 <= i < k implies comes_before((#[trigger] t.children[i]).name, names[0]) by {
            assert(comes_before(t.children[i].name, t.children[k].name));
        }
        seat_is(t.children, names[0], k);
    }
    if place(t, names) is Some {
        assert(t.children[seat_of(t.children, names[0])].name == names[0]);
    }
}

/// Children are ordered by the bytes of their names, and no two have the same name. The root is called `/`.
pub proof fn tree_is_sorted(nodes: Seq<NodeView>, names: Seq<Seq<u8>>, i: int, j: int)
    requires
        place(tree_of(nodes), names) is Some,
        0 <= i < j < place(tree_of(nodes), names).unwrap().children.len(),
    ensures
        tree_of(nodes).name == seq![0x2fu8],
        ({
            let children = place(tree_of(nodes), names).unwrap().children;
            comes_before(children[i].name, children[j].name) && children[i].name != children[j].name
        }),
{
    tree_holds_nodes(nodes, names);
    place_is_ordered(tree_of(nodes), names);
    let children = place(tree_of(nodes), names).unwrap().children;
    order_is_total(children[i].name, children[j].name);
}

proof fn place_is_ordered(t: Tree, names: Seq<Seq<u8>>)
    requires
        is_ordered(t),
        place(t, names) is Some,
    ensures
        is_ordered(place(t, names).unwrap()),
    decreases names.len(),
{
    if names.len() > 0 {
        let k = seat_of(t.children, names[0]);
        seat_is_between(t.children, names[0]);
        assert(is_ordered(t.children[k]));
        place_is_ordered(t.children[k], names.drop_first());
    }
}

/// How many places there are in a tree.
pub open spec fn places(t: Tree) -> nat
    decreases t,
{
    1 + all_places(t.children)
}

/// How many places there are in several trees.
pub open spec fn all_places(trees: Seq<Tree>) -> nat
    decreases trees,
{
    if trees.len() == 0 {
        0
    } else {
        all_places(trees.drop_last()) + places(trees.last())
    }
}

/// The last node whose path leads over some names has these as its location.
pub proof fn last_is_there(nodes: Seq<NodeView>, names: Seq<Seq<u8>>)
    requires
        last_at(nodes, names) is Some,
    ensures
        nodes.contains(last_at(nodes, names).unwrap()),
        location(last_at(nodes, names).unwrap().path()) == names,
    decreases nodes.len(),
{
    if location(nodes.last().path()) != names {
        last_is_there(nodes.drop_last(), names);
        let i = choose|i: int|
            0 <= i < nodes.len() - 1 && nodes.drop_last()[i] == last_at(nodes, names).unwrap();
        assert(nodes[i] == last_at(nodes, names).unwrap());
    }
}

/// Whether each place with nothing below it has a node.
pub open spec fn leaves_have_nodes(t: Tree) -> bool
    decreases t,
{
    &&& t.children.len() == 0 ==> t.node is Some
    &&& forall|i: int| 0 <= i < t.children.len() ==> leaves_have_nodes(#[trigger] t.children[i])
}

proof fn inserted_leaves_have_nodes(t: Tree, names: Seq<Seq<u8>>, node: NodeView)
    requires
        forall|i: int| 0 <= i < t.children.len() ==> leaves_have_nodes(#[trigger] t.children[i]),
    ensures
        leaves_have_nodes(inserted(t, names, node)),
    decreases names.len(),
{
    let u = inserted(t, names, node);
    if names.len() > 0 {
        let k = seat_of(t.children, names[0]);
        seat_is_between(t.children, names[0]);
        if is_seated(t.children, names[0]) {
            assert(leaves_have_nodes(t.children[k]));
            inserted_leaves_have_nodes(t.children[k], names.drop_first(), node);
        } else {
            inserted_leaves_have_nodes(bare(names[0]), names.drop_first(), node);
            assert forall|i: int| 0 <= i < u.children.len() implies leaves_have_nodes(
                #[trigger] u.children[i],
            ) by {
                if i != k {
                    let a = if i < k { i } else { i - 1 };
                    assert(u.children[i] == t.children[a]);
                }
            }
        }
    }
}

/// In the tree of a filesystem that has nodes, each place with nothing below it has a node.
pub proof fn tree_leaves_have_nodes(nodes: Seq<NodeView>)
    requires
        nodes.len() > 0,
    ensures
        leaves_have_nodes(tree_of(nodes)),
    decreases nodes.len(),
{
    let front = nodes.drop_last();
    if front.len() > 0 {
        tree_leaves_have_nodes(front);
    }
    inserted_leaves_have_nodes(tree_of(front), location(nodes.last().path()), nodes.last());
}

/// A place in a filesystem, as the writer walks over it.
pub struct TreeNode<'a> {
    pub name: Vec<u8>,
    pub node: Option<&'a Node>,
    pub children: Vec<TreeNode<'a>>,
}

impl<'a> TreeNode<'a> {
    /// The place with all that is below it.
    pub open spec fn tree(self) -> Tree
        decreases self,
    {
        Tree {
            name: self.name@,
            node: match self.node {
                Some(node) => Some(node@),
                None => None,
            },
            children: Self::trees(self.children@),
        }
    }

    /// Several places with all that is below them.
    pub open spec fn trees(s: Seq<TreeNode<'a>>) -> Seq<Tree>
        decreases s,
    {
        if s.len() == 0 {
            Seq::empty()
        } else {
            Self::trees(s.drop_last()).push(s.last().tree())
        }
    }

    /// The trees of several places are the trees of each.
    pub proof fn trees_are_each(s: Seq<TreeNode<'a>>)
        ensures
            Self::trees(s).len() == s.len(),
            forall|i: int| 0 <= i < s.len() ==> (#[trigger] Self::trees(s)[i]) == s[i].tree(),
        decreases s.len(),
    {
        if s.len() > 0 {
            Self::trees_are_each(s.drop_last());
        }
    }

    /// A place with nothing at it and nothing below it.
    fn bare(name: &Vec<u8>) -> (r: Self)
        ensures
            r.tree() == bare(name@),
    {
        let r = TreeNode { name: copy_of(name.as_slice()), node: None, children: Vec::new() };
        assert(Self::trees(r.children@) =~= Seq::empty());
        r
    }

    /// Where a child called `name` belongs.
    fn seat(&self, name: &Vec<u8>) -> (r: usize)
        ensures
            r == seat_of(self.tree().children, name@),
            r <= self.children.len(),
    {
        let ghost all = self.tree().children;
        let mut i: usize = 0;
        proof {
            Self::trees_are_each(self.children@);
            assert(all.skip(0) =~= all);
        }
        while i < self.children.len()
            invariant
                i <= self.children.len() == all.len(),
                all == Self::trees(self.children@),
                seat_of(all, name@) == i + seat_of(all.skip(i as int), name@),
            decreases self.children.len() - i,
        {
            proof {
                Self::trees_are_each(self.children@);
                assert(all.skip(i as int)[0] == all[i as int]);
            }
            if !is_before(self.children[i].name.as_slice(), name.as_slice()) {
                return i;
            }
            assert(all.skip(i as int).drop_first() =~= all.skip(i + 1));
            i += 1;
        }
        i
    }

    /// Puts `node` where the names from the `depth`th on lead.
    fn insert(&mut self, names: &Vec<Vec<u8>>, depth: usize, node: &'a Node)
        requires
            depth <= names.len(),
        ensures
            final(self).tree() == inserted(old(self).tree(), contents(names@).skip(depth as int), node@),
        decreases names.len() - depth,
    {
        let ghost rest = contents(names@).skip(depth as int);
        if depth == names.len() {
            self.node = Some(node);
            return;
        }
        let ghost before = self.children@;
        proof {
            Self::trees_are_each(before);
            assert(rest[0] == names@[depth as int]@);
            assert(rest.drop_first() =~= contents(names@).skip(depth + 1));
        }
        let k: usize = self.seat(&names[depth]);
        if k < self.children.len() && same_bytes(
            self.children[k].name.as_slice(),
            names[depth].as_slice(),
        ) {
            self.children[k].insert(names, depth + 1, node);
            proof {
                Self::trees_are_each(self.children@);
                assert(Self::trees(self.children@) =~= Self::trees(before).update(
                    k as int,
                    inserted(before[k as int].tree(), rest.drop_first(), node@),
                ));
            }
        } else {
            let mut child: TreeNode<'a> = TreeNode::bare(&names[depth]);
            child.insert(names, depth + 1, node);
            let ghost below = child.tree();
            self.children.insert(k, child);
            proof {
                Self::trees_are_each(self.children@);
                assert(Self::trees(self.children@) =~= Self::trees(before).insert(k as int, below));
            }
        }
    }

    /// The tree that the paths of `nodes` span.
    pub fn from_nodes(nodes: &'a Vec<Node>) -> (r: TreeNode<'a>)
        ensures
            r.tree() == tree_of(node_views(nodes@)),
    {
        let ghost all = node_views(nodes@);
        let mut name: Vec<u8> = Vec::new();
        name.push(0x2f);
        assert(name@ =~= root_name());
        let mut tree: TreeNode<'a> = TreeNode::bare(&name);
        let mut i: usize = 0;
        assert(all.take(0) =~= Seq::empty());
        while i < nodes.len()
            invariant
                i <= nodes.len(),
                all == node_views(nodes@),
                tree.tree() == tree_of(all.take(i as int)),
            decreases nodes.len() - i,
        {
            let node: &'a Node = &nodes[i];
            let names: Vec<Vec<u8>> = node.path().location();
            tree.insert(&names, 0, node);
            proof {
                assert(contents(names@).skip(0) =~= contents(names@));
                assert(all.take(i + 1).drop_last() =~= all.take(i as int));
                assert(all.take(i + 1).last() == node@);
            }
            i += 1;
        }
        assert(all.take(i as int) =~= all);
        tree
    }
}

} // verus!
