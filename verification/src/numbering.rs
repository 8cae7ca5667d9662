//! The numbers of inodes: each place has one of its own.

use vstd::prelude::*;
use crate::laws::{child_number, dir_count_grows, dir_places, places_of_children};
use crate::tree::{all_places, place, places, seat_is_between, seat_of, Tree};

verus! {

/// The number that is due to the place where `names` lead, in a tree whose root has the number `first`.
pub open spec fn number_at(t: Tree, first: int, names: Seq<Seq<u8>>) -> int
    decreases names.len(),
{
    if names.len() == 0 {
        first
    } else {
        let k = seat_of(t.children, names[0]);
        number_at(t.children[k], child_number(t.children, first, k), names.drop_first())
    }
}

proof fn dir_places_grow(children: Seq<Tree>, i: int, j: int)
    requires
        0 <= i <= j <= children.len(),
    ensures
        dir_places(children.take(i)) <= dir_places(children.take(j)),
        i < children.len() ==> dir_places(children.take(i + 1)) == dir_places(children.take(i))
            + if children[i].children.len() > 0 {
            places(children[i])
        } else {
            0nat
        },
    decreases j - i,
{
    if i < children.len() {
        assert(children.take(i + 1).drop_last() =~= children.take(i));
    }
    if i < j {
        assert(children.take(j).drop_last() =~= children.take(j - 1));
        dir_places_grow(children, i, j - 1);
    }
}

/// The numbers for a child and all that is below it are above that of the parent, and no more than there
/// are places.
proof fn child_has_room(children: Seq<Tree>, parent: int, i: int)
    requires
        0 <= i < children.len(),
    ensures
        parent < child_number(children, parent, i),
        child_number(children, parent, i) + places(children[i]) <= parent + 1 + all_places(children),
{
    let n = children.len() as int;
    assert(children.take(n) =~= children);
    places_of_children(children);
    dir_count_grows(children, 0, i);
    dir_count_grows(children, i, n);
    dir_count_grows(children, i + 1, n);
    dir_places_grow(children, i, n);
    dir_places_grow(children, i + 1, n);
    if children[i].children.len() == 0 {
        assert(places(children[i]) == 1 + all_places(children[i].children));
    }
}

/// The numbers for two children and all that is below them do not mix.
proof fn children_stay_apart(children: Seq<Tree>, parent: int, i: int, j: int)
    requires
        0 <= i < j < children.len(),
    ensures
        ({
            let a = child_number(children, parent, i);
            let b = child_number(children, parent, j);
            a + places(children[i]) <= b || b + places(children[j]) <= a
        }),
{
    let n = children.len() as int;
    assert(children.take(n) =~= children);
    dir_count_grows(children, 0, i);
    dir_count_grows(children, 0, j);
    dir_count_grows(children, i, j);
    dir_count_grows(children, i + 1, j);
    dir_places_grow(children, i, j);
    dir_places_grow(children, i + 1, j);
    dir_places_grow(children, i + 1, n);
    dir_places_grow(children, j, n);
    dir_places_grow(children, j + 1, n);
    assert(places(children[i]) == 1 + all_places(children[i].children));
    assert(places(children[j]) == 1 + all_places(children[j].children));
}

/// The places of a tree have numbers from that of the root on, no more than there are places.
pub proof fn numbers_are_in_range(t: Tree, first: int, names: Seq<Seq<u8>>)
    requires
        place(t, names) is Some,
    ensures
        first <= number_at(t, first, names) < first + places(t),
        names.len() > 0 ==> first < number_at(t, first, names),
    decreases names.len(),
{
    assert(places(t) == 1 + all_places(t.children));
    if names.len() > 0 {
        let k = seat_of(t.children, names[0]);
        seat_is_between(t.children, names[0]);
        child_has_room(t.children, first, k);
        numbers_are_in_range(t.children[k], child_number(t.children, first, k), names.drop_first());
    }
}

/// Different places have different numbers.
pub proof fn numbers_are_different(t: Tree, first: int, a: Seq<Seq<u8>>, b: Seq<Seq<u8>>)
    requires
        place(t, a) is Some,
        place(t, b) is Some,
        a != b,
    ensures
        number_at(t, first, a) != number_at(t, first, b),
    decreases a.len(),
{
    numbers_are_in_range(t, first, a);
    numbers_are_in_range(t, first, b);
    if a.len() == 0 || b.len() == 0 {
        if a.len() == b.len() {
            assert(a =~= b);
        }
    } else {
        let i = seat_of(t.children, a[0]);
        let j = seat_of(t.children, b[0]);
        seat_is_between(t.children, a[0]);
        seat_is_between(t.children, b[0]);
        let m = child_number(t.children, first, i);
        let n = child_number(t.children, first, j);
        if i == j {
            assert(a.drop_first() != b.drop_first()) by {
                assert(a =~= seq![a[0]] + a.drop_first());
                assert(b =~= seq![b[0]] + b.drop_first());
            }
            numbers_are_different(t.children[i], m, a.drop_first(), b.drop_first());
        } else {
            numbers_are_in_range(t.children[i], m, a.drop_first());
            numbers_are_in_range(t.children[j], n, b.drop_first());
            if i < j {
                children_stay_apart(t.children, first, i, j);
            } else {
                children_stay_apart(t.children, first, j, i);
            }
        }
    }
}

} // verus!
