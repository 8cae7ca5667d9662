//! Directory entries, and the listings that the directory table holds.

use vstd::prelude::*;
use crate::bytes::{comes_before, is_before, le16, le32, order_is_total, order_is_transitive, push_all,
    push_u16, push_u32};
use crate::inode::InodeId;

verus! {

/// What a directory knows of one of its children.
#[derive(Debug, PartialEq, Eq, Clone)]
pub struct Entry {
    /// Where the block with the inode begins in the inode table
    pub start: u32,
    /// Where the inode begins in that block
    pub offset: u16,
    /// The number of the inode
    pub inode: u32,
    /// The kind of the inode
    pub t: InodeId,
    /// The length of the name, less one
    pub name_size: u16,
    pub name: Vec<u8>,
}

/// What a directory knows of one of its children.
#[verifier::ext_equal]
pub struct EntryView {
    pub start: u32,
    pub offset: u16,
    pub inode: u32,
    pub t: InodeId,
    pub name_size: u16,
    pub name: Seq<u8>,
}

impl View for Entry {
    type V = EntryView;

    open spec fn view(&self) -> EntryView {
        EntryView {
            start: self.start,
            offset: self.offset,
            inode: self.inode,
            t: self.t,
            name_size: self.name_size,
            name: self.name@,
        }
    }
}

/// The views of several entries.
pub open spec fn entry_views(v: Seq<Entry>) -> Seq<EntryView> {
    v.map_values(|e: Entry| e@)
}

/// How many of `sorted` stand in front of an entry named `name`: those up to the first whose name
/// comes behind it.
pub open spec fn place_of(sorted: Seq<EntryView>, name: Seq<u8>) -> int
    decreases sorted.len(),
{
    if sorted.len() == 0 || comes_before(name, sorted[0].name) {
        0
    } else {
        1 + place_of(sorted.drop_first(), name)
    }
}

/// The entries in the order of their names. Entries of the same name keep their order.
pub open spec fn by_name(entries: Seq<EntryView>) -> Seq<EntryView>
    decreases entries.len(),
{
    if entries.len() == 0 {
        Seq::empty()
    } else {
        let sorted = by_name(entries.drop_last());
        sorted.insert(place_of(sorted, entries.last().name), entries.last())
    }
}

/// Whether no entry comes behind one that its name comes before.
pub open spec fn is_sorted(entries: Seq<EntryView>) -> bool {
    forall|i: int, j: int|
        0 <= i < j < entries.len() ==> !comes_before(
            (#[trigger] entries[j]).name,
            (#[trigger] entries[i]).name,
        )
}

/// An entry called `name` belongs behind all those in front whose names do not come behind it.
pub proof fn place_is_between(sorted: Seq<EntryView>, name: Seq<u8>)
    ensures
        0 <= place_of(sorted, name) <= sorted.len(),
        forall|i: int| 0 <= i < place_of(sorted, name) ==> !comes_before(name, (#[trigger] sorted[i]).name),
        place_of(sorted, name) < sorted.len() ==> comes_before(
            name,
            sorted[place_of(sorted, name)].name,
        ),
    decreases sorted.len(),
{
    if sorted.len() > 0 && !comes_before(name, sorted[0].name) {
        place_is_between(sorted.drop_first(), name);
        assert forall|i: int| 0 <= i < place_of(sorted, name) implies !comes_before(
            name,
            (#[trigger] sorted[i]).name,
        ) by {
            if i > 0 {
                assert(sorted.drop_first()[i - 1] == sorted[i]);
            }
        }
    }
}

/// Sorting entries by name puts them in the order of their names, and neither loses nor adds any.
pub proof fn by_name_sorts(entries: Seq<EntryView>)
    ensures
        is_sorted(by_name(entries)),
        by_name(entries).to_multiset() == entries.to_multiset(),
        by_name(entries).len() == entries.len(),
    decreases entries.len(),
{
    if entries.len() > 0 {
        let front = entries.drop_last();
        let last = entries.last();
        let sorted = by_name(front);
        let k = place_of(sorted, last.name);
        by_name_sorts(front);
        place_is_between(sorted, last.name);
        let s = sorted.insert(k, last);
        assert forall|i: int, j: int| 0 <= i < j < s.len() implies !comes_before(
            (#[trigger] s[j]).name,
            (#[trigger] s[i]).name,
        ) by {
            if i < k && j == k {
            } else if i == k {
                let first = sorted[k];
                let other = sorted[j - 1];
                assert(s[j] == other);
                if comes_before(other.name, last.name) {
                    order_is_transitive(other.name, last.name, first.name);
                    order_is_total(first.name, first.name);
                }
            }
        }
        broadcast use vstd::seq_lib::group_to_multiset_ensures;

        assert(entries =~= front.push(last));
        assert(sorted.insert(k, last).to_multiset() =~= sorted.to_multiset().insert(last));
    } else {
        assert(entries =~= by_name(entries));
    }
}

/// Whether `e` can stand under the same directory header as `first`: their inodes are in the same
/// block, and the difference of their numbers is a 16-bit one.
pub open spec fn joins(first: EntryView, e: EntryView) -> bool {
    e.start == first.start && -0x8000 <= e.inode - first.inode < 0x8000
}

/// How many of `entries` stand under the header of the first, of which `count` are known to.
pub open spec fn run_from(entries: Seq<EntryView>, count: int) -> int
    decreases entries.len() - count,
{
    if 0 < count < entries.len() && count < 256 && joins(entries[0], entries[count]) {
        run_from(entries, count + 1)
    } else {
        count
    }
}

/// The entries that stand under one header. The first gives the block of the inodes and the number
/// that the numbers of the others are recorded relative to.
pub open spec fn runs(entries: Seq<EntryView>) -> Seq<Seq<EntryView>>
    decreases entries.len(),
{
    if entries.len() == 0 {
        Seq::empty()
    } else {
        let k = run_from(entries, 1);
        if 0 < k <= entries.len() {
            seq![entries.take(k)] + runs(entries.skip(k))
        } else {
            Seq::empty()
        }
    }
}

/// The record of an entry under the header of an entry whose inode has the number `first`.
pub open spec fn entry_record(first: u32, e: EntryView) -> Seq<u8> {
    le16(e.offset) + le16(((e.inode - first) % 0x1_0000) as u16) + le16(e.t.spec_number()) + le16(
        e.name_size,
    ) + e.name
}

/// The records of several entries, one behind the other.
pub open spec fn entry_records(first: u32, entries: Seq<EntryView>) -> Seq<u8>
    decreases entries.len(),
{
    if entries.len() == 0 {
        Seq::empty()
    } else {
        entry_records(first, entries.drop_last()) + entry_record(first, entries.last())
    }
}

/// The record of a header and of the entries under it.
pub open spec fn run_record(run: Seq<EntryView>) -> Seq<u8> {
    le32((run.len() - 1) as u32) + le32(run[0].start) + le32(run[0].inode) + entry_records(
        run[0].inode,
        run,
    )
}

/// A header and the entries under it.
pub struct Dir {
    pub entries: Vec<Entry>,
}

impl View for Dir {
    type V = Seq<EntryView>;

    open spec fn view(&self) -> Seq<EntryView> {
        entry_views(self.entries@)
    }
}

/// The views of several directory headers with their entries.
pub open spec fn dir_views(v: Seq<Dir>) -> Seq<Seq<EntryView>> {
    v.map_values(|d: Dir| d@)
}

/// Whether the entries can stand under one header.
pub open spec fn is_run(entries: Seq<EntryView>) -> bool {
    &&& 0 < entries.len() <= 256
    &&& forall|i: int| 0 <= i < entries.len() ==> joins(entries[0], #[trigger] entries[i])
}

proof fn run_is_run(entries: Seq<EntryView>, count: int)
    requires
        0 < count <= entries.len(),
        count <= 256,
        forall|i: int| 0 <= i < count ==> joins(entries[0], #[trigger] entries[i]),
    ensures
        count <= run_from(entries, count) <= entries.len(),
        is_run(entries.take(run_from(entries, count))),
    decreases entries.len() - count,
{
    if count < entries.len() && count < 256 && joins(entries[0], entries[count]) {
        run_is_run(entries, count + 1);
    }
}

/// The entries of all runs, one run behind the other.
pub open spec fn joined(runs: Seq<Seq<EntryView>>) -> Seq<EntryView> {
    runs.flatten()
}

/// A listing holds all entries in their order, and under each header only what can stand there.
pub proof fn runs_hold_entries(entries: Seq<EntryView>)
    ensures
        joined(runs(entries)) == entries,
        forall|i: int| 0 <= i < runs(entries).len() ==> is_run(#[trigger] runs(entries)[i]),
    decreases entries.len(),
{
    if entries.len() == 0 {
        assert(joined(runs(entries)) =~= entries);
    } else {
        run_is_run(entries, 1);
        let k = run_from(entries, 1);
        let rest = runs(entries.skip(k));
        runs_hold_entries(entries.skip(k));
        assert(runs(entries).drop_first() =~= rest);
        assert(runs(entries).first() == entries.take(k));
        assert(entries =~= entries.take(k) + entries.skip(k));
        assert forall|i: int| 0 <= i < runs(entries).len() implies is_run(#[trigger] runs(entries)[i]) by {
            if i > 0 {
                assert(runs(entries)[i] == rest[i - 1]);
            }
        }
    }
}

impl Dir {
    /// The record of the header and of the entries under it.
    pub fn to_bytes(&self) -> (r: Vec<u8>)
        requires
            is_run(self@),
        ensures
            r@ == run_record(self@),
    {
        let ghost all = self@;
        let first: u32 = self.entries[0].inode;
        assert(all[0] == self.entries@[0]@);
        let mut out: Vec<u8> = Vec::new();
        push_u32(&mut out, (self.entries.len() - 1) as u32);
        push_u32(&mut out, self.entries[0].start);
        push_u32(&mut out, first);
        let ghost head = out@;
        let mut i: usize = 0;
        assert(head =~= head + entry_records(first, all.take(0)));
        while i < self.entries.len()
            invariant
                i <= self.entries.len(),
                all == self@,
                is_run(all),
                first == all[0].inode,
                out@ == head + entry_records(first, all.take(i as int)),
            decreases self.entries.len() - i,
        {
            let ghost before = out@;
            let e: &Entry = &self.entries[i];
            assert(all[i as int] == e@);
            assert(joins(all[0], all[i as int]));
            let distance: u16 = if e.inode >= first {
                (e.inode - first) as u16
            } else {
                (0x1_0000 - (first - e.inode)) as u16
            };
            push_u16(&mut out, e.offset);
            push_u16(&mut out, distance);
            push_u16(&mut out, e.t.number());
            push_u16(&mut out, e.name_size);
            push_all(&mut out, e.name.as_slice());
            proof {
                assert(distance == (e.inode - first) % 0x1_0000);
                assert(out@ =~= before + entry_record(first, all[i as int]));
                assert(all.take(i + 1).drop_last() =~= all.take(i as int));
                assert(all.take(i + 1).last() == all[i as int]);
            }
            i += 1;
            assert(out@ =~= head + entry_records(first, all.take(i as int)));
        }
        assert(all.take(i as int) =~= all);
        assert(out@ =~= run_record(all));
        out
    }
}

impl Entry {
    /// Where `name` belongs among the entries `sorted`.
    fn place(sorted: &Vec<Entry>, name: &Vec<u8>) -> (r: usize)
        ensures
            r == place_of(entry_views(sorted@), name@),
            r <= sorted.len(),
    {
        let ghost all = entry_views(sorted@);
        let mut i: usize = 0;
        assert(all.skip(0) =~= all);
        while i < sorted.len()
            invariant
                i <= sorted.len() == all.len(),
                all == entry_views(sorted@),
                place_of(all, name@) == i + place_of(all.skip(i as int), name@),
            decreases sorted.len() - i,
        {
            assert(all.skip(i as int)[0] == sorted@[i as int]@);
            if is_before(name.as_slice(), sorted[i].name.as_slice()) {
                return i;
            }
            assert(all.skip(i as int).drop_first() =~= all.skip(i + 1));
            i += 1;
        }
        i
    }

    /// Puts entries in the order of their names.
    fn sort(entries: Vec<Entry>) -> (r: Vec<Entry>)
        ensures
            entry_views(r@) == by_name(entry_views(entries@)),
    {
        let ghost all = entry_views(entries@);
        let mut sorted: Vec<Entry> = Vec::new();
        assert(all.take(0) =~= Seq::empty());
        assert(entry_views(sorted@) =~= by_name(all.take(0)));
        for e in it: entries
            invariant
                all == entry_views(it.seq()),
                entry_views(sorted@) == by_name(all.take(it.index() as int)),
        {
            let ghost before = entry_views(sorted@);
            let ghost i = it.index() as int;
            let k: usize = Entry::place(&sorted, &e.name);
            assert(all[i] == e@);
            sorted.insert(k, e);
            proof {
                assert(entry_views(sorted@) =~= before.insert(k as int, e@));
                assert(all.take(i + 1).drop_last() =~= all.take(i));
                assert(all.take(i + 1).last() == e@);
            }
        }
        assert(all.take(all.len() as int) =~= all);
        sorted
    }

    /// Whether this entry can stand under the same header as `first`.
    fn joins(&self, first: &Entry) -> (r: bool)
        ensures
            r == joins(first@, self@),
    {
        if self.start != first.start {
            false
        } else if self.inode >= first.inode {
            self.inode - first.inode < 0x8000
        } else {
            first.inode - self.inode <= 0x8000
        }
    }

    /// The listing of a directory: its entries in the order of their names, each under a header that
    /// it can stand under.
    pub fn into_dir(entries: Vec<Entry>) -> (r: Vec<Dir>)
        ensures
            dir_views(r@) == runs(by_name(entry_views(entries@))),
            forall|i: int| 0 <= i < r.len() ==> is_run((#[trigger] r[i])@),
    {
        let sorted: Vec<Entry> = Entry::sort(entries);
        let ghost all = entry_views(sorted@);
        let mut dirs: Vec<Dir> = Vec::new();
        let mut current: Vec<Entry> = Vec::new();
        assert(entry_views(current@) + all.skip(0) =~= all);
        assert(dir_views(dirs@) + runs(all) =~= runs(all));
        for e in it: sorted
            invariant
                all == entry_views(it.seq()),
                current.len() <= 256,
                (it.index() > 0) == (current.len() > 0),
                runs(all) == dir_views(dirs@) + runs(
                    entry_views(current@) + all.skip(it.index() as int),
                ),
                current.len() > 0 ==> run_from(
                    entry_views(current@) + all.skip(it.index() as int),
                    1,
                ) == run_from(
                    entry_views(current@) + all.skip(it.index() as int),
                    current.len() as int,
                ),
        {
            let ghost i = it.index() as int;
            let ghost cur = entry_views(current@);
            let ghost open = cur + all.skip(i);
            assert(all[i] == e@);
            assert(all.skip(i) =~= seq![e@] + all.skip(i + 1));
            if current.len() > 0 {
                assert(open[0] == current@[0]@);
                assert(open[cur.len() as int] == e@);
                if current.len() == 256 || !e.joins(&current[0]) {
                    let ghost known = dir_views(dirs@);
                    let mut full: Vec<Entry> = Vec::new();
                    full.append(&mut current);
                    let dir: Dir = Dir { entries: full };
                    assert(dir@ =~= cur);
                    dirs.push(dir);
                    proof {
                        assert(run_from(open, 1) == cur.len());
                        assert(open.take(cur.len() as int) =~= cur);
                        assert(open.skip(cur.len() as int) =~= all.skip(i));
                        assert(dir_views(dirs@) =~= known + seq![cur]);
                        assert(entry_views(current@) + all.skip(i) =~= all.skip(i));
                        assert(runs(all) =~= dir_views(dirs@) + runs(all.skip(i)));
                    }
                }
            }
            let ghost cur = entry_views(current@);
            current.push(e);
            proof {
                assert(entry_views(current@) =~= cur.push(e@));
                assert(entry_views(current@) + all.skip(i + 1) =~= cur + all.skip(i));
            }
        }
        if current.len() > 0 {
            let ghost known = dir_views(dirs@);
            let dir: Dir = Dir { entries: current };
            let ghost cur = dir@;
            assert(cur + all.skip(all.len() as int) =~= cur);
            dirs.push(dir);
            proof {
                assert(run_from(cur, 1) == cur.len());
                assert(cur.take(cur.len() as int) =~= cur);
                assert(cur.skip(cur.len() as int) =~= Seq::empty());
                assert(runs(Seq::empty()) =~= Seq::empty());
                assert(dir_views(dirs@) =~= known + seq![cur]);
                assert(runs(cur) =~= seq![cur]);
                assert(runs(all) =~= dir_views(dirs@));
            }
        } else {
            assert(all =~= Seq::empty());
            assert(dir_views(dirs@) =~= runs(all));
        }
        proof {
            runs_hold_entries(all);
            assert forall|i: int| 0 <= i < dirs.len() implies is_run((#[trigger] dirs[i])@) by {
                assert(dir_views(dirs@)[i] == dirs[i]@);
            }
        }
        dirs
    }
}

/// The entries of a directory stand in the order of their names. None is lost or added, and under one header
/// stand at most 256 whose inodes are in one block and whose numbers are no further from that of the first
/// than a signed 16-bit number. A new header begins only where the next entry cannot stand under the last.
pub proof fn listing_is_grouped(entries: Seq<EntryView>)
    ensures
        ({
            let sorted = by_name(entries);
            let listing = runs(sorted);
            &&& listing.flatten() == sorted
            &&& sorted.to_multiset() == entries.to_multiset()
            &&& forall|i: int, j: int|
                0 <= i < j < sorted.len() ==> comes_before(
                    (#[trigger] sorted[i]).name,
                    (#[trigger] sorted[j]).name,
                ) || sorted[i].name == sorted[j].name
            &&& forall|k: int|
                0 <= k < listing.len() ==> 0 < (#[trigger] listing[k]).len() <= 256
            &&& forall|k: int, i: int|
                0 <= k < listing.len() && 0 <= i < listing[k].len() ==> (#[trigger] listing[k][i]).start
                    == listing[k][0].start && -0x8000 <= listing[k][i].inode - listing[k][0].inode <= 0x7fff
            &&& forall|k: int|
                0 <= k < listing.len() - 1 ==> (#[trigger] listing[k]).len() == 256 || {
                    let next = listing[k + 1][0];
                    ||| next.start != listing[k][0].start
                    ||| next.inode - listing[k][0].inode < -0x8000
                    ||| next.inode - listing[k][0].inode > 0x7fff
                }
        }),
{
    let sorted = by_name(entries);
    let listing = runs(sorted);
    by_name_sorts(entries);
    runs_hold_entries(sorted);
    assert forall|i: int, j: int| 0 <= i < j < sorted.len() implies comes_before(
        (#[trigger] sorted[i]).name,
        (#[trigger] sorted[j]).name,
    ) || sorted[i].name == sorted[j].name by {
        order_is_total(sorted[i].name, sorted[j].name);
    }
    assert forall|k: int, i: int| 0 <= k < listing.len() && 0 <= i < listing[k].len() implies (
    #[trigger] listing[k][i]).start == listing[k][0].start && -0x8000 <= listing[k][i].inode
        - listing[k][0].inode <= 0x7fff by {
        assert(is_run(listing[k]));
        assert(joins(listing[k][0], listing[k][i]));
    }
    runs_are_full(sorted);
}

proof fn run_ends(entries: Seq<EntryView>, count: int)
    requires
        0 < count <= entries.len(),
        count <= 256,
    ensures
        ({
            let k = run_from(entries, count);
            &&& count <= k <= entries.len()
            &&& k < entries.len() ==> k == 256 || !joins(entries[0], entries[k])
        }),
    decreases entries.len() - count,
{
    if count < entries.len() && count < 256 && joins(entries[0], entries[count]) {
        run_ends(entries, count + 1);
    }
}

proof fn runs_are_full(entries: Seq<EntryView>)
    ensures
        entries.len() > 0 ==> runs(entries).len() > 0 && runs(entries)[0].len() > 0 && runs(entries)[0][0]
            == entries[0],
        forall|k: int|
            0 <= k < runs(entries).len() - 1 ==> (#[trigger] runs(entries)[k]).len() == 256 || !joins(
                runs(entries)[k][0],
                runs(entries)[k + 1][0],
            ),
    decreases entries.len(),
{
    if entries.len() > 0 {
        let n = run_from(entries, 1);
        run_ends(entries, 1);
        let rest = entries.skip(n);
        runs_are_full(rest);
        let all = runs(entries);
        assert(all =~= seq![entries.take(n)] + runs(rest));
        assert forall|k: int| 0 <= k < all.len() - 1 implies (#[trigger] all[k]).len() == 256 || !joins(
            all[k][0],
            all[k + 1][0],
        ) by {
            if k == 0 {
                assert(all[1] == runs(rest)[0]);
                assert(rest[0] == entries[n]);
            } else {
                assert(all[k] == runs(rest)[k - 1]);
                assert(all[k + 1] == runs(rest)[k]);
            }
        }
    }
}

/// What is said of entries is said of their fields.
pub proof fn entry_is_of_fields(entries: Seq<Entry>, dirs: Seq<Dir>, i: int, k: int)
    requires
        0 <= i < entries.len(),
        0 <= k < dirs.len(),
    ensures
        entry_views(entries).len() == entries.len(),
        entry_views(entries)[i].start == entries[i].start,
        entry_views(entries)[i].offset == entries[i].offset,
        entry_views(entries)[i].inode == entries[i].inode,
        entry_views(entries)[i].t == entries[i].t,
        entry_views(entries)[i].name_size == entries[i].name_size,
        entry_views(entries)[i].name == entries[i].name@,
        dir_views(dirs).len() == dirs.len(),
        dir_views(dirs)[k] == entry_views(dirs[k].entries@),
{
}

} // verus!
