//! Paths inside an image: byte strings whose parts a slash separates.

use vstd::prelude::*;
use vstd::std_specs::cmp::PartialEqSpec;
use crate::bytes::{copy_of, push_all, same_bytes};

verus! {

/// A path of a Unix system, as its bytes are written.
#[derive(Debug, Eq)]
pub struct UnixPath {
    pub bytes: Vec<u8>,
}

impl View for UnixPath {
    type V = Seq<u8>;

    open spec fn view(&self) -> Seq<u8> {
        self.bytes@
    }
}

/// The number of bytes in front of the first slash of `s`, all of them if it has none.
pub open spec fn first_slash(s: Seq<u8>) -> int
    decreases s.len(),
{
    if s.len() == 0 || s[0] == 0x2f {
        0
    } else {
        1 + first_slash(s.drop_first())
    }
}

/// Whether `part`, which holds no slash, names something: it is neither empty nor a single dot.
pub open spec fn is_name(part: Seq<u8>) -> bool {
    part.len() > 0 && part != seq![0x2eu8]
}

/// The names on the way from the root of the image to what the path `s` denotes, outermost first.
/// Empty parts and single dots lead nowhere and are left out, so `/a//b/.` and `a/b` have the same
/// location.
pub open spec fn location(s: Seq<u8>) -> Seq<Seq<u8>>
    decreases s.len(),
{
    if s.len() == 0 {
        Seq::empty()
    } else {
        let k = first_slash(s);
        let rest = if 0 <= k < s.len() {
            location(s.skip(k + 1))
        } else {
            Seq::empty()
        };
        if is_name(s.take(k)) {
            seq![s.take(k)] + rest
        } else {
            rest
        }
    }
}

/// Whether the path starts at the root.
pub open spec fn is_absolute(s: Seq<u8>) -> bool {
    s.len() > 0 && s[0] == 0x2f
}

/// Whether the first part of the path is a single dot.
pub open spec fn starts_here(s: Seq<u8>) -> bool {
    s.take(first_slash(s)) == seq![0x2eu8]
}

/// Whether two paths are the same part by part. Repeated slashes, a slash at the end and dots other
/// than a leading one make no difference.
pub open spec fn same_path(a: Seq<u8>, b: Seq<u8>) -> bool {
    &&& is_absolute(a) == is_absolute(b)
    &&& starts_here(a) == starts_here(b)
    &&& location(a) == location(b)
}

/// The last part of the path, if it is the name of a file.
pub open spec fn file_name(s: Seq<u8>) -> Option<Seq<u8>> {
    let names = location(s);
    if names.len() == 0 || names.last() == seq![0x2eu8, 0x2eu8] {
        None
    } else {
        Some(names.last())
    }
}

/// The path that leads from the root over `names`, each of them behind a slash.
pub open spec fn absolute(names: Seq<Seq<u8>>) -> Seq<u8>
    decreases names.len(),
{
    if names.len() == 0 {
        Seq::empty()
    } else {
        absolute(names.drop_last()) + seq![0x2fu8] + names.last()
    }
}

/// Whether each of `names` can stand between two slashes.
pub open spec fn are_names(names: Seq<Seq<u8>>) -> bool {
    forall|i: int| 0 <= i < names.len() ==> is_name(#[trigger] names[i]) && !names[i].contains(0x2f)
}

proof fn first_slash_bounds(s: Seq<u8>)
    ensures
        0 <= first_slash(s) <= s.len(),
        first_slash(s) < s.len() ==> s[first_slash(s)] == 0x2f,
        forall|i: int| 0 <= i < first_slash(s) ==> s[i] != 0x2f,
    decreases s.len(),
{
    if s.len() > 0 && s[0] != 0x2f {
        first_slash_bounds(s.drop_first());
        assert forall|i: int| 0 <= i < first_slash(s) implies s[i] != 0x2f by {
            if i > 0 {
                assert(s.drop_first()[i - 1] == s[i]);
            }
        }
    }
}

proof fn first_slash_is(s: Seq<u8>, k: int)
    requires
        0 <= k <= s.len(),
        k < s.len() ==> s[k] == 0x2f,
        forall|i: int| 0 <= i < k ==> s[i] != 0x2f,
    ensures
        first_slash(s) == k,
{
    first_slash_bounds(s);
}

/// A path with another behind a slash leads over the names of the first and then of the second.
pub proof fn location_of_joined(a: Seq<u8>, b: Seq<u8>)
    ensures
        location(a + seq![0x2fu8] + b) == location(a) + location(b),
    decreases a.len(),
{
    let s = a + seq![0x2fu8] + b;
    first_slash_bounds(a);
    let k = first_slash(a);
    if k < a.len() {
        first_slash_is(s, k);
        assert(s.take(k) =~= a.take(k));
        assert(s.skip(k + 1) =~= a.skip(k + 1) + seq![0x2fu8] + b);
        location_of_joined(a.skip(k + 1), b);
    } else {
        first_slash_is(s, a.len() as int);
        assert(s.take(k) =~= a);
        assert(a.take(k) =~= a);
        assert(s.skip(k + 1) =~= b);
    }
    assert(location(s) =~= location(a) + location(b));
}

/// The parts of a location are names.
pub proof fn location_has_names(s: Seq<u8>)
    ensures
        are_names(location(s)),
    decreases s.len(),
{
    if s.len() > 0 {
        first_slash_bounds(s);
        if first_slash(s) < s.len() {
            location_has_names(s.skip(first_slash(s) + 1));
        }
    }
}

/// The path that leads from the root over some names has these names as its location.
pub proof fn location_of_absolute(names: Seq<Seq<u8>>)
    requires
        are_names(names),
    ensures
        location(absolute(names)) == names,
        names.len() > 0 ==> is_absolute(absolute(names)),
    decreases names.len(),
{
    if names.len() == 0 {
        assert(location(absolute(names)) =~= names);
    } else {
        let front = names.drop_last();
        let last = names.last();
        assert(are_names(front));
        location_of_absolute(front);
        location_of_joined(absolute(front), last);
        assert(is_name(last) && !last.contains(0x2f));
        first_slash_is(last, last.len() as int);
        assert(last.take(last.len() as int) =~= last);
        assert(location(last) =~= seq![last]);
        assert(names =~= front + seq![last]);
        if front.len() == 0 {
            assert(absolute(names)[0] == 0x2f);
        }
    }
}

/// The contents of each byte string of `v`.
pub open spec fn contents(v: Seq<Vec<u8>>) -> Seq<Seq<u8>> {
    v.map_values(|b: Vec<u8>| b@)
}

impl UnixPath {
    /// The path that `bytes` spells.
    pub fn new(bytes: Vec<u8>) -> (r: Self)
        ensures
            r@ == bytes@,
    {
        UnixPath { bytes }
    }

    /// Whether the path starts at the root.
    pub fn is_absolute(&self) -> (r: bool)
        ensures
            r == is_absolute(self@),
    {
        self.bytes.len() > 0 && self.bytes[0] == 0x2f
    }

    /// The names on the way from the root of the image to what the path denotes.
    pub fn location(&self) -> (r: Vec<Vec<u8>>)
        ensures
            contents(r@) == location(self@),
    {
        let mut names: Vec<Vec<u8>> = Vec::new();
        let mut start: usize = 0;
        let len: usize = self.bytes.len();
        assert(self@.skip(0) =~= self@);
        assert(contents(names@) + location(self@) =~= location(self@));
        while start < len
            invariant
                start <= len == self@.len(),
                contents(names@) + location(self@.skip(start as int)) == location(self@),
            decreases len - start,
        {
            let ghost rest = self@.skip(start as int);
            let ghost before = contents(names@);
            let mut end: usize = start;
            let mut part: Vec<u8> = Vec::new();
            while end < len && self.bytes[end] != 0x2f
                invariant
                    start <= end <= len == self@.len(),
                    part@ == self@.subrange(start as int, end as int),
                    forall|i: int| start <= i < end ==> self@[i] != 0x2f,
                decreases len - end,
            {
                part.push(self.bytes[end]);
                end += 1;
                assert(part@ =~= self@.subrange(start as int, end as int));
            }
            proof {
                first_slash_is(rest, end - start);
                assert(rest.take(end - start) =~= part@);
                if end < len {
                    assert(rest.skip(end - start + 1) =~= self@.skip(end + 1));
                }
            }
            let dot: bool = part.len() == 1 && part[0] == 0x2e;
            assert(dot == (part@ == seq![0x2eu8])) by {
                if dot {
                    assert(part@ =~= seq![0x2eu8]);
                }
            }
            let ghost whole = part@;
            if part.len() > 0 && !dot {
                names.push(part);
                assert(contents(names@) =~= before + seq![whole]);
            }
            if end < len {
                start = end + 1;
            } else {
                start = end;
                assert(self@.skip(start as int) =~= Seq::empty());
            }
            assert(contents(names@) + location(self@.skip(start as int)) =~= before + location(rest));
        }
        assert(self@.skip(start as int) =~= Seq::empty());
        assert(contents(names@) =~= location(self@));
        names
    }

    /// Whether the first part of the path is a single dot.
    fn starts_here(&self) -> (r: bool)
        ensures
            r == starts_here(self@),
    {
        let n: usize = self.bytes.len();
        let r: bool = n > 0 && self.bytes[0] == 0x2e && (n == 1 || self.bytes[1] == 0x2f);
        proof {
            first_slash_bounds(self@);
            let k = first_slash(self@);
            if r {
                first_slash_is(self@, 1);
                assert(self@.take(1) =~= seq![0x2eu8]);
            }
            if starts_here(self@) {
                assert(self@.take(k).len() == k);
                assert(self@.take(k)[0] == self@[0]);
            }
        }
        r
    }

    /// Whether this path and `other` are the same part by part.
    pub fn same_path(&self, other: &UnixPath) -> (r: bool)
        ensures
            r == same_path(self@, other@),
    {
        if self.is_absolute() != other.is_absolute() || self.starts_here() != other.starts_here() {
            return false;
        }
        same_names(&self.location(), &other.location())
    }

    /// The last part of the path, if it is the name of a file.
    pub fn file_name(&self) -> (r: Option<Vec<u8>>)
        ensures
            match r {
                Some(name) => file_name(self@) == Some(name@),
                None => file_name(self@) is None,
            },
    {
        let mut names: Vec<Vec<u8>> = self.location();
        let ghost all = contents(names@);
        match names.pop() {
            None => None,
            Some(last) => {
                assert(last@ == all.last());
                let up: bool = last.len() == 2 && last[0] == 0x2e && last[1] == 0x2e;
                assert(up == (last@ == seq![0x2eu8, 0x2eu8])) by {
                    if up {
                        assert(last@ =~= seq![0x2eu8, 0x2eu8]);
                    }
                }
                if up {
                    None
                } else {
                    Some(last)
                }
            },
        }
    }

    /// The path that leads from the root over the first `count` of `names`.
    pub fn absolute(names: &Vec<Vec<u8>>, count: usize) -> (r: UnixPath)
        requires
            count <= names.len(),
        ensures
            r@ == absolute(contents(names@).take(count as int)),
    {
        let mut bytes: Vec<u8> = Vec::new();
        let ghost all = contents(names@);
        let mut i: usize = 0;
        assert(all.take(0) =~= Seq::empty());
        while i < count
            invariant
                i <= count <= names.len(),
                all == contents(names@),
                bytes@ == absolute(all.take(i as int)),
            decreases count - i,
        {
            bytes.push(0x2f);
            push_all(&mut bytes, &names[i]);
            assert(all.take(i + 1).drop_last() =~= all.take(i as int));
            assert(bytes@ =~= absolute(all.take(i as int)) + seq![0x2fu8] + all[i as int]);
            i += 1;
        }
        UnixPath { bytes }
    }
}

impl vstd::std_specs::cmp::PartialEqSpecImpl for UnixPath {
    open spec fn obeys_eq_spec() -> bool {
        true
    }

    open spec fn eq_spec(&self, other: &UnixPath) -> bool {
        same_path(self@, other@)
    }
}

impl PartialEq for UnixPath {
    /// Paths are equal if they are the same part by part.
    fn eq(&self, other: &UnixPath) -> (r: bool) {
        self.same_path(other)
    }
}

impl Clone for UnixPath {
    /// The same path, spelled in the same way.
    fn clone(&self) -> (r: Self)
        ensures
            r@ == self@,
    {
        UnixPath { bytes: copy_of(self.bytes.as_slice()) }
    }
}

/// Equality of paths is reflexive, symmetric and transitive.
pub proof fn same_path_is_equivalence(a: Seq<u8>, b: Seq<u8>, c: Seq<u8>)
    ensures
        same_path(a, a),
        same_path(a, b) ==> same_path(b, a),
        same_path(a, b) && same_path(b, c) ==> same_path(a, c),
{
}

/// Whether `a` and `b` are the same names in the same order.
pub fn same_names(a: &Vec<Vec<u8>>, b: &Vec<Vec<u8>>) -> (r: bool)
    ensures
        r == (contents(a@) == contents(b@)),
{
    assert(contents(b@).take(b.len() as int) =~= contents(b@));
    are_first_names(a, b, b.len())
}

/// Whether `a` is the first `count` names of `b`.
pub fn are_first_names(a: &Vec<Vec<u8>>, b: &Vec<Vec<u8>>, count: usize) -> (r: bool)
    requires
        count <= b.len(),
    ensures
        r == (contents(a@) == contents(b@).take(count as int)),
{
    let ghost sa = contents(a@);
    let ghost sb = contents(b@).take(count as int);
    if a.len() != count {
        assert(sa.len() != sb.len());
        return false;
    }
    let mut i: usize = 0;
    while i < count
        invariant
            i <= count == a.len(),
            count <= b.len(),
            sa == contents(a@),
            sb == contents(b@).take(count as int),
            forall|j: int| 0 <= j < i ==> sa[j] == sb[j],
        decreases count - i,
    {
        if !same_bytes(&a[i], &b[i]) {
            assert(sa[i as int] != sb[i as int]);
            return false;
        }
        assert(sa[i as int] == sb[i as int]);
        i += 1;
    }
    assert(sa =~= sb);
    true
}

/// A part without a slash is the only name on its way, unless it is empty or a single dot, which lead
/// nowhere.
pub proof fn location_of_part(s: Seq<u8>)
    requires
        !s.contains(0x2f),
    ensures
        s.len() == 0 || s == seq![0x2eu8] ==> location(s) == Seq::<Seq<u8>>::empty(),
        s.len() > 0 && s != seq![0x2eu8] ==> location(s) == seq![s],
{
    if s.len() > 0 {
        assert forall|i: int| 0 <= i < s.len() implies s[i] != 0x2f by {
            assert(s.contains(s[i]));
        }
        first_slash_is(s, s.len() as int);
        assert(s.take(s.len() as int) =~= s);
    }
    assert(s != seq![0x2eu8] && s.len() > 0 ==> location(s) =~= seq![s]);
    assert(s == seq![0x2eu8] || s.len() == 0 ==> location(s) =~= Seq::empty());
}

/// Two paths are the same exactly if they lead over the same names, both or neither from the root, and both
/// or neither with a dot in front.
pub proof fn same_path_leads_alike(a: Seq<u8>, b: Seq<u8>)
    ensures
        same_path(a, b) <==> {
            &&& location(a) == location(b)
            &&& (a.len() > 0 && a[0] == 0x2f) == (b.len() > 0 && b[0] == 0x2f)
            &&& (a.len() > 0 && a[0] == 0x2e && (a.len() == 1 || a[1] == 0x2f)) == (b.len() > 0 && b[0] == 0x2e
                && (b.len() == 1 || b[1] == 0x2f))
        },
{
    dot_in_front(a);
    dot_in_front(b);
}

proof fn dot_in_front(s: Seq<u8>)
    ensures
        starts_here(s) == (s.len() > 0 && s[0] == 0x2e && (s.len() == 1 || s[1] == 0x2f)),
{
    first_slash_bounds(s);
    let k = first_slash(s);
    if s.len() > 0 && s[0] == 0x2e && (s.len() == 1 || s[1] == 0x2f) {
        first_slash_is(s, 1);
        assert(s.take(1) =~= seq![0x2eu8]);
    }
    if starts_here(s) {
        assert(s.take(k).len() == k);
        assert(s.take(k)[0] == s[0]);
    }
}

/// A slash at the end, a second slash and a dot between slashes make no difference to a path.
pub proof fn same_path_at_any_spelling(a: Seq<u8>, b: Seq<u8>)
    requires
        a.len() > 0,
    ensures
        same_path(a, a + seq![0x2fu8]),
        same_path(a + seq![0x2fu8] + b, a + seq![0x2fu8, 0x2fu8] + b),
        same_path(a + seq![0x2fu8] + b, a + seq![0x2fu8, 0x2eu8, 0x2fu8] + b),
{
    let slash = seq![0x2fu8];
    let dot = seq![0x2eu8];
    let none = Seq::<u8>::empty();
    same_path_leads_alike(a, a + slash);
    same_path_leads_alike(a + slash + b, a + seq![0x2fu8, 0x2fu8] + b);
    same_path_leads_alike(a + slash + b, a + seq![0x2fu8, 0x2eu8, 0x2fu8] + b);
    location_of_part(none);
    location_of_part(dot);
    location_of_joined(a, none);
    location_of_joined(a, b);
    location_of_joined(a + slash, b);
    location_of_joined(a, dot);
    location_of_joined(a + slash + dot, b);
    assert(a + slash =~= a + slash + none);
    assert(location(a) + location(none) =~= location(a));
    assert(location(a) + location(dot) =~= location(a));
    assert(a + seq![0x2fu8, 0x2fu8] + b =~= a + slash + slash + b);
    assert(a + seq![0x2fu8, 0x2eu8, 0x2fu8] + b =~= a + slash + dot + slash + b);
}

/// The name of a file is the last on its way, unless there is none or it leads back up.
pub proof fn file_name_is_last(s: Seq<u8>)
    ensures
        file_name(s) is None <==> location(s).len() == 0 || location(s).last() == seq![0x2eu8, 0x2eu8],
        file_name(s) is Some ==> file_name(s).unwrap() == location(s).last(),
{
}

/// A path that leads further is spelled with a slash and the next name behind it.
pub proof fn absolute_of_one_more(names: Seq<Seq<u8>>, name: Seq<u8>)
    ensures
        absolute(Seq::empty()) == Seq::<u8>::empty(),
        absolute(names.push(name)) == absolute(names) + seq![0x2fu8] + name,
{
    assert(names.push(name).drop_last() =~= names);
}

/// Paths compare equal exactly if they lead over the same names, both or neither from the root, and both or
/// neither with a dot in front.
pub proof fn equal_paths_lead_alike(a: UnixPath, b: UnixPath)
    ensures
        UnixPath::obeys_eq_spec(),
        a.eq_spec(&b) <==> {
            let s = a.bytes@;
            let t = b.bytes@;
            &&& location(s) == location(t)
            &&& (s.len() > 0 && s[0] == 0x2f) == (t.len() > 0 && t[0] == 0x2f)
            &&& (s.len() > 0 && s[0] == 0x2e && (s.len() == 1 || s[1] == 0x2f)) == (t.len() > 0 && t[0] == 0x2e
                && (t.len() == 1 || t[1] == 0x2f))
        },
{
    same_path_leads_alike(a.bytes@, b.bytes@);
}

} // verus!
