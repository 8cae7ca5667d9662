//! Little-endian numbers and the byte-wise order of names.

use vstd::prelude::*;

verus! {

/// The two bytes of `x`, least significant first.
pub open spec fn le16(x: u16) -> Seq<u8> {
    seq![(x % 256) as u8, (x / 256) as u8]
}

/// The four bytes of `x`, least significant first.
pub open spec fn le32(x: u32) -> Seq<u8> {
    le16((x % 0x1_0000) as u16) + le16((x / 0x1_0000) as u16)
}

/// The eight bytes of `x`, least significant first.
pub open spec fn le64(x: u64) -> Seq<u8> {
    le32((x % 0x1_0000_0000) as u32) + le32((x / 0x1_0000_0000) as u32)
}

/// The number whose two bytes stand at `at`, least significant first.
pub open spec fn u16_at(s: Seq<u8>, at: int) -> u16 {
    (s[at] + 256 * s[at + 1]) as u16
}

/// The number whose four bytes stand at `at`, least significant first.
pub open spec fn u32_at(s: Seq<u8>, at: int) -> u32 {
    (u16_at(s, at) + 0x1_0000 * u16_at(s, at + 2)) as u32
}

/// The number whose eight bytes stand at `at`, least significant first.
pub open spec fn u64_at(s: Seq<u8>, at: int) -> u64 {
    (u32_at(s, at) + 0x1_0000_0000 * u32_at(s, at + 4)) as u64
}

/// Reading a 16-bit number gives back the number that was written.
pub proof fn read_le16(before: Seq<u8>, x: u16, after: Seq<u8>)
    ensures
        u16_at(before + le16(x) + after, before.len() as int) == x,
{
    let s = before + le16(x) + after;
    let at = before.len() as int;
    assert(s[at] == le16(x)[0]);
    assert(s[at + 1] == le16(x)[1]);
}

/// Reading a 32-bit number gives back the number that was written.
pub proof fn read_le32(before: Seq<u8>, x: u32, after: Seq<u8>)
    ensures
        u32_at(before + le32(x) + after, before.len() as int) == x,
{
    let low = le16((x % 0x1_0000) as u16);
    let high = le16((x / 0x1_0000) as u16);
    let s = before + le32(x) + after;
    read_le16(before, (x % 0x1_0000) as u16, high + after);
    read_le16(before + low, (x / 0x1_0000) as u16, after);
    assert(s =~= before + low + (high + after));
    assert(s =~= (before + low) + high + after);
}

/// Reading a 64-bit number gives back the number that was written.
pub proof fn read_le64(before: Seq<u8>, x: u64, after: Seq<u8>)
    ensures
        u64_at(before + le64(x) + after, before.len() as int) == x,
{
    let low = le32((x % 0x1_0000_0000) as u32);
    let high = le32((x / 0x1_0000_0000) as u32);
    let s = before + le64(x) + after;
    read_le32(before, (x % 0x1_0000_0000) as u32, high + after);
    read_le32(before + low, (x / 0x1_0000_0000) as u32, after);
    assert(s =~= before + low + (high + after));
    assert(s =~= (before + low) + high + after);
}

/// A 16-bit number is read behind `before` where its bytes follow.
pub proof fn u16_follows(s: Seq<u8>, before: Seq<u8>, x: u16)
    requires
        before.len() + 2 <= s.len(),
        s.take((before.len() + 2) as int) == before + le16(x),
    ensures
        u16_at(s, before.len() as int) == x,
        s.take(before.len() as int) == before,
{
    let at = before.len() as int;
    read_le16(before, x, s.skip(at + 2));
    assert(s =~= s.take(at + 2) + s.skip(at + 2));
    assert(s.take(at) =~= s.take(at + 2).take(at));
    assert((before + le16(x)).take(at) =~= before);
}

/// A 32-bit number is read behind `before` where its bytes follow.
pub proof fn u32_follows(s: Seq<u8>, before: Seq<u8>, x: u32)
    requires
        before.len() + 4 <= s.len(),
        s.take((before.len() + 4) as int) == before + le32(x),
    ensures
        u32_at(s, before.len() as int) == x,
        s.take(before.len() as int) == before,
{
    let at = before.len() as int;
    read_le32(before, x, s.skip(at + 4));
    assert(s =~= s.take(at + 4) + s.skip(at + 4));
    assert(s.take(at) =~= s.take(at + 4).take(at));
    assert((before + le32(x)).take(at) =~= before);
}

/// A 64-bit number is read behind `before` where its bytes follow.
pub proof fn u64_follows(s: Seq<u8>, before: Seq<u8>, x: u64)
    requires
        before.len() + 8 <= s.len(),
        s.take((before.len() + 8) as int) == before + le64(x),
    ensures
        u64_at(s, before.len() as int) == x,
        s.take(before.len() as int) == before,
{
    let at = before.len() as int;
    read_le64(before, x, s.skip(at + 8));
    assert(s =~= s.take(at + 8) + s.skip(at + 8));
    assert(s.take(at) =~= s.take(at + 8).take(at));
    assert((before + le64(x)).take(at) =~= before);
}

/// Appends the two bytes of `x` to `out`, least significant first.
pub fn push_u16(out: &mut Vec<u8>, x: u16)
    ensures
        final(out)@ == old(out)@ + le16(x),
{
    out.push((x % 256) as u8);
    out.push((x / 256) as u8);
    assert(out@ =~= old(out)@ + le16(x));
}

/// Appends the four bytes of `x` to `out`, least significant first.
pub fn push_u32(out: &mut Vec<u8>, x: u32)
    ensures
        final(out)@ == old(out)@ + le32(x),
{
    push_u16(out, (x % 0x1_0000) as u16);
    push_u16(out, (x / 0x1_0000) as u16);
    assert(out@ =~= old(out)@ + le32(x));
}

/// Appends the eight bytes of `x` to `out`, least significant first.
pub fn push_u64(out: &mut Vec<u8>, x: u64)
    ensures
        final(out)@ == old(out)@ + le64(x),
{
    push_u32(out, (x % 0x1_0000_0000) as u32);
    push_u32(out, (x / 0x1_0000_0000) as u32);
    assert(out@ =~= old(out)@ + le64(x));
}

/// Appends all of `bytes` to `out`.
pub fn push_all(out: &mut Vec<u8>, bytes: &[u8])
    ensures
        final(out)@ == old(out)@ + bytes@,
{
    out.extend_from_slice(bytes);
    assert(out@ =~= old(out)@ + bytes@);
}

/// A copy of `bytes`.
pub fn copy_of(bytes: &[u8]) -> (r: Vec<u8>)
    ensures
        r@ == bytes@,
{
    let mut r: Vec<u8> = Vec::new();
    push_all(&mut r, bytes);
    assert(r@ =~= bytes@);
    r
}

/// Whether `a` comes before `b`: the first byte in which they differ decides, and a proper
/// prefix comes before what it begins.
pub open spec fn comes_before(a: Seq<u8>, b: Seq<u8>) -> bool
    decreases a.len(),
{
    if b.len() == 0 {
        false
    } else if a.len() == 0 {
        true
    } else if a[0] == b[0] {
        comes_before(a.drop_first(), b.drop_first())
    } else {
        a[0] < b[0]
    }
}

/// Of two names exactly one comes before the other, unless they are the same name.
pub proof fn order_is_total(a: Seq<u8>, b: Seq<u8>)
    ensures
        !(comes_before(a, b) && comes_before(b, a)),
        comes_before(a, b) || comes_before(b, a) || a == b,
        !comes_before(a, a),
    decreases a.len(),
{
    if a.len() > 0 {
        order_is_total(a.drop_first(), a.drop_first());
        if b.len() > 0 {
            order_is_total(a.drop_first(), b.drop_first());
            if a[0] == b[0] && a.drop_first() == b.drop_first() {
                assert(a =~= seq![a[0]] + a.drop_first());
                assert(b =~= seq![b[0]] + b.drop_first());
            }
        }
    } else if b.len() == 0 {
        assert(a =~= b);
    }
}

/// A name that comes before a second comes before all that the second comes before.
pub proof fn order_is_transitive(a: Seq<u8>, b: Seq<u8>, c: Seq<u8>)
    requires
        comes_before(a, b),
        comes_before(b, c),
    ensures
        comes_before(a, c),
    decreases a.len(),
{
    if a.len() > 0 && a[0] == b[0] && b[0] == c[0] {
        order_is_transitive(a.drop_first(), b.drop_first(), c.drop_first());
    }
}

/// Whether `a` and `b` hold the same bytes.
pub fn same_bytes(a: &[u8], b: &[u8]) -> (r: bool)
    ensures
        r == (a@ == b@),
{
    if a.len() != b.len() {
        return false;
    }
    let mut i: usize = 0;
    while i < a.len()
        invariant
            i <= a.len() == b.len(),
            forall|j: int| 0 <= j < i ==> a@[j] == b@[j],
        decreases a.len() - i,
    {
        if a[i] != b[i] {
            return false;
        }
        i += 1;
    }
    assert(a@ =~= b@);
    true
}

/// Whether `a` comes before `b`.
pub fn is_before(a: &[u8], b: &[u8]) -> (r: bool)
    ensures
        r == comes_before(a@, b@),
{
    let mut i: usize = 0;
    assert(a@.skip(0) =~= a@ && b@.skip(0) =~= b@);
    while i < a.len() && i < b.len()
        invariant
            i <= a.len(),
            i <= b.len(),
            comes_before(a@, b@) == comes_before(a@.skip(i as int), b@.skip(i as int)),
        decreases a.len() - i,
    {
        if a[i] != b[i] {
            return a[i] < b[i];
        }
        assert(a@.skip(i as int).drop_first() =~= a@.skip(i + 1));
        assert(b@.skip(i as int).drop_first() =~= b@.skip(i + 1));
        i += 1;
    }
    i < b.len()
}

/// The bytes of a number are its digits to the base 256, the least significant first.
pub proof fn bytes_are_digits(a: u16, b: u32, c: u64)
    ensures
        le16(a).len() == 2,
        a == le16(a)[0] + 0x100 * le16(a)[1],
        le32(b).len() == 4,
        b == le32(b)[0] + 0x100 * le32(b)[1] + 0x1_0000 * le32(b)[2] + 0x100_0000 * le32(b)[3],
        le64(c).len() == 8,
        c == le64(c)[0] + 0x100 * le64(c)[1] + 0x1_0000 * le64(c)[2] + 0x100_0000 * le64(c)[3] + 0x1_0000_0000
            * le64(c)[4] + 0x100_0000_0000 * le64(c)[5] + 0x1_0000_0000_0000 * le64(c)[6]
            + 0x100_0000_0000_0000 * le64(c)[7],
{
    let low = (c % 0x1_0000_0000) as u32;
    let high = (c / 0x1_0000_0000) as u32;
    assert(low == le32(low)[0] + 0x100 * le32(low)[1] + 0x1_0000 * le32(low)[2] + 0x100_0000 * le32(low)[3]);
    assert(high == le32(high)[0] + 0x100 * le32(high)[1] + 0x1_0000 * le32(high)[2] + 0x100_0000 * le32(
        high,
    )[3]);
}

/// A number is read from its digits to the base 256, the least significant first.
pub proof fn numbers_are_of_digits(s: Seq<u8>, at: int)
    ensures
        u16_at(s, at) == s[at] + 0x100 * s[at + 1],
        u32_at(s, at) == s[at] + 0x100 * s[at + 1] + 0x1_0000 * s[at + 2] + 0x100_0000 * s[at + 3],
        u64_at(s, at) == s[at] + 0x100 * s[at + 1] + 0x1_0000 * s[at + 2] + 0x100_0000 * s[at + 3]
            + 0x1_0000_0000 * s[at + 4] + 0x100_0000_0000 * s[at + 5] + 0x1_0000_0000_0000 * s[at + 6]
            + 0x100_0000_0000_0000 * s[at + 7],
{
}

/// The first byte in which two names differ decides which comes before the other, and a name comes before
/// all that it begins.
pub proof fn first_difference_decides(common: Seq<u8>, x: u8, a: Seq<u8>, y: u8, b: Seq<u8>)
    ensures
        comes_before(common + seq![x] + a, common + seq![y] + b) <== x < y,
        comes_before(common, common + seq![x] + a),
    decreases common.len(),
{
    let s = common + seq![x] + a;
    let t = common + seq![y] + b;
    if common.len() > 0 {
        let rest = common.drop_first();
        first_difference_decides(rest, x, a, y, b);
        assert(s.drop_first() =~= rest + seq![x] + a);
        assert(t.drop_first() =~= rest + seq![y] + b);
    }
}

} // verus!
