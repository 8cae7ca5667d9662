//! Metadata tables: streams of records that are stored in blocks of eight KiB.

use vstd::prelude::*;
use crate::bytes::{copy_of, le16, push_all, push_u16};
use crate::compressor::{is_compressed, store, stored, Compressor};
use vstd::slice::slice_subrange;

verus! {

/// How many bytes of a stream one metadata block holds.
pub const METADATA_MAXSIZE: usize = 0x2000;

/// Marks, in the length in front of a metadata block, that the block is not compressed.
pub open spec fn uncompressed_len(len: u16) -> u16 {
    len | 0x8000
}

/// Marks in a length that the metadata block behind it is not compressed.
pub fn set_if_uncompressed(len: u16) -> (r: u16)
    ensures
        r == uncompressed_len(len),
        r == if len < 0x8000 {
            len + 0x8000
        } else {
            len as int
        },
{
    assert(len < 0x8000 ==> len | 0x8000 == len + 0x8000) by (bit_vector);
    assert(len >= 0x8000 ==> len | 0x8000 == len) by (bit_vector);
    len | 0x8000
}

/// One metadata block: the length of what is stored, then what is stored.
pub open spec fn metadata_block(compressor: Compressor, bytes: Seq<u8>) -> Seq<u8> {
    let len = stored(compressor, bytes).len() as u16;
    le16(if is_compressed(compressor, bytes) { len } else { uncompressed_len(len) }) + stored(
        compressor,
        bytes,
    )
}

/// The blocks that hold the stream `s`: full ones, and one with the rest.
pub open spec fn metadata_blocks(compressor: Compressor, s: Seq<u8>) -> Seq<u8>
    decreases s.len(),
{
    if s.len() == 0 {
        Seq::empty()
    } else if s.len() <= METADATA_MAXSIZE {
        metadata_block(compressor, s)
    } else {
        metadata_block(compressor, s.take(METADATA_MAXSIZE as int)) + metadata_blocks(
            compressor,
            s.skip(METADATA_MAXSIZE as int),
        )
    }
}

/// How many bytes of the stream `s` fill whole blocks.
pub open spec fn whole_len(s: Seq<u8>) -> int {
    s.len() - s.len() % METADATA_MAXSIZE as nat
}

/// Where, in the stored table, the block begins that a record behind the stream `s` would be in.
pub open spec fn block_start(compressor: Compressor, s: Seq<u8>) -> int {
    metadata_blocks(compressor, s.take(whole_len(s))).len() as int
}

/// Where, in its block, a record behind the stream `s` would begin.
pub open spec fn block_offset(s: Seq<u8>) -> u16 {
    (s.len() % METADATA_MAXSIZE as nat) as u16
}

/// Blocks that are full stay as they are, whatever follows them in the stream.
pub proof fn whole_blocks_stay(compressor: Compressor, whole: Seq<u8>, rest: Seq<u8>)
    requires
        whole.len() % METADATA_MAXSIZE as nat == 0,
    ensures
        metadata_blocks(compressor, whole + rest) == metadata_blocks(compressor, whole)
            + metadata_blocks(compressor, rest),
    decreases whole.len(),
{
    let n = METADATA_MAXSIZE as int;
    let s = whole + rest;
    if whole.len() == 0 {
        assert(s =~= rest);
        assert(metadata_blocks(compressor, s) =~= metadata_blocks(compressor, whole)
            + metadata_blocks(compressor, rest));
    } else {
        assert(whole.len() >= n);
        assert((whole.len() - n) % n == 0);
        let tail = whole.skip(n);
        if s.len() <= n {
            assert(s =~= whole);
            assert(metadata_blocks(compressor, s) =~= metadata_blocks(compressor, whole)
                + metadata_blocks(compressor, rest));
        } else {
            whole_blocks_stay(compressor, tail, rest);
            assert(s.take(n) =~= whole.take(n));
            assert(s.skip(n) =~= tail + rest);
            if whole.len() == n {
                assert(whole.take(n) =~= whole);
                assert(tail =~= Seq::empty());
            }
            assert(metadata_blocks(compressor, whole) =~= metadata_block(compressor, whole.take(n))
                + metadata_blocks(compressor, tail));
            assert(metadata_blocks(compressor, s) =~= metadata_blocks(compressor, whole)
                + metadata_blocks(compressor, rest));
        }
    }
}

/// Blocks begin no earlier when the stream is longer.
pub proof fn block_start_grows(compressor: Compressor, s: Seq<u8>, more: Seq<u8>)
    ensures
        block_start(compressor, s) <= block_start(compressor, s + more),
{
    let t = s + more;
    let whole = t.take(whole_len(t));
    let from = whole_len(s);
    assert(whole =~= whole.take(from) + whole.skip(from));
    whole_blocks_stay(compressor, whole.take(from), whole.skip(from));
    assert(whole.take(from) =~= s.take(from));
}

/// A record is found again where it began: the table has, from the block start that held when the
/// record was written on, the blocks of what the stream holds from there on, and the record stands
/// in it at the block offset that held then.
pub proof fn record_is_found(compressor: Compressor, before: Seq<u8>, rest: Seq<u8>)
    ensures
        ({
            let table = metadata_blocks(compressor, before + rest);
            let start = block_start(compressor, before);
            let from = whole_len(before);
            &&& 0 <= start <= table.len()
            &&& table.skip(start) == metadata_blocks(compressor, (before + rest).skip(from))
            &&& (before + rest).skip(from).skip(block_offset(before) as int) == rest
        }),
{
    let s = before + rest;
    let from = whole_len(before);
    assert(s =~= s.take(from) + s.skip(from));
    whole_blocks_stay(compressor, s.take(from), s.skip(from));
    assert(s.take(from) =~= before.take(from));
    let head = metadata_blocks(compressor, s.take(from));
    assert((head + metadata_blocks(compressor, s.skip(from))).skip(head.len() as int)
        =~= metadata_blocks(compressor, s.skip(from)));
    assert(s.skip(from).skip(block_offset(before) as int) =~= rest);
}

/// Writes a stream of records as metadata blocks. A block is compressed as soon as it is full.
pub struct MetadataWriter {
    compressor: Compressor,
    /// Where the block that is being filled will begin in the table
    metadata_start: u32,
    /// The bytes of the block that is being filled
    uncompressed_bytes: Vec<u8>,
    /// The blocks that are full, as they are stored
    compressed_bytes: Vec<u8>,
    /// All that was written
    stream: Ghost<Seq<u8>>,
}

impl View for MetadataWriter {
    type V = Seq<u8>;

    /// All that was written.
    closed spec fn view(&self) -> Seq<u8> {
        self.stream@
    }
}

impl MetadataWriter {
    /// What compresses the blocks.
    pub closed spec fn spec_compressor(self) -> Compressor {
        self.compressor
    }

    /// The fields agree with the stream that was written.
    pub closed spec fn wf(self) -> bool {
        let s = self.stream@;
        &&& self.compressor.writes()
        &&& self.uncompressed_bytes@ == s.skip(whole_len(s))
        &&& self.compressed_bytes@ == metadata_blocks(self.compressor, s.take(whole_len(s)))
        &&& self.metadata_start == self.compressed_bytes@.len()
    }

    /// Where the block that is being filled will begin in the table.
    pub fn metadata_start(&self) -> (r: u32)
        requires
            self.wf(),
        ensures
            r == block_start(self.spec_compressor(), self@),
    {
        self.metadata_start
    }

    /// Where, in the block that is being filled, the next record will begin.
    pub fn uncompressed_len(&self) -> (r: u16)
        requires
            self.wf(),
        ensures
            r == block_offset(self@),
            r < METADATA_MAXSIZE,
    {
        self.uncompressed_bytes.len() as u16
    }

    /// A writer for an empty table.
    pub fn new(compressor: Compressor) -> (r: Self)
        requires
            compressor.writes(),
        ensures
            r.wf(),
            r.spec_compressor() == compressor,
            r@ == Seq::<u8>::empty(),
    {
        let r = MetadataWriter {
            compressor,
            metadata_start: 0,
            uncompressed_bytes: Vec::new(),
            compressed_bytes: Vec::new(),
            stream: Ghost(Seq::empty()),
        };
        assert(r.uncompressed_bytes@ =~= r@.skip(whole_len(r@)));
        assert(r@.take(whole_len(r@)) =~= Seq::empty());
        assert(r.compressed_bytes@ =~= metadata_blocks(compressor, r@.take(whole_len(r@))));
        r
    }

    /// Appends `buf` to the stream. Nothing is written, and the result is `false`, where the block
    /// that is then being filled would begin too far into the table for the 32 bits that refer to it.
    pub fn write_all(&mut self, buf: &[u8]) -> (r: bool)
        requires
            old(self).wf(),
        ensures
            final(self).wf(),
            final(self).spec_compressor() == old(self).spec_compressor(),
            r == (block_start(old(self).spec_compressor(), old(self)@ + buf@) <= u32::MAX),
            final(self)@ == if r {
                old(self)@ + buf@
            } else {
                old(self)@
            },
    {
        let ghost s = self@;
        let ghost t = s + buf@;
        let ghost base = whole_len(s);
        let mut pending: Vec<u8> = copy_of(&self.uncompressed_bytes);
        push_all(&mut pending, buf);
        assert(pending@ =~= t.skip(base));
        let mut full: Vec<u8> = Vec::new();
        let mut at: usize = 0;
        assert(t.take(base) =~= s.take(base));
        assert(self.compressed_bytes@ + full@ =~= self.compressed_bytes@);
        while pending.len() - at >= METADATA_MAXSIZE
            invariant
                at <= pending.len(),
                self.compressor.writes(),
                base % METADATA_MAXSIZE as int == 0,
                at % METADATA_MAXSIZE == 0,
                0 <= base <= t.len(),
                pending@ == t.skip(base),
                self.compressed_bytes@ + full@ == metadata_blocks(self.compressor, t.take(base + at)),
            decreases pending.len() - at,
        {
            let ghost done = t.take(base + at);
            let block: &[u8] = slice_subrange(pending.as_slice(), at, at + METADATA_MAXSIZE);
            let ghost before = full@;
            let (bytes, smaller) = store(block, self.compressor);
            let len: u16 = bytes.len() as u16;
            push_u16(&mut full, if smaller { len } else { set_if_uncompressed(len) });
            push_all(&mut full, bytes.as_slice());
            proof {
                assert(full@ =~= before + metadata_block(self.compressor, block@));
                assert(metadata_blocks(self.compressor, block@) == metadata_block(self.compressor, block@));
                whole_blocks_stay(self.compressor, done, block@);
                assert(done + block@ =~= t.take(base + at + METADATA_MAXSIZE));
                assert(self.compressed_bytes@ + full@ =~= self.compressed_bytes@ + before
                    + metadata_block(self.compressor, block@));
            }
            at += METADATA_MAXSIZE;
        }
        proof {
            assert(base + at == whole_len(t));
        }
        if full.len() > (u32::MAX - self.metadata_start) as usize {
            return false;
        }
        self.metadata_start = self.metadata_start + full.len() as u32;
        self.compressed_bytes.append(&mut full);
        self.uncompressed_bytes = copy_of(slice_subrange(pending.as_slice(), at, pending.len()));
        self.stream = Ghost(t);
        assert(self.uncompressed_bytes@ =~= t.skip(whole_len(t)));
        true
    }

    /// The table: all that was written, in blocks.
    pub fn finalize(&self) -> (r: Vec<u8>)
        requires
            self.wf(),
        ensures
            r@ == metadata_blocks(self.spec_compressor(), self@),
    {
        let mut out: Vec<u8> = copy_of(&self.compressed_bytes);
        let ghost s = self@;
        let ghost whole = s.take(whole_len(s));
        let ghost rest = s.skip(whole_len(s));
        proof {
            assert(s =~= whole + rest);
            whole_blocks_stay(self.compressor, whole, rest);
        }
        if self.uncompressed_bytes.len() > 0 {
            let (bytes, smaller) = store(&self.uncompressed_bytes, self.compressor);
            let len: u16 = bytes.len() as u16;
            push_u16(&mut out, if smaller { len } else { set_if_uncompressed(len) });
            push_all(&mut out, bytes.as_slice());
            assert(out@ =~= self.compressed_bytes@ + metadata_block(self.compressor, rest));
        } else {
            assert(out@ =~= self.compressed_bytes@ + metadata_blocks(self.compressor, rest));
        }
        out
    }
}

/// A stream is stored eight KiB to a block, in order, with what is left in a last block. A record behind the
/// stream begins in the block that the whole ones lead to, at an offset of what they leave over.
pub proof fn blocks_hold_eight_kib(compressor: Compressor, s: Seq<u8>)
    ensures
        s.len() == 0 ==> metadata_blocks(compressor, s) == Seq::<u8>::empty(),
        0 < s.len() <= 0x2000 ==> metadata_blocks(compressor, s) == metadata_block(compressor, s),
        s.len() > 0x2000 ==> metadata_blocks(compressor, s) == metadata_block(compressor, s.take(0x2000))
            + metadata_blocks(compressor, s.skip(0x2000)),
        block_offset(s) == s.len() % 0x2000,
        block_start(compressor, s) == metadata_blocks(compressor, s.take(s.len() - s.len() % 0x2000)).len(),
{
}

} // verus!
