//! The contents of files: blocks of their own for large files, shared fragments for small ones.

use vstd::prelude::*;
use vstd::slice::slice_subrange;
use crate::bytes::push_all;
use crate::compressor::{is_compressed, store, stored, Compressor};
use crate::fragment::Fragment;

verus! {

/// Marks, in the size of a data block, that the block is not compressed.
pub const DATA_STORED_UNCOMPRESSED: u32 = 0x100_0000;

/// The size that is recorded of a stored data block.
pub open spec fn block_size_field(compressor: Compressor, bytes: Seq<u8>) -> u32 {
    let len = stored(compressor, bytes).len() as u32;
    if is_compressed(compressor, bytes) {
        len
    } else {
        len | DATA_STORED_UNCOMPRESSED
    }
}

/// What is stored of a file that has blocks of its own, `block_size` of its bytes in each.
pub open spec fn file_blocks(compressor: Compressor, block_size: u32, bytes: Seq<u8>) -> Seq<u8>
    decreases bytes.len(),
{
    if bytes.len() == 0 || block_size == 0 {
        Seq::empty()
    } else if bytes.len() <= block_size {
        stored(compressor, bytes)
    } else {
        stored(compressor, bytes.take(block_size as int)) + file_blocks(
            compressor,
            block_size,
            bytes.skip(block_size as int),
        )
    }
}

/// The sizes that are recorded of the blocks of such a file.
pub open spec fn file_block_sizes(compressor: Compressor, block_size: u32, bytes: Seq<u8>) -> Seq<u32>
    decreases bytes.len(),
{
    if bytes.len() == 0 || block_size == 0 {
        Seq::empty()
    } else if bytes.len() <= block_size {
        seq![block_size_field(compressor, bytes)]
    } else {
        seq![block_size_field(compressor, bytes.take(block_size as int))] + file_block_sizes(
            compressor,
            block_size,
            bytes.skip(block_size as int),
        )
    }
}

/// Where the contents of a file were put.
#[derive(Debug, PartialEq, Eq, Clone)]
pub enum Added {
    /// In blocks of its own, from `blocks_start` on
    Data { blocks_start: u32, block_sizes: Vec<u32> },
    /// In the fragment `frag_index`, from `block_offset` on
    Fragment { frag_index: u32, block_offset: u32 },
}

/// Where the contents of a file were put.
#[verifier::ext_equal]
pub enum AddedView {
    Data { blocks_start: u32, block_sizes: Seq<u32> },
    Fragment { frag_index: u32, block_offset: u32 },
}

impl View for Added {
    type V = AddedView;

    open spec fn view(&self) -> AddedView {
        match self {
            Added::Data { blocks_start, block_sizes } => AddedView::Data {
                blocks_start: *blocks_start,
                block_sizes: block_sizes@,
            },
            Added::Fragment { frag_index, block_offset } => AddedView::Fragment {
                frag_index: *frag_index,
                block_offset: *block_offset,
            },
        }
    }
}

/// What has been stored of the contents of files.
#[verifier::ext_equal]
pub struct DataView {
    /// What compresses the blocks
    pub compressor: Compressor,
    /// How many bytes of a file a block holds
    pub block_size: u32,
    /// Where the data begins in the image
    pub data_start: u32,
    /// The blocks that are stored
    pub data: Seq<u8>,
    /// The fragment that is being filled
    pub fragment: Seq<u8>,
    /// The fragments that are stored
    pub table: Seq<Fragment>,
}

impl DataView {
    /// Nothing has been stored.
    pub open spec fn empty(compressor: Compressor, block_size: u32, data_start: u32) -> DataView {
        DataView {
            compressor,
            block_size,
            data_start,
            data: Seq::empty(),
            fragment: Seq::empty(),
            table: Seq::empty(),
        }
    }

    /// The fragment that is being filled is stored, if there is anything in it.
    pub open spec fn flushed(self) -> Option<DataView> {
        if self.fragment.len() == 0 {
            Some(self)
        } else if self.data_start + self.data.len() > u64::MAX {
            None
        } else {
            Some(
                DataView {
                    data: self.data + stored(self.compressor, self.fragment),
                    fragment: Seq::empty(),
                    table: self.table.push(
                        Fragment {
                            start: (self.data_start + self.data.len()) as u64,
                            size: block_size_field(self.compressor, self.fragment),
                            unused: 0,
                        },
                    ),
                    ..self
                },
            )
        }
    }

    /// A file that is empty or that fills a block is given blocks of its own.
    pub open spec fn has_own_blocks(self, bytes: Seq<u8>) -> bool {
        bytes.len() == 0 || bytes.len() >= self.block_size
    }

    /// The contents `bytes` are added, if they can be referred to from where they come to stand.
    pub open spec fn added(self, bytes: Seq<u8>) -> Option<(AddedView, DataView)> {
        if self.has_own_blocks(bytes) {
            if self.data_start + self.data.len() > u32::MAX || (bytes.len() > 0 && self.block_size == 0) {
                None
            } else {
                Some(
                    (
                        AddedView::Data {
                            blocks_start: (self.data_start + self.data.len()) as u32,
                            block_sizes: file_block_sizes(self.compressor, self.block_size, bytes),
                        },
                        DataView {
                            data: self.data + file_blocks(self.compressor, self.block_size, bytes),
                            ..self
                        },
                    ),
                )
            }
        } else {
            let ready = if self.fragment.len() + bytes.len() > self.block_size {
                self.flushed()
            } else {
                Some(self)
            };
            match ready {
                Some(d) => if d.table.len() >= u32::MAX {
                    None
                } else {
                    Some(
                        (
                            AddedView::Fragment {
                                frag_index: d.table.len() as u32,
                                block_offset: d.fragment.len() as u32,
                            },
                            DataView { fragment: d.fragment + bytes, ..d },
                        ),
                    )
                },
                None => None,
            }
        }
    }
}

/// Stores the contents of files.
pub struct DataWriter {
    pub compressor: Compressor,
    pub block_size: u32,
    pub data_start: u32,
    pub data_bytes: Vec<u8>,
    pub fragment_bytes: Vec<u8>,
    pub fragment_table: Vec<Fragment>,
}

impl View for DataWriter {
    type V = DataView;

    open spec fn view(&self) -> DataView {
        DataView {
            compressor: self.compressor,
            block_size: self.block_size,
            data_start: self.data_start,
            data: self.data_bytes@,
            fragment: self.fragment_bytes@,
            table: self.fragment_table@,
        }
    }
}

impl DataWriter {
    /// The blocks can be compressed, and a fragment fits in a block.
    pub open spec fn wf(self) -> bool {
        &&& self.compressor.writes()
        &&& self.fragment_bytes@.len() <= self.block_size
    }

    /// A writer that has stored nothing.
    pub fn new(compressor: Compressor, data_start: u32, block_size: u32) -> (r: Self)
        requires
            compressor.writes(),
        ensures
            r.wf(),
            r@ == DataView::empty(compressor, block_size, data_start),
    {
        DataWriter {
            compressor,
            block_size,
            data_start,
            data_bytes: Vec::new(),
            fragment_bytes: Vec::new(),
            fragment_table: Vec::new(),
        }
    }

    /// Stores one block and returns the size to record for it.
    fn add_block(&mut self, bytes: &[u8]) -> (r: u32)
        requires
            old(self).wf(),
            bytes@.len() <= old(self).block_size,
        ensures
            final(self).wf(),
            r == block_size_field(old(self).compressor, bytes@),
            final(self)@ == (DataView {
                data: old(self)@.data + stored(old(self).compressor, bytes@),
                ..old(self)@
            }),
    {
        let (block, smaller) = store(bytes, self.compressor);
        let len: u32 = block.len() as u32;
        push_all(&mut self.data_bytes, block.as_slice());
        if smaller {
            len
        } else {
            len | DATA_STORED_UNCOMPRESSED
        }
    }

    /// Stores `bytes` in blocks of their own.
    fn add_blocks(&mut self, bytes: &[u8]) -> (r: Vec<u32>)
        requires
            old(self).wf(),
            bytes@.len() > 0 ==> old(self).block_size > 0,
        ensures
            final(self).wf(),
            r@ == file_block_sizes(old(self).compressor, old(self).block_size, bytes@),
            final(self)@ == (DataView {
                data: old(self)@.data + file_blocks(old(self).compressor, old(self).block_size, bytes@),
                ..old(self)@
            }),
    {
        let ghost start = self@;
        let mut sizes: Vec<u32> = Vec::new();
        let len: usize = bytes.len();
        let mut at: usize = 0;
        proof {
            assert(bytes@.skip(0) =~= bytes@);
            assert(sizes@ + file_block_sizes(start.compressor, start.block_size, bytes@)
                =~= file_block_sizes(start.compressor, start.block_size, bytes@));
        }
        while at < len
            invariant
                at <= len == bytes@.len(),
                self.wf(),
                len > 0 ==> self.block_size > 0,
                self@ == (DataView { data: self@.data, ..start }),
                self@.data + file_blocks(start.compressor, start.block_size, bytes@.skip(at as int))
                    == start.data + file_blocks(start.compressor, start.block_size, bytes@),
                sizes@ + file_block_sizes(start.compressor, start.block_size, bytes@.skip(at as int))
                    == file_block_sizes(start.compressor, start.block_size, bytes@),
            decreases len - at,
        {
            let ghost rest = bytes@.skip(at as int);
            let ghost data = self@.data;
            let ghost known = sizes@;
            let left: usize = len - at;
            let end: usize = if left as u64 > self.block_size as u64 {
                at + self.block_size as usize
            } else {
                len
            };
            let chunk: &[u8] = slice_subrange(bytes, at, end);
            let size: u32 = self.add_block(chunk);
            sizes.push(size);
            proof {
                assert(sizes@ =~= known + seq![size]);
                if left > self.block_size {
                    assert(chunk@ =~= rest.take(self.block_size as int));
                    assert(bytes@.skip(end as int) =~= rest.skip(self.block_size as int));
                } else {
                    assert(chunk@ =~= rest);
                    assert(bytes@.skip(end as int) =~= Seq::empty());
                }
                let more = file_blocks(start.compressor, start.block_size, bytes@.skip(end as int));
                assert(self@.data + more =~= data + file_blocks(start.compressor, start.block_size, rest));
                let more_sizes = file_block_sizes(
                    start.compressor,
                    start.block_size,
                    bytes@.skip(end as int),
                );
                assert(sizes@ + more_sizes =~= known + file_block_sizes(
                    start.compressor,
                    start.block_size,
                    rest,
                ));
            }
            at = end;
        }
        proof {
            assert(bytes@.skip(at as int) =~= Seq::empty());
            assert(self@.data =~= start.data + file_blocks(start.compressor, start.block_size, bytes@));
            assert(sizes@ =~= file_block_sizes(start.compressor, start.block_size, bytes@));
        }
        sizes
    }

    /// Adds the contents of a file, in blocks of their own or to the fragment that is being filled.
    /// There is no result, and nothing changes, where the contents could not be referred to from where
    /// they would stand.
    pub fn add_bytes(&mut self, bytes: &[u8]) -> (r: Option<Added>)
        requires
            old(self).wf(),
        ensures
            final(self).wf(),
            match r {
                Some(added) => old(self)@.added(bytes@) == Some((added@, final(self)@)),
                None => old(self)@.added(bytes@) is None && final(self)@ == old(self)@,
            },
    {
        if bytes.len() == 0 || bytes.len() as u64 >= self.block_size as u64 {
            if self.data_bytes.len() as u64 > (u32::MAX - self.data_start) as u64 || (bytes.len() > 0
                && self.block_size == 0) {
                return None;
            }
            let blocks_start: u32 = self.data_start + self.data_bytes.len() as u32;
            let block_sizes: Vec<u32> = self.add_blocks(bytes);
            return Some(Added::Data { blocks_start, block_sizes });
        }
        if self.fragment_bytes.len() as u64 + bytes.len() as u64 > self.block_size as u64 {
            if self.fragment_table.len() as u64 >= u32::MAX as u64 - 1 || !self.finalize() {
                return None;
            }
        } else if self.fragment_table.len() as u64 >= u32::MAX as u64 {
            return None;
        }
        let frag_index: u32 = self.fragment_table.len() as u32;
        let block_offset: u32 = self.fragment_bytes.len() as u32;
        push_all(&mut self.fragment_bytes, bytes);
        Some(Added::Fragment { frag_index, block_offset })
    }

    /// Stores the fragment that is being filled, if there is anything in it. The result is `false`
    /// where it could not be referred to from where it would stand; nothing is stored then.
    pub fn finalize(&mut self) -> (r: bool)
        requires
            old(self).wf(),
        ensures
            final(self).wf(),
            r == (old(self)@.flushed() is Some),
            final(self)@ == if r {
                old(self)@.flushed().unwrap()
            } else {
                old(self)@
            },
    {
        if self.fragment_bytes.len() == 0 {
            return true;
        }
        if self.data_bytes.len() as u64 > u64::MAX - self.data_start as u64 {
            return false;
        }
        let start: u64 = self.data_start as u64 + self.data_bytes.len() as u64;
        let mut fragment: Vec<u8> = Vec::new();
        fragment.append(&mut self.fragment_bytes);
        let size: u32 = self.add_block(fragment.as_slice());
        self.fragment_table.push(Fragment { start, size, unused: 0 });
        true
    }
}

/// A large file is cut into blocks that are full but for the last. What is stored of each follows what is
/// stored of those in front, and its size is recorded at the same place among the sizes.
pub proof fn file_is_cut_in_blocks(compressor: Compressor, block_size: u32, bytes: Seq<u8>, k: int)
    requires
        0 <= k,
        0 < block_size,
        k * block_size < bytes.len(),
    ensures
        ({
            let from = k * block_size;
            let to = if from + block_size < bytes.len() {
                from + block_size
            } else {
                bytes.len() as int
            };
            let piece = bytes.subrange(from, to);
            let blocks = file_blocks(compressor, block_size, bytes);
            let sizes = file_block_sizes(compressor, block_size, bytes);
            let at = file_blocks(compressor, block_size, bytes.take(from)).len() as int;
            &&& k == 0 ==> at == 0
            &&& file_blocks(compressor, block_size, bytes.take(to)).len() == at + stored(compressor, piece).len()
            &&& at + stored(compressor, piece).len() <= blocks.len()
            &&& blocks.subrange(at, at + stored(compressor, piece).len()) == stored(compressor, piece)
            &&& k < sizes.len()
            &&& sizes[k] == block_size_field(compressor, piece)
            &&& to == bytes.len() ==> sizes.len() == k + 1 && blocks.len() == at + stored(
                compressor,
                piece,
            ).len()
        }),
{
    times_is_product(k, block_size as int);
    let from = k * block_size;
    let to = if from + block_size < bytes.len() {
        from + block_size
    } else {
        bytes.len() as int
    };
    piece_stands(compressor, block_size, bytes, k, from, to);
    reveal(is_cut);
}

/// `n` taken `k` times.
spec fn times(k: int, n: int) -> int
    decreases k,
{
    if k <= 0 {
        0
    } else {
        times(k - 1, n) + n
    }
}

proof fn times_is_product(k: int, n: int)
    requires
        0 <= k,
    ensures
        times(k, n) == k * n,
    decreases k,
{
    if k > 0 {
        times_is_product(k - 1, n);
        assert(k * n == (k - 1) * n + n) by (nonlinear_arith);
    } else {
        assert(0 * n == 0);
    }
}

/// Whether the `k`th block of a large file, from `from` to `to`, stands where it belongs.
#[verifier::opaque]
spec fn is_cut(compressor: Compressor, block_size: u32, bytes: Seq<u8>, k: int, from: int, to: int) -> bool {
    let piece = stored(compressor, bytes.subrange(from, to));
    let blocks = file_blocks(compressor, block_size, bytes);
    let sizes = file_block_sizes(compressor, block_size, bytes);
    let at = file_blocks(compressor, block_size, bytes.take(from)).len() as int;
    &&& k == 0 ==> at == 0
    &&& file_blocks(compressor, block_size, bytes.take(to)).len() == at + piece.len()
    &&& at + piece.len() <= blocks.len()
    &&& blocks.subrange(at, at + piece.len()) == piece
    &&& k < sizes.len()
    &&& sizes[k] == block_size_field(compressor, bytes.subrange(from, to))
    &&& to == bytes.len() ==> sizes.len() == k + 1 && blocks.len() == at + piece.len()
}

proof fn piece_stands(compressor: Compressor, block_size: u32, bytes: Seq<u8>, k: int, from: int, to: int)
    requires
        0 <= k,
        0 < block_size,
        from == times(k, block_size as int),
        from < bytes.len(),
        to == if from + block_size < bytes.len() {
            from + block_size
        } else {
            bytes.len() as int
        },
    ensures
        is_cut(compressor, block_size, bytes, k, from, to),
        from >= 0,
    decreases k,
{
    let n = block_size as int;
    if k == 0 {
        first_piece_stands(compressor, block_size, bytes, to);
    } else {
        times_grows(k - 1, n);
        piece_stands(compressor, block_size, bytes.skip(n), k - 1, from - n, to - n);
        next_piece_stands(compressor, block_size, bytes, k, from, to);
    }
}

proof fn times_grows(k: int, n: int)
    requires
        0 <= k,
        0 <= n,
    ensures
        times(k, n) >= 0,
    decreases k,
{
    if k > 0 {
        times_grows(k - 1, n);
    }
}

proof fn first_piece_stands(compressor: Compressor, block_size: u32, bytes: Seq<u8>, to: int)
    requires
        0 < block_size,
        0 < bytes.len(),
        to == if block_size < bytes.len() {
            block_size as int
        } else {
            bytes.len() as int
        },
    ensures
        is_cut(compressor, block_size, bytes, 0, 0, to),
{
    reveal(is_cut);
    let blocks = file_blocks(compressor, block_size, bytes);
    let piece = stored(compressor, bytes.subrange(0, to));
    assert(bytes.take(0) =~= Seq::empty());
    assert(bytes.subrange(0, to) =~= bytes.take(to));
    if bytes.len() <= block_size {
        assert(bytes.take(to) =~= bytes);
        assert(blocks.subrange(0, blocks.len() as int) =~= blocks);
    } else {
        assert(blocks.subrange(0, piece.len() as int) =~= piece);
        assert(bytes.skip(block_size as int).len() > 0);
    }
}

proof fn next_piece_stands(compressor: Compressor, block_size: u32, bytes: Seq<u8>, k: int, from: int, to: int)
    requires
        0 < k,
        0 < block_size <= from < to <= bytes.len(),
        is_cut(
            compressor,
            block_size,
            bytes.skip(block_size as int),
            k - 1,
            from - block_size,
            to - block_size,
        ),
    ensures
        is_cut(compressor, block_size, bytes, k, from, to),
{
    reveal(is_cut);
    let n = block_size as int;
    let rest = bytes.skip(n);
    let first = stored(compressor, bytes.take(n));
    let blocks = file_blocks(compressor, block_size, bytes);
    let later = file_blocks(compressor, block_size, rest);
    let piece = stored(compressor, bytes.subrange(from, to));
    assert(rest.subrange(from - n, to - n) =~= bytes.subrange(from, to));
    front_of_blocks(compressor, block_size, bytes, from);
    front_of_blocks(compressor, block_size, bytes, to);
    let at = file_blocks(compressor, block_size, rest.take(from - n)).len() as int;
    assert(blocks == first + later);
    assert(blocks.subrange(first.len() + at, first.len() + at + piece.len()) =~= later.subrange(
        at,
        at + piece.len(),
    ));
}

proof fn front_of_blocks(compressor: Compressor, block_size: u32, bytes: Seq<u8>, to: int)
    requires
        0 < block_size <= to <= bytes.len(),
    ensures
        file_blocks(compressor, block_size, bytes.take(to)) == stored(compressor, bytes.take(block_size as int))
            + file_blocks(compressor, block_size, bytes.skip(block_size as int).take(to - block_size)),
{
    let n = block_size as int;
    let front = bytes.take(to);
    if to == n {
        assert(bytes.skip(n).take(0) =~= Seq::empty());
        assert(file_blocks(compressor, block_size, front) =~= stored(compressor, front) + Seq::empty());
    } else {
        assert(front.take(n) =~= bytes.take(n));
        assert(front.skip(n) =~= bytes.skip(n).take(to - n));
    }
}

/// Contents that are added come behind all that is there. A file that is empty or fills a block has blocks of
/// its own behind the stored data. Any other comes behind what the fragment that is being filled holds, if
/// that leaves room, and is the first in a new one if not.
pub proof fn contents_are_added(d: DataView, bytes: Seq<u8>)
    requires
        d.added(bytes) is Some,
    ensures
        ({
            let b = d.added(bytes).unwrap().1;
            &&& b.compressor == d.compressor
            &&& b.block_size == d.block_size
            &&& b.data_start == d.data_start
            &&& match d.added(bytes).unwrap().0 {
                AddedView::Data { blocks_start, block_sizes } => {
                    &&& bytes.len() == 0 || bytes.len() >= d.block_size
                    &&& blocks_start == d.data_start + d.data.len()
                    &&& block_sizes == file_block_sizes(d.compressor, d.block_size, bytes)
                    &&& b.data == d.data + file_blocks(d.compressor, d.block_size, bytes)
                    &&& b.fragment == d.fragment
                    &&& b.table == d.table
                },
                AddedView::Fragment { frag_index, block_offset } => {
                    &&& 0 < bytes.len() < d.block_size
                    &&& frag_index == b.table.len()
                    &&& d.fragment.len() + bytes.len() <= d.block_size ==> {
                        &&& b.fragment == d.fragment + bytes
                        &&& block_offset == d.fragment.len()
                        &&& b.table == d.table
                        &&& b.data == d.data
                    }
                    &&& d.fragment.len() + bytes.len() > d.block_size ==> {
                        &&& b.fragment == bytes
                        &&& block_offset == 0
                        &&& d.fragment.len() > 0
                        &&& b.table.len() == d.table.len() + 1
                        &&& b.table.drop_last() == d.table
                        &&& b.table.last().start == d.data_start + d.data.len()
                        &&& b.table.last().size == block_size_field(d.compressor, d.fragment)
                        &&& b.data == d.data + stored(d.compressor, d.fragment)
                    }
                },
            }
        }),
{
    let b = d.added(bytes).unwrap().1;
    if !d.has_own_blocks(bytes) && d.fragment.len() + bytes.len() > d.block_size {
        assert(b.fragment =~= bytes);
        assert(b.table.drop_last() =~= d.table);
    }
}

/// Contents can be added as long as the data and the fragments are few enough for the numbers that refer to
/// them, if blocks hold anything.
pub proof fn contents_can_be_added(d: DataView, bytes: Seq<u8>)
    requires
        d.block_size > 0,
        d.data_start + d.data.len() <= u32::MAX,
        d.table.len() < u32::MAX - 1,
    ensures
        d.added(bytes) is Some,
        d.flushed() is Some,
{
}

/// Storing the fragment that is being filled puts it behind the stored data and into the fragment table, if
/// there is anything in it, and changes nothing else.
pub proof fn fragment_is_flushed(d: DataView)
    requires
        d.flushed() is Some,
    ensures
        ({
            let b = d.flushed().unwrap();
            &&& b.compressor == d.compressor
            &&& b.block_size == d.block_size
            &&& b.data_start == d.data_start
            &&& b.fragment.len() == 0
            &&& d.fragment.len() == 0 ==> b == d
            &&& d.fragment.len() > 0 ==> {
                &&& b.data == d.data + stored(d.compressor, d.fragment)
                &&& b.table.len() == d.table.len() + 1
                &&& b.table.drop_last() == d.table
                &&& b.table.last().start == d.data_start + d.data.len()
                &&& b.table.last().size == block_size_field(d.compressor, d.fragment)
                &&& b.table.last().unused == 0
            }
        }),
{
    let b = d.flushed().unwrap();
    if d.fragment.len() > 0 {
        assert(b.table.drop_last() =~= d.table);
    }
}

/// What is said of a writer and of what it adds is said of their fields.
pub proof fn data_is_of_fields(writer: DataWriter, added: Added)
    ensures
        writer@.compressor == writer.compressor,
        writer@.block_size == writer.block_size,
        writer@.data_start == writer.data_start,
        writer@.data == writer.data_bytes@,
        writer@.fragment == writer.fragment_bytes@,
        writer@.table == writer.fragment_table@,
        match added {
            Added::Data { blocks_start, block_sizes } => added@ == (AddedView::Data {
                blocks_start,
                block_sizes: block_sizes@,
            }),
            Added::Fragment { frag_index, block_offset } => added@ == (AddedView::Fragment {
                frag_index,
                block_offset,
            }),
        },
{
}

/// A writer that has stored nothing has no data, no fragment and no table.
pub proof fn data_starts_empty(compressor: Compressor, block_size: u32, data_start: u32)
    ensures
        ({
            let d = DataView::empty(compressor, block_size, data_start);
            &&& d.compressor == compressor
            &&& d.block_size == block_size
            &&& d.data_start == data_start
            &&& d.data.len() == 0
            &&& d.fragment.len() == 0
            &&& d.table.len() == 0
        }),
{
}

} // verus!
