//! The fragment table: where blocks are stored that several small files share.

use vstd::prelude::*;
use crate::bytes::{le32, le64, push_u32, push_u64};

verus! {

/// Where a fragment block is stored.
#[derive(Debug, PartialEq, Eq, Clone, Copy, Structural)]
pub struct Fragment {
    /// Where the block begins in the image
    pub start: u64,
    /// How many bytes are stored, marked if they are not compressed
    pub size: u32,
    pub unused: u32,
}

impl Fragment {
    /// The record of the fragment table.
    pub open spec fn record(self) -> Seq<u8> {
        le64(self.start) + le32(self.size) + le32(self.unused)
    }

    /// The record of the fragment table.
    pub fn to_bytes(&self) -> (r: Vec<u8>)
        ensures
            r@ == self.record(),
    {
        let mut out: Vec<u8> = Vec::new();
        push_u64(&mut out, self.start);
        push_u32(&mut out, self.size);
        push_u32(&mut out, self.unused);
        assert(out@ =~= self.record());
        out
    }
}

/// The records of several fragments, one behind the other.
pub open spec fn fragment_records(table: Seq<Fragment>) -> Seq<u8>
    decreases table.len(),
{
    if table.len() == 0 {
        Seq::empty()
    } else {
        fragment_records(table.drop_last()) + table.last().record()
    }
}

} // verus!
