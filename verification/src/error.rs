//! What can keep an image from being written.

use vstd::prelude::*;
use crate::compressor::Compressor;

verus! {

/// Why an image could not be written.
#[derive(Debug, PartialEq, Eq, Clone, Copy)]
pub enum SquashfsError {
    /// Blocks cannot be compressed with this compressor.
    UnsupportedCompression(Compressor),
    /// There are no nodes, a place has no node or a file no name, the root is not a directory, or what
    /// must be recorded does not fit in the field for it.
    Unrepresentable,
}

} // verus!
