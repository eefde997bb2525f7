//! Errors of the paging engine.
use vstd::prelude::*;

verus! {

/// Why a paging operation did not complete.
#[derive(Clone, Copy, PartialEq, Eq, Structural, Debug)]
pub enum PagingError {
    /// A run of pages, or the frames it maps to, reaches the 48-bit address limit, or a
    /// range is reversed.
    InvalidAddress,
    /// An address that violates the alignment its size class requires.
    MisalignedAddress,
    /// A page cannot be mapped at its size's level: the walk to its slot ends at a
    /// level above, in a larger page that is mapped there.
    LevelMismatch,
    /// The physical frame allocator has no frame left.
    AllocationFailure,
}

} // verus!
