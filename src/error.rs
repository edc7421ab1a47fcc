//! What can go wrong when a segment is read or merged.
use vstd::prelude::*;

verus! {

/// A part of a segment that could not be decoded, parts that disagree, or a
/// merge too large to hold.
#[derive(Debug, Clone, Copy, PartialEq, Eq, Structural)]
pub enum SegmentError {
    /// The bloom filter's bytes are not a stored filter.
    Bloom,
    /// The key index's bytes are malformed or its keys are out of order.
    KeyIndex,
    /// The blob index's bytes are malformed.
    BlobIndex,
    /// A pointer leads outside the blob store or to a malformed record.
    Store,
    /// The parts are well formed but do not describe the same entries.
    Mismatch,
    /// A merged segment would be too large to hold in memory.
    TooLarge,
}

} // verus!
