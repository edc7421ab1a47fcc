//! A segmented, immutable key-value store.
//!
//! A segment is built once from keys in ascending byte order and is never
//! changed afterwards. It is made of four parts: a bloom filter over the keys,
//! a sorted key index mapping each key to a dense id, a blob index mapping
//! each id to a record locator, and a blob store holding the records.
//! Segments are compacted by a k-way merge that keeps, for each key, the value
//! of the segment that comes first in the list.

pub mod automaton;
pub mod blob_index;
pub mod blob_store;
pub mod bloom;
pub mod error;
pub mod fastfield;
pub mod key_index;
pub mod keys;
pub mod laws;
pub mod merge;
pub mod segment;
pub mod signals;
pub mod webgraph;
pub mod writer;

pub use error::SegmentError;
