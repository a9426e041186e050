//! Hybrid key-prefix sorting of byte-string keys.
//!
//! Every row of a collection has a byte-string key; rows are ordered by the
//! unsigned lexicographic order of their keys, a key that is a proper prefix of
//! another ordering first. The engine carries the next eight key bytes of each
//! row in its sort pointer, skips bytes that a whole region shares, splits large
//! regions with a byte-wise radix pass and finishes small ones with a
//! comparison sort.
pub mod order;
pub mod prefix;
pub mod accessor;
pub mod ptr;
pub mod compare;
pub mod merge;
pub mod bucket;
pub mod radix;
pub mod spec;
pub mod picked;
pub mod algo;
pub mod permute;
pub mod laws;
pub mod prelude;

pub use accessor::{AsKeyBytes, KeyAccessor};
pub use algo::{orasort, orasort_from_indices, orasort_mut, orasort_slice};
