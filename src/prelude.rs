//! The items most callers need, for a single `use`.
pub use crate::accessor::KeyAccessor;
pub use crate::algo::{orasort, orasort_mut};
