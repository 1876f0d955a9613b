//! An associative container mapping signed integer keys to values, tuned for
//! key sets that are dense or clustered: it stores one slot per key in the
//! contiguous window `[head, head + slots - 1]` spanned by the keys currently
//! present, so lookups are direct indexing rather than tree or hash walks.
//!
//! Memory is proportional to the span of the live keys, not to the entry
//! count: a sparse key set across a huge range is the deliberate worst case.

pub mod entry;
pub mod laws;
pub mod map;

pub use entry::Entry;
pub use map::ConsecVecMap;
pub use map::Iter;
