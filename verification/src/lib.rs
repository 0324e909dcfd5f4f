//! A set that remembers first-insertion order.
//!
//! `SeqSet` keeps a fast membership index (a hash set) beside an ordered
//! sequence of the same elements, so callers get set semantics together with
//! a deterministic, reproducible traversal order: the order in which each
//! element was first inserted.
//!
//! The structure is single-threaded: it carries no internal synchronization,
//! and concurrent mutation from several threads needs an external lock around
//! the whole value.

pub mod laws;
pub mod ordered_set;

pub use crate::ordered_set::SeqSet;
pub use crate::ordered_set::SeqSetIntoIter;
pub use crate::ordered_set::SeqSetIter;
pub use crate::ordered_set::SeqSetIterMut;
