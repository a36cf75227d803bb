//! A multimap table layer over a single-value ordered byte-string store.
//!
//! Each (key, value) pair of the multimap is encoded as one composite key of
//! the underlying store; the stored value is empty.  Range queries over "all
//! pairs with key K" are expressed with synthetic sentinel keys that sort
//! immediately below and above the run of pairs sharing K, under a composite
//! comparator that orders real pairs against sentinel query keys.

pub mod order;
pub mod codec;
pub mod comparator;
pub mod store;
pub mod range;
pub mod iter;
pub mod table;
pub mod laws;
