//! A hash map that keeps its entries in a total order.
//!
//! Entries are ordered from *front* (oldest) to *back* (newest). A fresh
//! entry lands at the back; an entry can be moved to either end in constant
//! time. The nodes live in an arena of slots addressed by integer handles; a
//! hash table over those handles finds a node from a hash and an equality
//! predicate on keys, and a circular doubly linked list threaded through the
//! arena keeps the order.
//!
//! The abstract state of a map is the sequence of its `(key, value)` pairs
//! from front to back, together with the hash under which each pair is filed.
//!
//! - `map`: the map and its operations.
//! - `entry`, `raw_entry`: access to one entry with the map borrowed, by key
//!   or by hash and predicate.
//! - `iter`: traversal from either end, and draining.
//! - `model`: what the operations on keys do, over the views.
//! - `laws`: what holds across several operations.
//! - `arena`: slots, order ring, free list and index, and their invariant.
//! - `index`: the hash table of slot handles, as far as the map relies on it.
//! - `hashing`: hashing a key with the map's hash strategy.

pub mod arena;
pub mod entry;
pub mod hashing;
pub mod index;
pub mod iter;
pub mod laws;
pub mod map;
pub mod model;
mod node;
pub mod raw_entry;

pub use arena::Core;
pub use hashing::hash_key;
pub use map::LinkedHashMap;
