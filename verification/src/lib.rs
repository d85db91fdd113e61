//! Core of an embedded, append-oriented key/value storage engine.
//!
//! The library covers the in-memory B-tree index over an arena of nodes,
//! the chunk header/footer binary format with its Fletcher32-checksummed
//! footer, the slotted 4 KiB page container, and the value codec.

use vstd::prelude::*;

pub mod arena;
pub mod checksum;
pub mod btree;
pub mod btree_delete;
pub mod btree_insert;
pub mod chunk;
pub mod chunk_state;
pub mod error;
pub mod page;
pub mod pagecore;
pub mod query;
pub mod schema;
pub mod value;
pub mod wire;

verus! {

/// Sum of two block counters; the caller keeps the total in range.
pub fn add(left: u64, right: u64) -> (r: u64)
    requires
        left + right <= u64::MAX,
    ensures
        r == left + right,
{
    left + right
}

} // verus!
