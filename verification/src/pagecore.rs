//! Core bookkeeping shared by in-memory tree pages, and collection-level
//! statistics.
//!
//! `PageCore` carries the identity, position and memory accounting of an
//! in-memory page.  Under the engine's single-writer discipline the
//! position is mutated only between readers' snapshots, so it is carried
//! here as a plain integer.

use vstd::prelude::*;

verus! {

/// Identity, caching and sizing fields common to all in-memory pages.
#[derive(Debug)]
pub struct PageCore<Key> {
    /// The tree that owns this page.
    pub tree_id: u32,
    /// Encoded position of the page in its chunk: 0 when not yet saved,
    /// 1 when removed but not yet saved.
    pub position: u64,
    /// Sequential 0-based page number within the chunk.
    pub page_number: u32,
    /// Cached result of the last in-page search.
    pub cached_compare: u32,
    /// Estimated memory use in bytes.
    pub memory: u32,
    /// Bytes this page occupies on disk, excluding children.
    pub disk_space_used: u32,
    /// The page's keys.
    pub keys: Vec<Key>,
}

impl<Key> PageCore<Key> {
    /// A fresh, unsaved page core holding `keys`.
    pub fn new(tree_id: u32, keys: Vec<Key>) -> (c: PageCore<Key>)
        ensures
            c.tree_id == tree_id,
            c.position == 0,
            c.page_number == 0,
            c.cached_compare == 0,
            c.memory == 0,
            c.disk_space_used == 0,
            c.keys@ == keys@,
    {
        PageCore {
            tree_id,
            position: 0,
            page_number: 0,
            cached_compare: 0,
            memory: 0,
            disk_space_used: 0,
            keys,
        }
    }
}

/// A snapshot of a paged collection's size.
#[derive(Debug, Clone, Copy)]
pub struct CollectionStats {
    /// Number of documents the collection holds.
    pub total_documents: usize,
    /// Number of pages backing it.
    pub total_pages: u32,
    /// The collection's identifier.
    pub collection_id: u32,
}

} // verus!
