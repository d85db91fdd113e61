//! Structured error kinds surfaced by the storage core.
//!
//! Each layer reports these to its caller and attempts no internal
//! recovery; checksum failures are never silently ignored.  I/O failures
//! from the surrounding process are mapped into the `IoError` variants at
//! the boundary.

use vstd::prelude::*;

verus! {

/// Errors of the chunk and block layer.
#[derive(Clone, Copy, Debug, PartialEq, Eq, Structural)]
pub enum StorageError {
    /// Stored data cannot be what was written: a header or footer buffer
    /// of the wrong size, a magic or checksum mismatch.
    Corrupt,
    /// A write was attempted on a store opened read-only.
    ReadOnly,
    /// The underlying file failed.
    IoError,
}

/// Errors of the page, value and collection layer.
#[derive(Clone, Copy, Debug, PartialEq, Eq, Structural)]
pub enum DatabaseError {
    /// The underlying file failed.
    IoError,
    /// A document does not match its collection's schema.
    SchemaViolation,
    /// A malformed argument: an unknown tag, a truncated value body, an
    /// over-long name.
    InvalidData,
    /// Stored data cannot be what was written: a page of the wrong size,
    /// a magic mismatch, a slot reaching outside its page.
    Corrupt,
    /// The requested page or slot does not exist.
    NotFound,
    /// A page cannot fit a record and its slot entry.
    OutOfSpace,
    /// A write was attempted on a store opened read-only.
    ReadOnly,
    /// No document with the given identifier exists.
    DocumentNotFound(u64),
    /// A query cannot be answered as posed.
    InvalidQuery,
}

} // verus!
