//! Error kinds surfaced by the storage engine.

use vstd::prelude::*;

verus! {

/// Every failure the engine can report. I/O failures are raised by the
/// caller that owns the file handle; the remaining kinds come from the
/// engine itself.
#[derive(Debug)]
pub enum DbError {
    /// An open/read/write/seek/close on the backing file failed.
    Io(String),
    /// The backing file's length is not a whole multiple of the page size.
    Corruption,
    /// A page number at or beyond the fixed maximum page capacity was requested.
    PageOutOfBounds,
    /// An internal node's child index beyond its key count was requested.
    ChildOutOfBounds,
    /// A flush was requested for a page that was never materialized in memory.
    PageNotMaterialized,
    /// An internal node would have to split, which this design does not implement.
    UnimplementedInternalSplit,
    /// A record field longer than its fixed capacity was rejected.
    FieldOverflow,
}

pub type DbResult<T> = Result<T, DbError>;

} // verus!
