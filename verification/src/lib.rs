//! A single-file, page-based storage engine: a disk-backed B-tree of
//! fixed-width records keyed by an unsigned integer primary key.
//!
//! The engine owns every page as an in-memory 4096-byte buffer; the caller
//! that owns the file handle reads the file into bytes at open time and
//! writes the flushed pages back at close time.

pub mod buf;
pub mod cursor;
pub mod error;
pub mod executor;
pub mod meta_command;
pub mod pager;
pub mod prepare_statement;
pub mod row;
pub mod statement;
pub mod table;
pub mod tree;

use vstd::prelude::*;

verus! {

/// A page is a fixed-size block of the backing file, the unit of node storage.
pub const PAGE_SIZE: usize = 4096;

/// Fixed upper bound on the number of pages a table may hold.
pub const TABLE_MAX_PAGES: usize = 100;

} // verus!
