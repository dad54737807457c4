//! Prepared statements: the two statement shapes the engine executes.

use crate::row::Row;
use vstd::prelude::*;

verus! {

/// The two statement shapes that exist.
pub enum StatementType {
    StatementInsert,
    StatementSelect,
}

impl Default for StatementType {
    fn default() -> (r: StatementType)
        ensures
            r is StatementInsert,
    {
        StatementType::StatementInsert
    }
}

/// A prepared statement: its shape, and the record to insert when the
/// shape is an insert.
pub struct Statement {
    pub stmt_type: StatementType,
    pub row_to_insert: Row,
}

impl Statement {
    /// A fresh insert statement over the zero record.
    pub fn new() -> (r: Statement)
        ensures
            r.stmt_type is StatementInsert,
            r.row_to_insert.wf(),
            r.row_to_insert.id == 0,
    {
        Statement { stmt_type: StatementType::default(), row_to_insert: Row::default() }
    }
}

} // verus!
