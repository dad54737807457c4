//! Statement execution: insert with duplicate detection, and the ordered
//! full-table scan.

use crate::cursor::{spec_cursor_finds, spec_split_outcome, Cursor};
use crate::error::DbResult;
use crate::row::Row;
use crate::statement::{Statement, StatementType};
use crate::table::Table;
use crate::tree::{
    leaf_node_key, leaf_node_num_cells, spec_internal_key, spec_internal_num_keys, spec_is_leaf,
    spec_leaf_inserted, spec_leaf_key, spec_leaf_next, spec_leaf_num_cells, spec_leaf_value,
    spec_leaf_values, spec_node_max_key, LEAF_NODE_MAX_CELLS,
};
use crate::{PAGE_SIZE, TABLE_MAX_PAGES};
use vstd::prelude::*;

verus! {

/// Outcome of executing a statement: success, or a duplicate key reported
/// as a distinct, non-fatal result.
pub enum ExecuteResult {
    ExecuteSuccess,
    ExecuteDuplicateKey,
}

pub struct Executor {}

/// Duplicate detection law: in a well-formed tree, the cursor returned by
/// the root descent points at an equal key exactly when the table holds
/// that key anywhere.
#[verifier::rlimit(60)]
#[verifier::spinoff_prover]
pub proof fn lemma_find_locates(t: Table, c: Cursor, key: u32)
    requires
        t.wf(),
        spec_cursor_finds(t, c, key),
    ensures
        t.contains(key) <==> (c.cell_num < spec_leaf_num_cells(
            t.pager.page_view(c.page_num as int),
        ) && spec_leaf_key(t.pager.page_view(c.page_num as int), c.cell_num as int) == key),
{
    let l = t.pager.page_view(c.page_num as int);
    let n = spec_leaf_num_cells(l) as int;
    if c.cell_num < n && spec_leaf_key(l, c.cell_num as int) == key {
        // the matched cell witnesses containment
        if spec_is_leaf(t.root()) {
            assert(t.contains(key));
        } else {
            let ci = choose|ci: int|
                {
                    &&& 0 <= ci < t.child_count()
                    &&& c.page_num == #[trigger] t.child_page(ci)
                    &&& (forall|j: int| 0 <= j < ci ==> spec_internal_key(t.root(), j) < key)
                    &&& (ci < spec_internal_num_keys(t.root()) ==> spec_internal_key(t.root(), ci)
                        >= key)
                };
            assert(t.child(ci) == l);
            assert(spec_leaf_key(t.child(ci), c.cell_num as int) == key);
            assert(t.contains(key));
        }
    }
    if t.contains(key) {
        if spec_is_leaf(t.root()) {
            let j = choose|j: int|
                0 <= j < spec_leaf_num_cells(t.root()) && spec_leaf_key(t.root(), j) == key;
            // the first cell at or above the key is exactly the match
            if j < c.cell_num {
                assert(spec_leaf_key(l, j) < key);
            }
            if j > c.cell_num {
                assert(spec_leaf_key(l, c.cell_num as int) >= key);
                assert(spec_leaf_key(l, c.cell_num as int) < spec_leaf_key(l, j));
                assert(false);
            }
            assert(j == c.cell_num);
        } else {
            let (cj, j): (int, int) = choose|cj: int, j: int|
                0 <= cj < t.child_count() && 0 <= j < spec_leaf_num_cells(t.child(cj))
                    && #[trigger] spec_leaf_key(t.child(cj), j) == key;
            let ci = choose|ci: int|
                {
                    &&& 0 <= ci < t.child_count()
                    &&& c.page_num == #[trigger] t.child_page(ci)
                    &&& (forall|j: int| 0 <= j < ci ==> spec_internal_key(t.root(), j) < key)
                    &&& (ci < spec_internal_num_keys(t.root()) ==> spec_internal_key(t.root(), ci)
                        >= key)
                };
            assert(t.child(ci) == l);
            // the key cannot live in a child left of the found one...
            if cj < ci {
                let nj = spec_leaf_num_cells(t.child(cj)) as int;
                assert(spec_internal_key(t.root(), cj) == spec_node_max_key(t.child(cj)));
                if j < nj - 1 {
                    assert(spec_leaf_key(t.child(cj), j) < spec_leaf_key(t.child(cj), nj - 1));
                }
                assert(key <= spec_internal_key(t.root(), cj));
                assert(spec_internal_key(t.root(), cj) < key);
                assert(false);
            }
            // ...nor in one right of it
            if cj > ci {
                assert(spec_leaf_key(t.child(cj), j) > spec_internal_key(t.root(), cj - 1));
                assert(ci < spec_internal_num_keys(t.root()));
                assert(spec_internal_key(t.root(), ci) >= key);
                if ci < cj - 1 {
                    assert(spec_internal_key(t.root(), ci) < spec_internal_key(
                        t.root(),
                        cj - 1,
                    ));
                }
                assert(false);
            }
            assert(cj == ci);
            // within the found leaf, only the cursor's cell can match
            if j < c.cell_num {
                assert(spec_leaf_key(l, j) < key);
            }
            if j > c.cell_num {
                assert(spec_leaf_key(l, c.cell_num as int) >= key);
                assert(spec_leaf_key(l, c.cell_num as int) < spec_leaf_key(l, j));
                assert(false);
            }
            assert(j == c.cell_num);
        }
    }
}

impl Executor {
    pub fn new() -> (r: Executor)
        ensures
            true,
    {
        Executor {}
    }

    /// Insert the statement's record keyed by its id. A key already present
    /// anywhere in the table is reported as the duplicate-key result and
    /// the table is left unchanged; a fresh key succeeds exactly when the
    /// insert fits (`spec_insert_fits`), and a successful insert leaves the
    /// tree well-formed. When a split cannot be propagated into a parent
    /// already at capacity, the unimplemented internal split is reported
    /// with the two halves already in place and only the parent not
    /// updated.
    pub fn execute_insert(&self, stmt: &Statement, table: &mut Table) -> (r: DbResult<
        ExecuteResult,
    >)
        requires
            old(table).wf(),
            stmt.row_to_insert.wf(),
        ensures
            final(table).root_page_num == old(table).root_page_num,
            final(table).pager.wf(),
            final(table).pager.file_bytes == old(table).pager.file_bytes,
            final(table).pager.file_length == old(table).pager.file_length,
            r is Ok ==> final(table).wf(),
            r is Ok ==> final(table).contains(stmt.row_to_insert.id),
            r is Ok && r->Ok_0 is ExecuteDuplicateKey <==> old(table).contains(
                stmt.row_to_insert.id,
            ),
            r is Ok && r->Ok_0 is ExecuteDuplicateKey ==> old(table).same_state(*final(table)),
            r is Err && spec_is_leaf(old(table).root()) ==> r->Err_0 is PageOutOfBounds,
            r is Err && !spec_is_leaf(old(table).root()) && old(table).pager.num_pages
                >= TABLE_MAX_PAGES ==> r->Err_0 is PageOutOfBounds,
            r is Err && !spec_is_leaf(old(table).root()) && old(table).pager.num_pages
                < TABLE_MAX_PAGES ==> r->Err_0 is UnimplementedInternalSplit,
            !old(table).contains(stmt.row_to_insert.id) ==> ((r is Ok
                && r->Ok_0 is ExecuteSuccess) <==> old(table).spec_insert_fits(
                stmt.row_to_insert.id,
            )),
            r is Err ==> !old(table).contains(stmt.row_to_insert.id) && !old(
                table,
            ).spec_insert_fits(stmt.row_to_insert.id),
            r is Ok && r->Ok_0 is ExecuteSuccess ==> exists|c: Cursor|
                {
                    let l = old(table).pager.page_view(c.page_num as int);
                    &&& #[trigger] spec_cursor_finds(*old(table), c, stmt.row_to_insert.id)
                    &&& (spec_leaf_num_cells(l) < LEAF_NODE_MAX_CELLS ==> spec_leaf_inserted(
                        l,
                        final(table).pager.page_view(c.page_num as int),
                        c.cell_num as int,
                        stmt.row_to_insert.id,
                        stmt.row_to_insert.spec_bytes(),
                    ))
                    &&& (spec_leaf_num_cells(l) == LEAF_NODE_MAX_CELLS ==> spec_split_outcome(
                        *old(table),
                        *final(table),
                        c,
                        stmt.row_to_insert.id,
                        stmt.row_to_insert,
                    ))
                },
    {
        let row_to_insert = &stmt.row_to_insert;
        let key_to_insert: u32 = row_to_insert.id;
        let cursor = match Cursor::table_find(table, key_to_insert) {
            Ok(c) => c,
            Err(e) => {
                proof {
                    assert(false);
                }
                return Err(e);
            },
        };
        let ghost t1 = *table;
        if let Err(e) = table.pager.get_page(cursor.page_num) {
            proof {
                assert(false);
            }
            return Err(e);
        }
        proof {
            assert forall|i: int|
                0 <= i < TABLE_MAX_PAGES implies table.pager.page_view(i)
                == old(table).pager.page_view(i) by {
                assert(table.pager.page_view(i) == t1.pager.page_view(i));
            }
            assert(old(table).same_state(*table));
            Table::lemma_same_state_wf(*old(table), *table);
            assert((*table).same_state(*old(table)));
            crate::cursor::lemma_same_state_finds(*table, *old(table), cursor, key_to_insert);
            lemma_find_locates(*table, cursor, key_to_insert);
            lemma_find_locates(*old(table), cursor, key_to_insert);
            assert(table.pager.pages@[cursor.page_num as int]@ == old(table).pager.page_view(
                cursor.page_num as int,
            ));
        }
        let node_cells = leaf_node_num_cells(&table.pager.pages[cursor.page_num]);
        if cursor.cell_num < node_cells as usize {
            let key_at_index = leaf_node_key(&table.pager.pages[cursor.page_num], cursor.cell_num);
            if key_at_index == key_to_insert {
                proof {
                    Table::lemma_same_state_wf(*old(table), *table);
                    // the key stays where the cursor found it
                    assert(table.pager.page_view(cursor.page_num as int) == old(
                        table,
                    ).pager.page_view(cursor.page_num as int));
                    assert(spec_leaf_key(
                        table.pager.page_view(cursor.page_num as int),
                        cursor.cell_num as int,
                    ) == key_to_insert);
                    crate::executor::lemma_find_locates(*table, cursor, key_to_insert);
                }
                return Ok(ExecuteResult::ExecuteDuplicateKey);
            }
        }
        let ghost mid = *table;
        proof {
            if !spec_is_leaf(old(table).root()) {
                crate::cursor::lemma_cursor_child(*old(table), cursor, key_to_insert);
            }
        }
        let r = cursor.leaf_node_insert(table, key_to_insert, row_to_insert);
        match r {
            Ok(()) => {
                proof {
                    let l0 = old(table).pager.page_view(cursor.page_num as int);
                    assert(spec_cursor_finds(*old(table), cursor, key_to_insert));
                    if spec_leaf_num_cells(l0) < LEAF_NODE_MAX_CELLS {
                        assert(spec_leaf_inserted(
                            l0,
                            table.pager.page_view(cursor.page_num as int),
                            cursor.cell_num as int,
                            key_to_insert,
                            row_to_insert.spec_bytes(),
                        ));
                    } else {
                        assert(spec_split_outcome(
                            mid,
                            *table,
                            cursor,
                            key_to_insert,
                            *row_to_insert,
                        ));
                        assert(old(table).root() == mid.root());
                        assert(old(table).pager.page_view(cursor.page_num as int)
                            == mid.pager.page_view(cursor.page_num as int));
                        if !spec_is_leaf(old(table).root()) {
                            let (m, w): (Seq<u8>, int) = choose|m: Seq<u8>, w: int|
                                crate::cursor::spec_parent_growth(
                                    mid,
                                    *table,
                                    cursor,
                                    key_to_insert,
                                    m,
                                    w,
                                );
                            assert(old(table).child_page(
                                spec_internal_num_keys(old(table).root()) as int,
                            ) == mid.child_page(spec_internal_num_keys(mid.root()) as int));
                            assert(crate::cursor::spec_parent_growth(
                                *old(table),
                                *table,
                                cursor,
                                key_to_insert,
                                m,
                                w,
                            ));
                        }
                        assert(spec_split_outcome(
                            *old(table),
                            *table,
                            cursor,
                            key_to_insert,
                            *row_to_insert,
                        ));
                    }
                }
                proof {
                    assert(old(table).spec_insert_fits(key_to_insert));
                    let l0 = old(table).pager.page_view(cursor.page_num as int);
                    if spec_leaf_num_cells(l0) < LEAF_NODE_MAX_CELLS {
                        crate::cursor::lemma_insert_keeps_wf(
                            *old(table),
                            *table,
                            cursor,
                            key_to_insert,
                            row_to_insert.spec_bytes(),
                        );
                    } else if spec_is_leaf(old(table).root()) {
                        crate::cursor::lemma_root_split_keeps_wf(
                            *old(table),
                            *table,
                            cursor,
                            key_to_insert,
                            *row_to_insert,
                        );
                    } else {
                        crate::cursor::lemma_child_split_keeps_wf(
                            *old(table),
                            *table,
                            cursor,
                            key_to_insert,
                            *row_to_insert,
                        );
                    }
                    assert(table.wf());
                }
                Ok(ExecuteResult::ExecuteSuccess)
            },
            Err(e) => {
                proof {
                    assert(!old(table).spec_insert_fits(key_to_insert));
                }
                Err(e)
            },
        }
    }

    /// Collect every record of the table in ascending key order by walking
    /// the leaves from the leftmost cell along the sibling chain: exactly
    /// one row per stored cell, each deserialized from its leaf cell, and
    /// the table unchanged (so a fresh call returns the same sequence).
    #[verifier::rlimit(100)]
    #[verifier::spinoff_prover]
    pub fn execute_select(&self, table: &mut Table) -> (r: DbResult<Vec<Row>>)
        requires
            old(table).wf(),
        ensures
            old(table).same_state(*final(table)),
            final(table).wf(),
            r is Ok,
            r->Ok_0@.len() == old(table).spec_rows().len(),
            forall|j: int|
                0 <= j < r->Ok_0@.len() ==> (#[trigger] r->Ok_0@[j]).wf()
                    && r->Ok_0@[j].matches_bytes(old(table).spec_rows()[j]),
    {
        let mut rows: Vec<Row> = Vec::new();
        let mut cursor = match Cursor::table_start(table) {
            Ok(c) => c,
            Err(e) => {
                proof {
                    assert(false);
                }
                return Err(e);
            },
        };
        let ghost t0 = *old(table);
        let ghost leaf_root = spec_is_leaf(t0.root());
        let ghost total = t0.spec_rows();
        let ghost mut ci: int = 0;
        proof {
            if leaf_root {
                if cursor.end_of_table {
                    assert(spec_leaf_num_cells(t0.root()) == 0);
                    assert(total =~= Seq::<Seq<u8>>::empty());
                }
            } else {
                // the descent for the smallest key lands on the leftmost child
                let c0 = choose|c0: int|
                    {
                        &&& 0 <= c0 < t0.child_count()
                        &&& cursor.page_num == #[trigger] t0.child_page(c0)
                        &&& (forall|j: int| 0 <= j < c0 ==> spec_internal_key(t0.root(), j) < 0)
                        &&& (c0 < spec_internal_num_keys(t0.root()) ==> spec_internal_key(
                            t0.root(),
                            c0,
                        ) >= 0)
                    };
                if c0 > 0 {
                    assert(spec_internal_key(t0.root(), 0) < 0);
                }
                assert(cursor.page_num == t0.child_page(0));
                assert(1 <= spec_leaf_num_cells(t0.child(0)));
                assert(!cursor.end_of_table);
                assert(total == t0.spec_rows_from(0));
                assert(total.skip(0) =~= spec_leaf_values(t0.child(0)).skip(0)
                    + t0.spec_rows_from(1));
            }
        }
        while !cursor.end_of_table
            invariant
                t0.wf(),
                t0.same_state(*table),
                table.pager.wf(),
                leaf_root == spec_is_leaf(t0.root()),
                total == t0.spec_rows(),
                rows@.len() <= total.len(),
                cursor.end_of_table ==> rows@.len() == total.len(),
                forall|j: int|
                    0 <= j < rows@.len() ==> (#[trigger] rows@[j]).wf() && rows@[j].matches_bytes(
                        total[j],
                    ),
                leaf_root && !cursor.end_of_table ==> cursor.page_num == t0.root_page_num
                    && cursor.cell_num == rows@.len() && rows@.len() < spec_leaf_num_cells(
                    t0.root(),
                ),
                !leaf_root && !cursor.end_of_table ==> {
                    &&& 0 <= ci < t0.child_count()
                    &&& cursor.page_num == t0.child_page(ci)
                    &&& cursor.cell_num < spec_leaf_num_cells(t0.child(ci))
                    &&& total.skip(rows@.len() as int) == spec_leaf_values(t0.child(ci)).skip(
                        cursor.cell_num as int,
                    ) + t0.spec_rows_from(ci + 1)
                },
                !cursor.end_of_table ==> cursor.page_num < table.pager.num_pages,
                !cursor.end_of_table ==> cursor.cell_num < LEAF_NODE_MAX_CELLS,
            decreases total.len() - rows@.len(),
        {
            let ghost k = cursor.cell_num as int;
            let ghost cell_src = if leaf_root {
                t0.root()
            } else {
                t0.child(ci)
            };
            proof {
                if !leaf_root {
                    // the suffix still starts at this very cell
                    assert(total.skip(rows@.len() as int).len() > 0);
                    assert(rows@.len() < total.len());
                    assert(total[rows@.len() as int] == total.skip(rows@.len() as int)[0]);
                    assert(spec_leaf_values(t0.child(ci)).skip(k)[0] == spec_leaf_values(
                        t0.child(ci),
                    )[k]);
                    assert(total[rows@.len() as int] == spec_leaf_value(t0.child(ci), k));
                } else {
                    assert(total[rows@.len() as int] == spec_leaf_value(t0.root(), k));
                }
            }
            let value = match cursor.cursor_value(table) {
                Ok(v) => v,
                Err(e) => {
                    proof {
                        assert(false);
                    }
                    return Err(e);
                },
            };
            let mut row = Row::default();
            proof {
                crate::tree::lemma_layout_constants();
                table.pager.lemma_page_view_len(cursor.page_num as int);
                crate::tree::lemma_leaf_cell_off(cursor.cell_num as int);
                crate::tree::lemma_leaf_cell_off(cursor.cell_num as int + 1);
            }
            row.deserialize_row(&value, 0);
            proof {
                assert(table.pager.page_view(cursor.page_num as int) == cell_src);
                assert(value@ == spec_leaf_value(cell_src, k));
                assert(value@.subrange(0, value@.len() as int) =~= value@);
                assert(row.matches_bytes(total[rows@.len() as int]));
            }
            rows.push(row);
            let ghost adv_page = cursor.page_num as int;
            if let Err(e) = cursor.cursor_advance(table) {
                proof {
                    assert(false);
                }
                return Err(e);
            }
            proof {
                let n = spec_leaf_num_cells(cell_src) as int;
                if leaf_root {
                    // the root leaf has no sibling, so the scan ends with it
                    assert(spec_leaf_next(t0.root()) == 0);
                    if rows@.len() == n {
                        assert(cursor.end_of_table);
                        assert(total.len() == n);
                    }
                } else {
                    assert(total.skip(rows@.len() as int - 1).skip(1) =~= total.skip(
                        rows@.len() as int,
                    ));
                    if k + 1 < n {
                        // still inside the same leaf
                        assert(!cursor.end_of_table);
                        assert(cursor.page_num == t0.child_page(ci));
                        assert(cursor.cell_num == k + 1);
                        assert((spec_leaf_values(t0.child(ci)).skip(k)
                            + t0.spec_rows_from(ci + 1)).skip(1) =~= spec_leaf_values(
                            t0.child(ci),
                        ).skip(k + 1) + t0.spec_rows_from(ci + 1));
                        assert(total.skip(rows@.len() as int) == spec_leaf_values(
                            t0.child(ci),
                        ).skip(k + 1) + t0.spec_rows_from(ci + 1));
                    } else {
                        // the leaf is exhausted: follow the sibling pointer
                        assert((spec_leaf_values(t0.child(ci)).skip(k)
                            + t0.spec_rows_from(ci + 1)).skip(1) =~= t0.spec_rows_from(ci + 1));
                        assert(total.skip(rows@.len() as int) == t0.spec_rows_from(ci + 1));
                        if ci == t0.child_count() - 1 {
                            assert(spec_leaf_next(t0.child(ci)) == 0);
                            assert(cursor.end_of_table);
                            assert(t0.spec_rows_from(ci + 1) =~= Seq::<Seq<u8>>::empty());
                            assert(total.skip(rows@.len() as int).len() == 0);
                            assert(rows@.len() == total.len());
                        } else {
                            assert(spec_leaf_next(t0.child(ci)) == t0.child_page(ci + 1));
                            assert(0 < t0.child_page(ci + 1));
                            assert(!cursor.end_of_table);
                            assert(cursor.page_num == t0.child_page(ci + 1));
                            assert(cursor.cell_num == 0);
                            assert(1 <= spec_leaf_num_cells(t0.child(ci + 1)));
                            assert(t0.spec_rows_from(ci + 1) =~= spec_leaf_values(
                                t0.child(ci + 1),
                            ).skip(0) + t0.spec_rows_from(ci + 2));
                            ci = ci + 1;
                        }
                    }
                }
            }
        }
        proof {
            Table::lemma_same_state_wf(t0, *table);
        }
        Ok(rows)
    }

    /// Run one prepared statement against the table, mirroring the two
    /// operations exactly: an insert reports success, the duplicate key, or
    /// the insert errors as `execute_insert` does; a select succeeds and
    /// hands back every stored record as `execute_select` does.
    pub fn execute_statement(&self, stmt: &Statement, table: &mut Table) -> (r: DbResult<
        (ExecuteResult, Vec<Row>),
    >)
        requires
            old(table).wf(),
            stmt.row_to_insert.wf(),
        ensures
            final(table).root_page_num == old(table).root_page_num,
            final(table).pager.wf(),
            final(table).pager.file_bytes == old(table).pager.file_bytes,
            final(table).pager.file_length == old(table).pager.file_length,
            r is Ok ==> final(table).wf(),
            stmt.stmt_type is StatementSelect ==> ({
                &&& r is Ok
                &&& r->Ok_0.0 is ExecuteSuccess
                &&& old(table).same_state(*final(table))
                &&& r->Ok_0.1@.len() == old(table).spec_rows().len()
                &&& forall|j: int|
                    0 <= j < r->Ok_0.1@.len() ==> (#[trigger] r->Ok_0.1@[j]).wf()
                        && r->Ok_0.1@[j].matches_bytes(old(table).spec_rows()[j])
            }),
            stmt.stmt_type is StatementInsert ==> ({
                let id = stmt.row_to_insert.id;
                &&& (r is Ok ==> r->Ok_0.1@.len() == 0)
                &&& ((r is Ok && r->Ok_0.0 is ExecuteDuplicateKey) <==> old(table).contains(id))
                &&& (r is Ok && r->Ok_0.0 is ExecuteDuplicateKey ==> old(table).same_state(
                    *final(table),
                ))
                &&& (!old(table).contains(id) ==> ((r is Ok && r->Ok_0.0 is ExecuteSuccess)
                    <==> old(table).spec_insert_fits(id)))
                &&& (r is Ok ==> final(table).contains(id) && final(table).wf())
                &&& (r is Err ==> (r->Err_0 is PageOutOfBounds
                    || r->Err_0 is UnimplementedInternalSplit) && !old(table).contains(id)
                    && !old(table).spec_insert_fits(id))
            }),
    {
        match stmt.stmt_type {
            StatementType::StatementInsert => {
                match self.execute_insert(stmt, table) {
                    Ok(res) => Ok((res, Vec::new())),
                    Err(e) => Err(e),
                }
            },
            StatementType::StatementSelect => {
                match self.execute_select(table) {
                    Ok(rows) => {
                        proof {
                            Table::lemma_same_state_wf(*old(table), *table);
                        }
                        Ok((ExecuteResult::ExecuteSuccess, rows))
                    },
                    Err(e) => Err(e),
                }
            },
        }
    }
}

} // verus!
