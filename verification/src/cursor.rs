//! Cursor: a transient (page, cell) position into a table, used for point
//! lookup, ordered scans, and leaf insertion including splits. A cursor is
//! invalidated by any structural mutation performed through it.

use crate::error::{DbError, DbResult};
use crate::table::Table;
use crate::buf::{bytes_eq_except, lemma_range_frame, lemma_u32_at_frame};
use crate::tree::{
    copy_leaf_node_cell, get_node_max_key, get_node_type, initialize_leaf_node, internal_node_child,
    internal_node_find_child, is_node_root, leaf_node_key,
    leaf_node_next_leaf, leaf_node_num_cells, leaf_node_value, lemma_internal_cell_off,
    lemma_layout_constants, lemma_leaf_cell_off, lemma_logical_keys_sorted, node_has_max_key,
    node_parent, read_leaf_cell, set_leaf_node_cell, set_leaf_node_next_leaf,
    set_leaf_node_num_cells, set_node_parent, spec_internal_child, spec_internal_key,
    spec_internal_key_updated, spec_internal_num_keys, spec_internal_right_child,
    spec_internal_spliced, spec_is_leaf, spec_is_root, spec_leaf_cell_off,
    spec_leaf_key, spec_leaf_next, spec_leaf_num_cells, spec_leaf_split, spec_leaf_value,
    spec_logical_key, spec_logical_value, spec_node_max_key, update_internal_node_key,
    wf_internal_page, wf_leaf_page, write_leaf_cell, NodeType, INTERNAL_NODE_CHILD_SIZE,
    INTERNAL_NODE_MAX_CELLS, LEAF_NODE_LEFT_SPLIT_COUNT, LEAF_NODE_MAX_CELLS,
    LEAF_NODE_RIGHT_SPLIT_COUNT, LEAF_NODE_NUM_CELLS_OFFSET, LEAF_NODE_NEXT_LEAF_OFFSET,
    PARENT_POINTER_OFFSET, NODE_TYPE_OFFSET, IS_ROOT_OFFSET, INTERNAL_NODE_NUM_KEYS_OFFSET,
    INTERNAL_NODE_RIGHT_CHILD_OFFSET, spec_internal_cell_off, spec_parent,
    spec_internal_appended, spec_leaf_inserted,
};
use crate::row::Row;
use crate::{PAGE_SIZE, TABLE_MAX_PAGES};
use vstd::prelude::*;

verus! {

/// A logical position: a page, a cell within that page, and whether the
/// position is one past the last record of the table.
pub struct Cursor {
    pub page_num: usize,
    pub cell_num: usize,
    pub end_of_table: bool,
}

/// The cursor points into leaf `c.page_num` of `t` at the first cell whose
/// key is at least `key` (the cell count when every key is smaller), and
/// that leaf is the unique leaf whose key range admits `key`.
pub open spec fn spec_cursor_finds(t: Table, c: Cursor, key: u32) -> bool {
    let l = t.pager.page_view(c.page_num as int);
    &&& c.page_num < t.pager.num_pages
    &&& wf_leaf_page(l)
    &&& c.cell_num <= spec_leaf_num_cells(l)
    &&& (forall|j: int| 0 <= j < c.cell_num ==> spec_leaf_key(l, j) < key)
    &&& (c.cell_num < spec_leaf_num_cells(l) ==> spec_leaf_key(l, c.cell_num as int) >= key)
    &&& (spec_is_leaf(t.root()) ==> c.page_num == t.root_page_num)
    &&& (!spec_is_leaf(t.root()) ==> exists|ci: int|
        {
            &&& 0 <= ci < t.child_count()
            &&& c.page_num == #[trigger] t.child_page(ci)
            &&& (forall|j: int| 0 <= j < ci ==> spec_internal_key(t.root(), j) < key)
            &&& (ci < spec_internal_num_keys(t.root()) ==> spec_internal_key(t.root(), ci)
                >= key)
        })
}

/// A cursor that finds `key` in one table finds it in any table showing
/// the same state.
pub proof fn lemma_same_state_finds(a: Table, b: Table, c: Cursor, key: u32)
    requires
        a.root_page_num < TABLE_MAX_PAGES,
        a.same_state(b),
        spec_cursor_finds(b, c, key),
    ensures
        spec_cursor_finds(a, c, key),
{
    assert(b.root() == a.root());
    assert(a.pager.page_view(c.page_num as int) == b.pager.page_view(c.page_num as int));
    if !spec_is_leaf(a.root()) {
        let ci = choose|ci: int|
            {
                &&& 0 <= ci < b.child_count()
                &&& c.page_num == #[trigger] b.child_page(ci)
                &&& (forall|j: int| 0 <= j < ci ==> spec_internal_key(b.root(), j) < key)
                &&& (ci < spec_internal_num_keys(b.root()) ==> spec_internal_key(b.root(), ci)
                    >= key)
            };
        assert(a.child_page(ci) == b.child_page(ci));
        assert({
            &&& 0 <= ci < a.child_count()
            &&& c.page_num == a.child_page(ci)
            &&& (forall|j: int| 0 <= j < ci ==> spec_internal_key(a.root(), j) < key)
            &&& (ci < spec_internal_num_keys(a.root()) ==> spec_internal_key(a.root(), ci)
                >= key)
        });
    }
}

/// The state left behind when a split could not be propagated into a
/// parent already at capacity: the two halves and their sibling links are
/// in place on the split page and the fresh page, and every page other
/// than the root and the two halves is untouched; only the parent was not
/// given its new child.
pub open spec fn spec_split_stranded(t0: Table, t1: Table, c: Cursor, key: u32, value: Row) -> bool {
    let l = t0.pager.page_view(c.page_num as int);
    let n0 = t0.pager.num_pages as int;
    &&& t1.pager.num_pages == n0 + 1
    &&& spec_leaf_split(
        l,
        t1.pager.page_view(c.page_num as int),
        t1.pager.page_view(n0),
        c.cell_num as int,
        key,
        value.spec_bytes(),
        n0,
    )
    &&& forall|q: int|
        0 <= q < TABLE_MAX_PAGES && q != t0.root_page_num && q != n0 && q != c.page_num
            ==> t1.pager.page_view(q) == t0.pager.page_view(q)
}

/// The parent's transformation by a split of the child at the cursor:
/// the separator for the split child is lowered to the left half's
/// greatest key (written at slot `w`), and the right half joins the parent
/// either spliced in under its own greatest key, or as the new rightmost
/// child when it out-keys the current rightmost child.
pub open spec fn spec_parent_growth(
    t0: Table,
    t1: Table,
    c: Cursor,
    key: u32,
    mid: Seq<u8>,
    w: int,
) -> bool {
    let l = t0.pager.page_view(c.page_num as int);
    let at = c.cell_num as int;
    let n0 = t0.pager.num_pages as int;
    let root0 = t0.root();
    let root1 = t1.root();
    let ck = spec_logical_key(l, at, key, LEAF_NODE_MAX_CELLS as int);
    let new_max = spec_logical_key(l, at, key, LEAF_NODE_LEFT_SPLIT_COUNT as int - 1);
    let rcp = t0.child_page(spec_internal_num_keys(root0) as int);
    let rleaf = if rcp == c.page_num {
        t1.pager.page_view(c.page_num as int)
    } else {
        t0.pager.page_view(rcp)
    };
    &&& spec_internal_key_updated(root0, mid, spec_node_max_key(l), new_max, w)
    &&& spec_internal_num_keys(root1) == spec_internal_num_keys(mid) + 1
    &&& bytes_eq_except(
        mid,
        root1,
        INTERNAL_NODE_NUM_KEYS_OFFSET as int,
        spec_internal_cell_off(spec_internal_num_keys(mid) as int + 1),
    )
    &&& (ck <= spec_node_max_key(rleaf) ==> exists|s: int|
        spec_internal_spliced(mid, root1, ck, n0, s))
    &&& (ck > spec_node_max_key(rleaf) ==> spec_internal_appended(mid, root1, new_max, n0))
}

/// What a split leaves behind. With a root leaf, the right half moves to a
/// fresh page, the left half to the page after it, and the root page
/// becomes an internal node over the two. With a leaf under the root, the
/// left half stays in place, the right half moves to a fresh page, the
/// parent's separator for the left half is lowered to its new greatest key,
/// and the right half is spliced into the parent keyed by its greatest key.
pub open spec fn spec_split_outcome(t0: Table, t1: Table, c: Cursor, key: u32, value: Row) -> bool {
    let l = t0.pager.page_view(c.page_num as int);
    let at = c.cell_num as int;
    let rb = value.spec_bytes();
    let n0 = t0.pager.num_pages as int;
    let root0 = t0.root();
    let root1 = t1.root();
    if spec_is_leaf(root0) {
        &&& t1.pager.num_pages == n0 + 2
        &&& spec_leaf_split(l, t1.pager.page_view(n0 + 1), t1.pager.page_view(n0), at, key, rb, n0)
        &&& !spec_is_leaf(root1)
        &&& spec_is_root(root1)
        &&& spec_internal_num_keys(root1) == 1
        &&& spec_internal_child(root1, 0) == n0 + 1
        &&& spec_internal_key(root1, 0) == spec_logical_key(
            l,
            at,
            key,
            LEAF_NODE_LEFT_SPLIT_COUNT as int - 1,
        )
        &&& spec_internal_right_child(root1) == n0
        &&& spec_parent(t1.pager.page_view(n0 + 1)) == t0.root_page_num
        &&& spec_parent(t1.pager.page_view(n0)) == t0.root_page_num
        &&& !spec_is_root(t1.pager.page_view(n0 + 1))
        &&& !spec_is_root(t1.pager.page_view(n0))
        &&& forall|q: int|
            0 <= q < TABLE_MAX_PAGES && q != t0.root_page_num && q != n0 && q != n0 + 1
                ==> t1.pager.page_view(q) == t0.pager.page_view(q)
    } else {
        &&& t1.pager.num_pages == n0 + 1
        &&& spec_leaf_split(
            l,
            t1.pager.page_view(c.page_num as int),
            t1.pager.page_view(n0),
            at,
            key,
            rb,
            n0,
        )
        &&& spec_is_root(t1.pager.page_view(c.page_num as int)) == spec_is_root(l)
        &&& spec_parent(t1.pager.page_view(c.page_num as int)) == spec_parent(l)
        &&& spec_parent(t1.pager.page_view(n0)) == spec_parent(l)
        &&& !spec_is_root(t1.pager.page_view(n0))
        &&& (exists|mid: Seq<u8>, w: int| #[trigger] spec_parent_growth(t0, t1, c, key, mid, w))
        &&& forall|q: int|
            0 <= q < TABLE_MAX_PAGES && q != t0.root_page_num && q != n0 && q != c.page_num
                ==> t1.pager.page_view(q) == t0.pager.page_view(q)
    }
}

/// Lowering the parent's separator for a split child to the left half's
/// greatest key keeps the parent's keys strictly ascending: the written
/// slot is the child's own separator slot (or the slot past the last key
/// for the rightmost child), and the new key still sits strictly between
/// the neighbouring separators.
proof fn lemma_parent_after_key_update(
    t0: Table,
    cpage: int,
    ci: int,
    at: int,
    key: u32,
    mid: Seq<u8>,
    w: int,
)
    requires
        t0.wf(),
        !spec_is_leaf(t0.root()),
        0 <= ci < t0.child_count(),
        cpage == t0.child_page(ci),
        forall|j: int| 0 <= j < ci ==> spec_internal_key(t0.root(), j) < key,
        spec_leaf_num_cells(t0.pager.page_view(cpage)) == LEAF_NODE_MAX_CELLS,
        0 <= at <= LEAF_NODE_MAX_CELLS,
        forall|j: int| 0 <= j < at ==> spec_leaf_key(t0.pager.page_view(cpage), j) < key,
        at < LEAF_NODE_MAX_CELLS ==> spec_leaf_key(t0.pager.page_view(cpage), at) > key,
        spec_internal_key_updated(
            t0.root(),
            mid,
            spec_node_max_key(t0.pager.page_view(cpage)),
            spec_logical_key(
                t0.pager.page_view(cpage),
                at,
                key,
                LEAF_NODE_LEFT_SPLIT_COUNT as int - 1,
            ),
            w,
        ),
    ensures
        wf_internal_page(mid),
        w == ci,
        spec_internal_num_keys(mid) == spec_internal_num_keys(t0.root()),
        spec_internal_right_child(mid) == spec_internal_right_child(t0.root()),
        spec_is_root(mid) == spec_is_root(t0.root()),
        spec_parent(mid) == spec_parent(t0.root()),
        forall|j: int|
            0 <= j <= INTERNAL_NODE_MAX_CELLS && j != w ==> #[trigger] spec_internal_key(mid, j)
                == spec_internal_key(t0.root(), j),
        forall|j: int|
            0 <= j <= INTERNAL_NODE_MAX_CELLS ==> #[trigger] spec_internal_child(mid, j)
                == spec_internal_child(t0.root(), j),
{
    lemma_layout_constants();
    let root = t0.root();
    let l = t0.pager.page_view(cpage);
    let nk = spec_internal_num_keys(root) as int;
    let old_max = spec_node_max_key(l);
    let new_max = spec_logical_key(l, at, key, LEAF_NODE_LEFT_SPLIT_COUNT as int - 1);
    assert(wf_leaf_page(l) && 1 <= spec_leaf_num_cells(l));
    lemma_logical_keys_sorted(l, at, key);
    // every field of mid outside the written key slot matches the root
    assert(mid[NODE_TYPE_OFFSET as int] == root[NODE_TYPE_OFFSET as int]);
    assert(mid[IS_ROOT_OFFSET as int] == root[IS_ROOT_OFFSET as int]);
    lemma_u32_at_frame(
        root,
        mid,
        spec_internal_cell_off(w) + INTERNAL_NODE_CHILD_SIZE as int,
        spec_internal_cell_off(w + 1),
        PARENT_POINTER_OFFSET as int,
    );
    lemma_u32_at_frame(
        root,
        mid,
        spec_internal_cell_off(w) + INTERNAL_NODE_CHILD_SIZE as int,
        spec_internal_cell_off(w + 1),
        INTERNAL_NODE_NUM_KEYS_OFFSET as int,
    );
    lemma_u32_at_frame(
        root,
        mid,
        spec_internal_cell_off(w) + INTERNAL_NODE_CHILD_SIZE as int,
        spec_internal_cell_off(w + 1),
        INTERNAL_NODE_RIGHT_CHILD_OFFSET as int,
    );
    assert forall|j: int|
        0 <= j <= INTERNAL_NODE_MAX_CELLS && j != w implies #[trigger] spec_internal_key(mid, j)
        == spec_internal_key(root, j) by {
        lemma_internal_cell_off(j);
        lemma_internal_cell_off(j + 1);
        lemma_internal_cell_off(w);
        lemma_internal_cell_off(w + 1);
        lemma_u32_at_frame(
            root,
            mid,
            spec_internal_cell_off(w) + INTERNAL_NODE_CHILD_SIZE as int,
            spec_internal_cell_off(w + 1),
            spec_internal_cell_off(j) + INTERNAL_NODE_CHILD_SIZE as int,
        );
    }
    assert forall|j: int|
        0 <= j <= INTERNAL_NODE_MAX_CELLS implies #[trigger] spec_internal_child(mid, j)
        == spec_internal_child(root, j) by {
        lemma_internal_cell_off(j);
        lemma_internal_cell_off(j + 1);
        lemma_internal_cell_off(w);
        lemma_internal_cell_off(w + 1);
        lemma_u32_at_frame(
            root,
            mid,
            spec_internal_cell_off(w) + INTERNAL_NODE_CHILD_SIZE as int,
            spec_internal_cell_off(w + 1),
            spec_internal_cell_off(j),
        );
    }
    // the child's keys, and the inserted key, all exceed the separator below
    assert(t0.child(ci) == l);
    // the written slot is exactly the child's position
    if ci < nk {
        assert(spec_internal_key(root, ci) == spec_node_max_key(t0.child(ci)));
        assert(spec_internal_key(root, ci) == old_max);
        if w < ci {
            assert(spec_internal_key(root, w) < spec_internal_key(root, ci));
            assert(false);
        }
        if w > ci {
            assert(spec_internal_key(root, ci) < old_max);
            assert(false);
        }
    } else {
        assert(ci == nk);
        assert forall|j: int| 0 <= j < nk implies spec_internal_key(root, j) < old_max by {
            assert(old_max == spec_leaf_key(l, LEAF_NODE_MAX_CELLS as int - 1));
            assert(spec_leaf_key(t0.child(ci), LEAF_NODE_MAX_CELLS as int - 1)
                > spec_internal_key(root, ci - 1));
            if j < nk - 1 {
                assert(spec_internal_key(root, j) < spec_internal_key(root, nk - 1));
            }
        }
        if w < nk {
            assert(spec_internal_key(root, w) >= old_max);
            assert(false);
        }
    }
    assert(w == ci);
    // the new separator still sits strictly between its neighbours
    assert(new_max < old_max) by {
        if at == LEAF_NODE_MAX_CELLS {
            assert(spec_logical_key(l, at, key, LEAF_NODE_MAX_CELLS as int - 1) == old_max);
            assert(spec_logical_key(l, at, key, LEAF_NODE_LEFT_SPLIT_COUNT as int - 1)
                < spec_logical_key(l, at, key, LEAF_NODE_MAX_CELLS as int - 1));
        } else {
            assert(spec_logical_key(l, at, key, LEAF_NODE_MAX_CELLS as int) == old_max);
            assert(spec_logical_key(l, at, key, LEAF_NODE_LEFT_SPLIT_COUNT as int - 1)
                < spec_logical_key(l, at, key, LEAF_NODE_MAX_CELLS as int));
        }
    }
    if ci > 0 {
        assert(new_max > spec_internal_key(root, ci - 1)) by {
            let h = LEAF_NODE_LEFT_SPLIT_COUNT as int - 1;
            if h < at {
                assert(spec_leaf_key(t0.child(ci), h) > spec_internal_key(root, ci - 1));
            } else if h == at {
                assert(spec_internal_key(root, ci - 1) < key);
            } else {
                assert(spec_leaf_key(t0.child(ci), h - 1) > spec_internal_key(root, ci - 1));
            }
        }
    }
    // strict ascent of mid's keys
    assert forall|i: int, j: int|
        0 <= i < j < spec_internal_num_keys(mid) implies spec_internal_key(mid, i)
        < spec_internal_key(mid, j) by {
        if i == w {
            assert(spec_internal_key(mid, j) == spec_internal_key(root, j));
            assert(spec_internal_key(root, w) == old_max);
            assert(old_max < spec_internal_key(root, j) || w >= nk);
        } else if j == w {
            assert(spec_internal_key(mid, i) == spec_internal_key(root, i));
            assert(spec_internal_key(root, i) <= spec_internal_key(root, w - 1)
                || i == w - 1);
            assert(new_max > spec_internal_key(root, w - 1));
            if i < w - 1 {
                assert(spec_internal_key(root, i) < spec_internal_key(root, w - 1));
            }
        } else {
            assert(spec_internal_key(mid, i) == spec_internal_key(root, i));
            assert(spec_internal_key(mid, j) == spec_internal_key(root, j));
        }
    }
}

/// One step of rebuilding a split half in a scratch buffer: after cell `q`
/// is given its logical value (touching no other byte), the rebuilt prefix
/// grows by one and the untouched suffix stays the source's.
proof fn lemma_scratch_step(
    s_pre: Seq<u8>,
    s: Seq<u8>,
    o0: Seq<u8>,
    l: Seq<u8>,
    at: int,
    key: u32,
    rb: Seq<u8>,
    q: int,
)
    requires
        s_pre.len() == PAGE_SIZE,
        s.len() == PAGE_SIZE,
        0 <= q < LEAF_NODE_MAX_CELLS,
        forall|p: int|
            0 <= p < q ==> #[trigger] spec_leaf_key(s_pre, p) == spec_logical_key(l, at, key, p),
        forall|p: int|
            0 <= p < q ==> #[trigger] spec_leaf_value(s_pre, p) == spec_logical_value(
                l,
                at,
                rb,
                p,
            ),
        forall|p: int|
            q <= p < LEAF_NODE_MAX_CELLS ==> #[trigger] spec_leaf_key(s_pre, p)
                == spec_leaf_key(o0, p),
        forall|p: int|
            q <= p < LEAF_NODE_MAX_CELLS ==> #[trigger] spec_leaf_value(s_pre, p)
                == spec_leaf_value(o0, p),
        bytes_eq_except(s_pre, s, spec_leaf_cell_off(q), spec_leaf_cell_off(q + 1)),
        spec_leaf_key(s, q) == spec_logical_key(l, at, key, q),
        spec_leaf_value(s, q) == spec_logical_value(l, at, rb, q),
    ensures
        forall|p: int|
            0 <= p < q + 1 ==> #[trigger] spec_leaf_key(s, p) == spec_logical_key(l, at, key, p),
        forall|p: int|
            0 <= p < q + 1 ==> #[trigger] spec_leaf_value(s, p) == spec_logical_value(
                l,
                at,
                rb,
                p,
            ),
        forall|p: int|
            q + 1 <= p < LEAF_NODE_MAX_CELLS ==> #[trigger] spec_leaf_key(s, p)
                == spec_leaf_key(o0, p),
        forall|p: int|
            q + 1 <= p < LEAF_NODE_MAX_CELLS ==> #[trigger] spec_leaf_value(s, p)
                == spec_leaf_value(o0, p),
        s[NODE_TYPE_OFFSET as int] == s_pre[NODE_TYPE_OFFSET as int],
        s[IS_ROOT_OFFSET as int] == s_pre[IS_ROOT_OFFSET as int],
        spec_parent(s) == spec_parent(s_pre),
        spec_leaf_num_cells(s) == spec_leaf_num_cells(s_pre),
        spec_leaf_next(s) == spec_leaf_next(s_pre),
{
    lemma_layout_constants();
    lemma_u32_at_frame(
        s_pre,
        s,
        spec_leaf_cell_off(q),
        spec_leaf_cell_off(q + 1),
        PARENT_POINTER_OFFSET as int,
    );
    lemma_u32_at_frame(
        s_pre,
        s,
        spec_leaf_cell_off(q),
        spec_leaf_cell_off(q + 1),
        LEAF_NODE_NUM_CELLS_OFFSET as int,
    );
    lemma_u32_at_frame(
        s_pre,
        s,
        spec_leaf_cell_off(q),
        spec_leaf_cell_off(q + 1),
        LEAF_NODE_NEXT_LEAF_OFFSET as int,
    );
    assert forall|p: int|
        0 <= p < LEAF_NODE_MAX_CELLS && p != q implies #[trigger] spec_leaf_key(s, p)
        == spec_leaf_key(s_pre, p) && spec_leaf_value(s, p) == spec_leaf_value(s_pre, p) by {
        lemma_leaf_cell_off(p);
        lemma_leaf_cell_off(p + 1);
        lemma_leaf_cell_off(q);
        lemma_leaf_cell_off(q + 1);
        lemma_u32_at_frame(
            s_pre,
            s,
            spec_leaf_cell_off(q),
            spec_leaf_cell_off(q + 1),
            spec_leaf_cell_off(p),
        );
        lemma_range_frame(
            s_pre,
            s,
            spec_leaf_cell_off(q),
            spec_leaf_cell_off(q + 1),
            spec_leaf_cell_off(p) + 4,
            spec_leaf_cell_off(p + 1),
        );
    }
    assert forall|p: int|
        0 <= p < q + 1 implies #[trigger] spec_leaf_key(s, p) == spec_logical_key(
        l,
        at,
        key,
        p,
    ) by {
        if p < q {
            assert(spec_leaf_key(s, p) == spec_leaf_key(s_pre, p));
            assert(spec_leaf_key(s_pre, p) == spec_logical_key(l, at, key, p));
        }
    }
    assert forall|p: int|
        0 <= p < q + 1 implies #[trigger] spec_leaf_value(s, p) == spec_logical_value(
        l,
        at,
        rb,
        p,
    ) by {
        if p < q {
            assert(spec_leaf_value(s, p) == spec_leaf_value(s_pre, p));
            assert(spec_leaf_value(s_pre, p) == spec_logical_value(l, at, rb, p));
        }
    }
    assert forall|p: int|
        q + 1 <= p < LEAF_NODE_MAX_CELLS implies #[trigger] spec_leaf_key(s, p)
        == spec_leaf_key(o0, p) by {
        assert(spec_leaf_key(s, p) == spec_leaf_key(s_pre, p));
        assert(spec_leaf_key(s_pre, p) == spec_leaf_key(o0, p));
    }
    assert forall|p: int|
        q + 1 <= p < LEAF_NODE_MAX_CELLS implies #[trigger] spec_leaf_value(s, p)
        == spec_leaf_value(o0, p) by {
        assert(spec_leaf_value(s, p) == spec_leaf_value(s_pre, p));
        assert(spec_leaf_value(s_pre, p) == spec_leaf_value(o0, p));
    }
}

/// The leaf a cursor finds for `key` under an internal root is exactly the
/// child the separator search names.
pub proof fn lemma_cursor_child(t: Table, c: Cursor, key: u32)
    requires
        t.wf(),
        !spec_is_leaf(t.root()),
        spec_cursor_finds(t, c, key),
    ensures
        0 <= t.spec_child_index(key) < t.child_count(),
        c.page_num == t.child_page(t.spec_child_index(key)),
        t.pager.page_view(c.page_num as int) == t.child(t.spec_child_index(key)),
{
    let ci = choose|ci: int|
        {
            &&& 0 <= ci < t.child_count()
            &&& c.page_num == #[trigger] t.child_page(ci)
            &&& (forall|j: int| 0 <= j < ci ==> spec_internal_key(t.root(), j) < key)
            &&& (ci < spec_internal_num_keys(t.root()) ==> spec_internal_key(t.root(), ci)
                >= key)
        };
    crate::tree::lemma_find_child_unique(t.root(), key, ci);
}

/// Insert preservation law: a table stays well-formed when a record is
/// inserted in place into a leaf with room, at the position the root
/// descent selects for a key the table does not yet hold.
pub proof fn lemma_insert_keeps_wf(t0: Table, t1: Table, c: Cursor, key: u32, rb: Seq<u8>)
    requires
        t0.wf(),
        spec_cursor_finds(t0, c, key),
        c.cell_num < spec_leaf_num_cells(t0.pager.page_view(c.page_num as int))
            ==> spec_leaf_key(t0.pager.page_view(c.page_num as int), c.cell_num as int) > key,
        spec_leaf_num_cells(t0.pager.page_view(c.page_num as int)) < LEAF_NODE_MAX_CELLS,
        spec_leaf_inserted(
            t0.pager.page_view(c.page_num as int),
            t1.pager.page_view(c.page_num as int),
            c.cell_num as int,
            key,
            rb,
        ),
        t1.pager.wf(),
        t1.root_page_num == t0.root_page_num,
        t1.pager.num_pages == t0.pager.num_pages,
        forall|q: int|
            0 <= q < TABLE_MAX_PAGES && q != c.page_num ==> t1.pager.page_view(q)
                == t0.pager.page_view(q),
    ensures
        t1.wf(),
        t1.contains(key),
{
    let l = t0.pager.page_view(c.page_num as int);
    let l1 = t1.pager.page_view(c.page_num as int);
    let at = c.cell_num as int;
    let n = spec_leaf_num_cells(l) as int;
    // the grown leaf keeps its keys strictly ascending
    assert forall|i: int, j: int|
        0 <= i < j < spec_leaf_num_cells(l1) implies spec_leaf_key(l1, i) < spec_leaf_key(
        l1,
        j,
    ) by {
        if i < at && j < at {
            assert(spec_leaf_key(l1, i) == spec_leaf_key(l, i));
            assert(spec_leaf_key(l1, j) == spec_leaf_key(l, j));
        } else if i < at && j == at {
            assert(spec_leaf_key(l1, i) == spec_leaf_key(l, i));
            assert(spec_leaf_key(l, i) < key);
        } else if i < at && j > at {
            assert(spec_leaf_key(l1, i) == spec_leaf_key(l, i));
            assert(spec_leaf_key(l1, j) == spec_leaf_key(l, j - 1));
            if i == j - 1 {
                assert(false);
            }
            assert(spec_leaf_key(l, i) < spec_leaf_key(l, j - 1));
        } else if i == at {
            assert(spec_leaf_key(l1, j) == spec_leaf_key(l, j - 1));
            if j - 1 == at {
                assert(spec_leaf_key(l, at) > key);
            } else {
                assert(spec_leaf_key(l, at) < spec_leaf_key(l, j - 1));
                assert(spec_leaf_key(l, at) > key);
            }
        } else {
            assert(spec_leaf_key(l1, i) == spec_leaf_key(l, i - 1));
            assert(spec_leaf_key(l1, j) == spec_leaf_key(l, j - 1));
        }
    }
    if spec_is_leaf(t0.root()) {
        assert(c.page_num == t0.root_page_num);
        assert(t1.root() == l1);
        assert(wf_leaf_page(t1.root()));
        assert(t1.wf_leaf_root());
        assert(spec_leaf_key(t1.root(), at) == key);
        assert(t1.contains(key));
    } else {
        let ci = choose|ci: int|
            {
                &&& 0 <= ci < t0.child_count()
                &&& c.page_num == #[trigger] t0.child_page(ci)
                &&& (forall|j: int| 0 <= j < ci ==> spec_internal_key(t0.root(), j) < key)
                &&& (ci < spec_internal_num_keys(t0.root()) ==> spec_internal_key(t0.root(), ci)
                    >= key)
            };
        assert(0 < t0.child_page(ci));
        assert(t1.root() == t0.root());
        assert(t1.child_count() == t0.child_count());
        assert forall|i: int| #[trigger] t1.child_page(i) == t0.child_page(i) by {}
        assert(t0.child(ci) == l);
        assert(t1.child(ci) == l1);
        assert forall|i: int|
            0 <= i < t1.child_count() && i != ci implies #[trigger] t1.child(i) == t0.child(
            i,
        ) by {
            assert(t0.child_page(i) != t0.child_page(ci));
            assert(t1.pager.page_view(t0.child_page(i)) == t0.pager.page_view(t0.child_page(i)));
        }
        let nk = spec_internal_num_keys(t0.root()) as int;
        // the insertion point stays strictly inside a keyed child, so its
        // separator still names its greatest key
        if ci < nk {
            assert(spec_internal_key(t0.root(), ci) == spec_node_max_key(t0.child(ci)));
            if at == n {
                assert(spec_leaf_key(l, n - 1) < key);
                assert(spec_node_max_key(l) == spec_leaf_key(l, n - 1));
                assert(spec_internal_key(t0.root(), ci) >= key);
                assert(false);
            }
            assert(spec_leaf_key(l1, spec_leaf_num_cells(l1) as int - 1) == spec_leaf_key(
                l,
                n - 1,
            ));
            assert(spec_node_max_key(t1.child(ci)) == spec_node_max_key(t0.child(ci)));
        }
        // keys of the grown child still exceed the separator before it
        assert forall|i: int, k: int|
            0 <= i < t1.child_count() && 0 < i && 0 <= k < spec_leaf_num_cells(t1.child(i))
            implies #[trigger] spec_leaf_key(t1.child(i), k) > spec_internal_key(
            t1.root(),
            i - 1,
        ) by {
            if i == ci {
                if k < at {
                    assert(spec_leaf_key(l1, k) == spec_leaf_key(l, k));
                } else if k == at {
                    assert(spec_leaf_key(l1, k) == key);
                    assert(spec_internal_key(t0.root(), ci - 1) < key);
                } else {
                    assert(spec_leaf_key(l1, k) == spec_leaf_key(l, k - 1));
                }
            } else {
                assert(t1.child(i) == t0.child(i));
            }
        }
        assert(t1.wf_internal_root());
    }
}

/// Split preservation law for root growth: a table is again well-formed
/// after its full root leaf is split around an insertion of a key it does
/// not yet hold.
pub proof fn lemma_root_split_keeps_wf(t0: Table, t1: Table, c: Cursor, key: u32, value: Row)
    requires
        t0.wf(),
        spec_is_leaf(t0.root()),
        spec_cursor_finds(t0, c, key),
        c.cell_num < spec_leaf_num_cells(t0.pager.page_view(c.page_num as int))
            ==> spec_leaf_key(t0.pager.page_view(c.page_num as int), c.cell_num as int) > key,
        spec_leaf_num_cells(t0.pager.page_view(c.page_num as int)) == LEAF_NODE_MAX_CELLS,
        spec_split_outcome(t0, t1, c, key, value),
        t1.pager.wf(),
        t1.root_page_num == t0.root_page_num,
    ensures
        t1.wf(),
        t1.contains(key),
{
    lemma_layout_constants();
    let l = t0.pager.page_view(c.page_num as int);
    let at = c.cell_num as int;
    let rb = value.spec_bytes();
    let n0 = t0.pager.num_pages as int;
    lemma_logical_keys_sorted(l, at, key);
    assert(c.page_num == t0.root_page_num);
    let lv = t1.pager.page_view(n0 + 1);
    let rv = t1.pager.page_view(n0);
    crate::tree::lemma_split_balance(l, lv, rv, at, key, rb, n0);
    assert(t1.child_count() == 2);
    assert(t1.child_page(0) == n0 + 1);
    assert(t1.child_page(1) == n0);
    assert(t1.child(0) == lv);
    assert(t1.child(1) == rv);
    t1.pager.lemma_page_view_len(0);
    assert(wf_internal_page(t1.root()));
    assert(wf_leaf_page(lv));
    assert(wf_leaf_page(rv));
    assert(spec_internal_key(t1.root(), 0) == spec_leaf_key(
        lv,
        LEAF_NODE_LEFT_SPLIT_COUNT as int - 1,
    ));
    assert(spec_node_max_key(t1.child(0)) == spec_leaf_key(
        lv,
        LEAF_NODE_LEFT_SPLIT_COUNT as int - 1,
    ));
    assert forall|k: int|
        0 <= k < spec_leaf_num_cells(rv) implies #[trigger] spec_leaf_key(rv, k)
        > spec_internal_key(t1.root(), 0) by {
        assert(spec_leaf_key(lv, LEAF_NODE_LEFT_SPLIT_COUNT as int - 1) < spec_leaf_key(rv, k));
    }
    assert(spec_leaf_next(t1.child(0)) == t1.child_page(1));
    assert(spec_leaf_next(t1.child(1)) == spec_leaf_next(l));
    assert(spec_leaf_next(l) == 0);
    assert(t1.wf_internal_root());
    // the inserted key sits in whichever half received it
    if at < LEAF_NODE_LEFT_SPLIT_COUNT {
        assert(spec_leaf_key(t1.child(0), at) == spec_logical_key(l, at, key, at));
        assert(spec_leaf_key(t1.child(0), at) == key);
    } else {
        assert(spec_leaf_key(t1.child(1), at - LEAF_NODE_LEFT_SPLIT_COUNT as int)
            == spec_logical_key(l, at, key, at));
        assert(spec_leaf_key(t1.child(1), at - LEAF_NODE_LEFT_SPLIT_COUNT as int) == key);
    }
    assert(t1.contains(key));
}

/// Split preservation law for a leaf under the root: a table is again
/// well-formed after a full child leaf is split around an insertion of a
/// key the table does not yet hold, provided the root had room for one
/// more child.
#[verifier::rlimit(100)]
#[verifier::spinoff_prover]
pub proof fn lemma_child_split_keeps_wf(t0: Table, t1: Table, c: Cursor, key: u32, value: Row)
    requires
        t0.wf(),
        !spec_is_leaf(t0.root()),
        spec_internal_num_keys(t0.root()) < INTERNAL_NODE_MAX_CELLS,
        spec_cursor_finds(t0, c, key),
        c.cell_num < spec_leaf_num_cells(t0.pager.page_view(c.page_num as int))
            ==> spec_leaf_key(t0.pager.page_view(c.page_num as int), c.cell_num as int) > key,
        spec_leaf_num_cells(t0.pager.page_view(c.page_num as int)) == LEAF_NODE_MAX_CELLS,
        spec_split_outcome(t0, t1, c, key, value),
        t1.pager.wf(),
        t1.root_page_num == t0.root_page_num,
    ensures
        t1.wf(),
        t1.contains(key),
{
    lemma_layout_constants();
    let l = t0.pager.page_view(c.page_num as int);
    let at = c.cell_num as int;
    let rb = value.spec_bytes();
    let n0 = t0.pager.num_pages as int;
    let root0 = t0.root();
    let root1 = t1.root();
    let nk = spec_internal_num_keys(root0) as int;
    let lv = t1.pager.page_view(c.page_num as int);
    let rv = t1.pager.page_view(n0);
    let new_max = spec_logical_key(l, at, key, LEAF_NODE_LEFT_SPLIT_COUNT as int - 1);
    let ck = spec_logical_key(l, at, key, LEAF_NODE_MAX_CELLS as int);
    lemma_logical_keys_sorted(l, at, key);
    crate::tree::lemma_split_balance(l, lv, rv, at, key, rb, n0);
    t1.pager.lemma_page_view_len(0);
    let ci = choose|ci: int|
        {
            &&& 0 <= ci < t0.child_count()
            &&& c.page_num == #[trigger] t0.child_page(ci)
            &&& (forall|j: int| 0 <= j < ci ==> spec_internal_key(t0.root(), j) < key)
            &&& (ci < spec_internal_num_keys(t0.root()) ==> spec_internal_key(t0.root(), ci)
                >= key)
        };
    assert(t0.child(ci) == l);
    let (mid, w): (Seq<u8>, int) = choose|mid: Seq<u8>, w: int|
        spec_parent_growth(t0, t1, c, key, mid, w);
    lemma_parent_after_key_update(t0, c.page_num as int, ci, at, key, mid, w);
    assert(w == ci);
    // the grown root keeps the internal discriminator and the root flag
    assert(root1[NODE_TYPE_OFFSET as int] == mid[NODE_TYPE_OFFSET as int]);
    assert(root1[IS_ROOT_OFFSET as int] == mid[IS_ROOT_OFFSET as int]);
    assert(!spec_is_leaf(root1));
    assert(spec_is_root(root1));
    assert(spec_internal_num_keys(root1) == nk + 1);
    // every old child page lies below the fresh page
    assert forall|j: int| 0 <= j < t0.child_count() implies #[trigger] t0.child_page(j)
        < n0 by {}
    // unchanged children keep their contents
    assert forall|j: int|
        0 <= j < t0.child_count() && j != ci implies t1.pager.page_view(t0.child_page(j))
        == t0.child(j) by {
        assert(t0.child_page(j) != t0.child_page(ci));
    }
    // the split child's logical keys all exceed the separator before it
    assert forall|k: int|
        0 <= k < LEAF_NODE_MAX_CELLS + 1 && 0 < ci implies #[trigger] spec_logical_key(
        l,
        at,
        key,
        k,
    ) > spec_internal_key(root0, ci - 1) by {
        if k < at {
            assert(spec_leaf_key(l, k) > spec_internal_key(root0, ci - 1));
        } else if k == at {
            assert(spec_internal_key(root0, ci - 1) < key);
        } else {
            assert(spec_leaf_key(l, k - 1) > spec_internal_key(root0, ci - 1));
        }
    }
    // the halves' greatest keys
    assert(new_max == spec_leaf_key(lv, LEAF_NODE_LEFT_SPLIT_COUNT as int - 1));
    assert(new_max == spec_node_max_key(lv));
    assert(ck == spec_leaf_key(rv, LEAF_NODE_RIGHT_SPLIT_COUNT as int - 1));
    assert(ck == spec_node_max_key(rv));
    assert(new_max < ck) by {
        assert(spec_logical_key(l, at, key, LEAF_NODE_LEFT_SPLIT_COUNT as int - 1)
            < spec_logical_key(l, at, key, LEAF_NODE_MAX_CELLS as int));
    }
    // every key of the right half tops the left half's greatest key
    assert forall|k: int|
        0 <= k < LEAF_NODE_RIGHT_SPLIT_COUNT implies #[trigger] spec_leaf_key(rv, k)
        > new_max by {
        assert(spec_leaf_key(lv, LEAF_NODE_LEFT_SPLIT_COUNT as int - 1) < spec_leaf_key(rv, k));
    }
    let rcp = t0.child_page(nk);
    let rleaf = if rcp == c.page_num {
        t1.pager.page_view(c.page_num as int)
    } else {
        t0.pager.page_view(rcp)
    };
    if ci < nk {
        // splice case: the split child keeps a separator, so the current
        // rightmost child is a different leaf whose keys top the new half's
        assert(rcp != c.page_num) by {
            assert(t0.child_page(nk) != t0.child_page(ci));
        }
        assert(rleaf == t0.child(nk));
        assert(at < LEAF_NODE_MAX_CELLS) by {
            if at == LEAF_NODE_MAX_CELLS {
                assert(spec_leaf_key(l, LEAF_NODE_MAX_CELLS as int - 1) < key);
                assert(spec_internal_key(root0, ci) == spec_node_max_key(l));
                assert(spec_internal_key(root0, ci) >= key);
            }
        }
        assert(ck == spec_leaf_key(l, LEAF_NODE_MAX_CELLS as int - 1));
        assert(ck == spec_node_max_key(l));
        assert(ck == spec_internal_key(root0, ci));
        assert(ck <= spec_node_max_key(rleaf)) by {
            let nr = spec_leaf_num_cells(t0.child(nk)) as int;
            assert(spec_leaf_key(t0.child(nk), nr - 1) > spec_internal_key(root0, nk - 1));
            if ci < nk - 1 {
                assert(spec_internal_key(root0, ci) < spec_internal_key(root0, nk - 1));
            }
            assert(spec_node_max_key(t0.child(nk)) == spec_leaf_key(t0.child(nk), nr - 1));
        }
        let s = choose|s: int| spec_internal_spliced(mid, root1, ck, n0, s);
        assert(s == ci + 1) by {
            assert forall|j: int| 0 <= j <= ci implies spec_internal_key(mid, j) < ck by {
                if j < ci {
                    assert(spec_internal_key(mid, j) == spec_internal_key(root0, j));
                    assert(spec_internal_key(root0, j) < spec_internal_key(root0, ci));
                } else {
                    assert(spec_internal_key(mid, ci) == new_max);
                }
            }
            if s <= ci {
                assert(spec_internal_key(mid, s) >= ck);
                assert(false);
            }
            if s > ci + 1 {
                assert(ci + 1 < nk);
                assert(spec_internal_key(mid, ci + 1) == spec_internal_key(root0, ci + 1));
                assert(spec_internal_key(root0, ci + 1) == spec_node_max_key(t0.child(ci + 1)));
                let nr = spec_leaf_num_cells(t0.child(ci + 1)) as int;
                assert(spec_leaf_key(t0.child(ci + 1), nr - 1) > spec_internal_key(root0, ci));
                assert(spec_internal_key(mid, ci + 1) < ck);
                assert(false);
            }
        }
        // the new child list, position by position
        assert(t1.child_count() == nk + 2);
        assert forall|j: int|
            0 <= j < t1.child_count() implies #[trigger] t1.child_page(j) == (if j <= ci {
            t0.child_page(j)
        } else if j == ci + 1 {
            n0
        } else {
            t0.child_page(j - 1)
        }) by {
            if j <= ci {
                assert(spec_internal_child(root1, j) == spec_internal_child(mid, j));
                assert(spec_internal_child(mid, j) == spec_internal_child(root0, j));
            } else if j == ci + 1 {
                assert(spec_internal_child(root1, j) == n0);
            } else if j <= nk {
                assert(spec_internal_child(root1, j) == spec_internal_child(mid, j - 1));
                assert(spec_internal_child(mid, j - 1) == spec_internal_child(root0, j - 1));
            } else {
                assert(spec_internal_right_child(root1) == spec_internal_right_child(mid));
                assert(spec_internal_right_child(mid) == spec_internal_right_child(root0));
            }
        }
        assert forall|j: int|
            0 <= j < t1.child_count() implies #[trigger] t1.child(j) == (if j == ci {
            lv
        } else if j == ci + 1 {
            rv
        } else if j < ci {
            t0.child(j)
        } else {
            t0.child(j - 1)
        }) by {
            if j < ci {
                assert(t1.child_page(j) == t0.child_page(j));
            } else if j == ci {
                assert(t1.child_page(j) == t0.child_page(ci));
            } else if j == ci + 1 {
                assert(t1.child_page(j) == n0);
            } else {
                assert(t1.child_page(j) == t0.child_page(j - 1));
            }
        }
        assert forall|j: int|
            0 <= j < nk + 1 implies #[trigger] spec_internal_key(root1, j) == (if j < ci {
            spec_internal_key(root0, j)
        } else if j == ci {
            new_max
        } else if j == ci + 1 {
            ck
        } else {
            spec_internal_key(root0, j - 1)
        }) by {
            if j < ci {
                assert(spec_internal_child(root1, j) == spec_internal_child(mid, j));
                assert(spec_internal_key(root1, j) == spec_internal_key(mid, j));
                assert(spec_internal_key(mid, j) == spec_internal_key(root0, j));
            } else if j == ci {
                assert(spec_internal_child(root1, j) == spec_internal_child(mid, j));
                assert(spec_internal_key(root1, j) == spec_internal_key(mid, ci));
            } else if j == ci + 1 {
                assert(spec_internal_key(root1, ci + 1) == ck);
            } else {
                assert(spec_internal_child(root1, j) == spec_internal_child(mid, j - 1));
                assert(spec_internal_key(root1, j) == spec_internal_key(mid, j - 1));
                assert(spec_internal_key(mid, j - 1) == spec_internal_key(root0, j - 1));
            }
        }
        // the root page itself is a sound internal node
        assert(wf_internal_page(root1)) by {
            assert forall|i: int, j: int|
                0 <= i < j < nk + 1 implies spec_internal_key(root1, i) < spec_internal_key(
                root1,
                j,
            ) by {
                if j == ci {
                    assert(spec_internal_key(root0, i) < key || i == 0) by {}
                    if i < ci {
                        assert(spec_internal_key(root0, i) <= spec_internal_key(
                            root0,
                            ci - 1,
                        ) || i == ci - 1);
                        if i < ci - 1 {
                            assert(spec_internal_key(root0, i) < spec_internal_key(
                                root0,
                                ci - 1,
                            ));
                        }
                        assert(new_max > spec_internal_key(root0, ci - 1));
                    }
                } else if j == ci + 1 {
                    if i < ci {
                        assert(spec_internal_key(root0, i) < spec_internal_key(root0, ci));
                    }
                } else {
                    if i == ci {
                        assert(new_max < ck);
                        assert(ck < spec_internal_key(root0, j - 1));
                    } else if i == ci + 1 {
                        assert(ck < spec_internal_key(root0, j - 1));
                    } else if i < ci {
                        assert(spec_internal_key(root0, i) < spec_internal_key(root0, j - 1));
                    } else {
                        assert(spec_internal_key(root0, i - 1) < spec_internal_key(
                            root0,
                            j - 1,
                        ));
                    }
                }
            }
        }
        assert(t1.wf_internal_root()) by {
            assert forall|j: int|
                0 <= j < t1.child_count() implies {
                &&& 0 < #[trigger] t1.child_page(j) < t1.pager.num_pages
                &&& wf_leaf_page(t1.child(j))
                &&& !spec_is_root(t1.child(j))
                &&& spec_parent(t1.child(j)) == t1.root_page_num
                &&& 1 <= spec_leaf_num_cells(t1.child(j))
            } by {}
            assert forall|j: int|
                0 <= j < nk + 1 implies #[trigger] spec_internal_key(root1, j)
                == spec_node_max_key(t1.child(j)) by {
                if j < ci {
                    assert(spec_internal_key(root0, j) == spec_node_max_key(t0.child(j)));
                } else if j > ci + 1 {
                    assert(spec_internal_key(root0, j - 1) == spec_node_max_key(t0.child(j - 1)));
                }
            }
            assert forall|j: int, k: int|
                0 <= j < t1.child_count() && 0 < j && 0 <= k < spec_leaf_num_cells(t1.child(j))
                implies #[trigger] spec_leaf_key(t1.child(j), k) > spec_internal_key(
                root1,
                j - 1,
            ) by {
                if j < ci {
                    assert(spec_leaf_key(t0.child(j), k) > spec_internal_key(root0, j - 1));
                } else if j == ci {
                    assert(spec_leaf_key(lv, k) == spec_logical_key(l, at, key, k));
                } else if j == ci + 1 {
                    assert(spec_leaf_key(rv, k) > new_max);
                } else if j == ci + 2 {
                    assert(spec_leaf_key(t0.child(ci + 1), k) > spec_internal_key(root0, ci));
                } else {
                    assert(spec_leaf_key(t0.child(j - 1), k) > spec_internal_key(root0, j - 2));
                }
            }
            assert forall|j: int|
                0 <= j < t1.child_count() - 1 implies spec_leaf_next(#[trigger] t1.child(j))
                == t1.child_page(j + 1) by {
                if j < ci {
                    assert(spec_leaf_next(t0.child(j)) == t0.child_page(j + 1));
                } else if j == ci {
                    assert(spec_leaf_next(lv) == n0);
                } else if j == ci + 1 {
                    assert(spec_leaf_next(rv) == spec_leaf_next(l));
                    assert(spec_leaf_next(t0.child(ci)) == t0.child_page(ci + 1));
                } else {
                    assert(spec_leaf_next(t0.child(j - 1)) == t0.child_page(j));
                }
            }
            assert(spec_leaf_next(t1.child(t1.child_count() - 1)) == 0) by {
                assert(t1.child(nk + 1) == t0.child(nk));
                assert(spec_leaf_next(t0.child(t0.child_count() - 1)) == 0);
            }
            assert forall|i: int, j: int|
                0 <= i < j < t1.child_count() implies #[trigger] t1.child_page(i)
                != #[trigger] t1.child_page(j) by {
                if j == ci + 1 {
                    assert(t1.child_page(i) < n0);
                } else if i == ci + 1 {
                    assert(t1.child_page(j) < n0);
                } else {
                    let oi: int = if i <= ci {
                        i
                    } else {
                        i - 1
                    };
                    let oj: int = if j <= ci {
                        j
                    } else {
                        j - 1
                    };
                    assert(0 <= oi < oj < t0.child_count());
                    assert(t0.child_page(oi) != t0.child_page(oj));
                }
            }
        }
        // the inserted key sits in whichever half received it
        if at < LEAF_NODE_LEFT_SPLIT_COUNT {
            assert(spec_leaf_key(t1.child(ci), at) == spec_logical_key(l, at, key, at));
            assert(spec_leaf_key(t1.child(ci), at) == key);
        } else {
            assert(spec_leaf_key(t1.child(ci + 1), at - LEAF_NODE_LEFT_SPLIT_COUNT as int)
                == spec_logical_key(l, at, key, at));
            assert(spec_leaf_key(t1.child(ci + 1), at - LEAF_NODE_LEFT_SPLIT_COUNT as int)
                == key);
        }
        assert(t1.contains(key));
    } else {
        // append case: the split child was the rightmost child; its page,
        // now the left half, is demoted and the right half becomes rightmost
        assert(ci == nk);
        assert(rcp == c.page_num);
        assert(rleaf == lv);
        assert(spec_node_max_key(rleaf) == new_max);
        assert(ck > spec_node_max_key(rleaf));
        assert(spec_internal_appended(mid, root1, new_max, n0));
        assert(t1.child_count() == nk + 2);
        assert forall|j: int|
            0 <= j < t1.child_count() implies #[trigger] t1.child_page(j) == (if j < nk {
            t0.child_page(j)
        } else if j == nk {
            t0.child_page(nk)
        } else {
            n0
        }) by {
            if j < nk {
                assert(spec_internal_child(root1, j) == spec_internal_child(mid, j));
                assert(spec_internal_child(mid, j) == spec_internal_child(root0, j));
            } else if j == nk {
                assert(spec_internal_child(root1, nk) == spec_internal_right_child(mid));
                assert(spec_internal_right_child(mid) == spec_internal_right_child(root0));
            } else {
                assert(spec_internal_right_child(root1) == n0);
            }
        }
        assert forall|j: int|
            0 <= j < t1.child_count() implies #[trigger] t1.child(j) == (if j < nk {
            t0.child(j)
        } else if j == nk {
            lv
        } else {
            rv
        }) by {
            if j < nk {
                assert(t1.child_page(j) == t0.child_page(j));
            } else if j == nk {
                assert(t1.child_page(j) == t0.child_page(nk));
                assert(t0.child_page(nk) == c.page_num);
            } else {
                assert(t1.child_page(j) == n0);
            }
        }
        assert forall|j: int|
            0 <= j < nk + 1 implies #[trigger] spec_internal_key(root1, j) == (if j < nk {
            spec_internal_key(root0, j)
        } else {
            new_max
        }) by {
            if j < nk {
                assert(spec_internal_child(root1, j) == spec_internal_child(mid, j));
                assert(spec_internal_key(root1, j) == spec_internal_key(mid, j));
                assert(spec_internal_key(mid, j) == spec_internal_key(root0, j));
            }
        }
        assert(wf_internal_page(root1)) by {
            assert forall|i: int, j: int|
                0 <= i < j < nk + 1 implies spec_internal_key(root1, i) < spec_internal_key(
                root1,
                j,
            ) by {
                if j == nk {
                    if i < nk - 1 {
                        assert(spec_internal_key(root0, i) < spec_internal_key(root0, nk - 1));
                    }
                    assert(new_max > spec_internal_key(root0, nk - 1));
                }
            }
        }
        assert(t1.wf_internal_root()) by {
            assert forall|j: int|
                0 <= j < t1.child_count() implies {
                &&& 0 < #[trigger] t1.child_page(j) < t1.pager.num_pages
                &&& wf_leaf_page(t1.child(j))
                &&& !spec_is_root(t1.child(j))
                &&& spec_parent(t1.child(j)) == t1.root_page_num
                &&& 1 <= spec_leaf_num_cells(t1.child(j))
            } by {}
            assert forall|j: int|
                0 <= j < nk + 1 implies #[trigger] spec_internal_key(root1, j)
                == spec_node_max_key(t1.child(j)) by {
                if j < nk {
                    assert(spec_internal_key(root0, j) == spec_node_max_key(t0.child(j)));
                }
            }
            assert forall|j: int, k: int|
                0 <= j < t1.child_count() && 0 < j && 0 <= k < spec_leaf_num_cells(t1.child(j))
                implies #[trigger] spec_leaf_key(t1.child(j), k) > spec_internal_key(
                root1,
                j - 1,
            ) by {
                if j < nk {
                    assert(spec_leaf_key(t0.child(j), k) > spec_internal_key(root0, j - 1));
                } else if j == nk {
                    assert(spec_leaf_key(lv, k) == spec_logical_key(l, at, key, k));
                } else {
                    assert(spec_leaf_key(rv, k) > new_max);
                }
            }
            assert forall|j: int|
                0 <= j < t1.child_count() - 1 implies spec_leaf_next(#[trigger] t1.child(j))
                == t1.child_page(j + 1) by {
                if j < nk {
                    assert(spec_leaf_next(t0.child(j)) == t0.child_page(j + 1));
                } else {
                    assert(spec_leaf_next(lv) == n0);
                }
            }
            assert(spec_leaf_next(t1.child(t1.child_count() - 1)) == 0) by {
                assert(t1.child(nk + 1) == rv);
                assert(spec_leaf_next(rv) == spec_leaf_next(l));
                assert(spec_leaf_next(t0.child(t0.child_count() - 1)) == 0);
            }
            assert forall|i: int, j: int|
                0 <= i < j < t1.child_count() implies #[trigger] t1.child_page(i)
                != #[trigger] t1.child_page(j) by {
                if j == nk + 1 {
                    assert(t1.child_page(i) < n0);
                } else {
                    assert(t0.child_page(i) != t0.child_page(j));
                }
            }
        }
        // the inserted key sits in whichever half received it
        if at < LEAF_NODE_LEFT_SPLIT_COUNT {
            assert(spec_leaf_key(t1.child(nk), at) == spec_logical_key(l, at, key, at));
            assert(spec_leaf_key(t1.child(nk), at) == key);
        } else {
            assert(spec_leaf_key(t1.child(nk + 1), at - LEAF_NODE_LEFT_SPLIT_COUNT as int)
                == spec_logical_key(l, at, key, at));
            assert(spec_leaf_key(t1.child(nk + 1), at - LEAF_NODE_LEFT_SPLIT_COUNT as int)
                == key);
        }
        assert(t1.contains(key));
    }
}

impl Cursor {
    /// Binary-search leaf `page_num` for `key`: the cursor lands on the
    /// first cell whose key is at least `key`, or one past the last cell.
    fn leaf_node_find(table: &mut Table, page_num: usize, key: u32) -> (r: DbResult<Cursor>)
        requires
            old(table).pager.wf(),
            page_num < old(table).pager.num_pages,
            wf_leaf_page(old(table).pager.page_view(page_num as int)),
        ensures
            old(table).same_state(*final(table)),
            r is Ok,
            ({
                let c = r->Ok_0;
                let l = old(table).pager.page_view(page_num as int);
                &&& c.page_num == page_num
                &&& !c.end_of_table
                &&& c.cell_num <= spec_leaf_num_cells(l)
                &&& (forall|j: int| 0 <= j < c.cell_num ==> spec_leaf_key(l, j) < key)
                &&& (c.cell_num < spec_leaf_num_cells(l) ==> spec_leaf_key(l, c.cell_num as int)
                    >= key)
            }),
    {
        if let Err(e) = table.pager.get_page(page_num) {
            return Err(e);
        }
        let ghost l = table.pager.page_view(page_num as int);
        let node = &table.pager.pages[page_num];
        let num_cells = leaf_node_num_cells(node);
        let mut cursor = Cursor { page_num, cell_num: 0, end_of_table: false };
        // Binary search over the half-open index range.
        let mut min_index: u32 = 0;
        let mut one_past_max_index: u32 = num_cells;
        while one_past_max_index != min_index
            invariant
                old(table).same_state(*table),
                table.pager.wf(),
                page_num < table.pager.pages@.len(),
                l == table.pager.pages@[page_num as int]@,
                wf_leaf_page(l),
                num_cells == spec_leaf_num_cells(l),
                cursor.page_num == page_num,
                !cursor.end_of_table,
                min_index <= one_past_max_index <= num_cells,
                forall|j: int| 0 <= j < min_index ==> spec_leaf_key(l, j) < key,
                forall|j: int|
                    one_past_max_index <= j < num_cells ==> spec_leaf_key(l, j) >= key,
            decreases one_past_max_index - min_index,
        {
            let index: u32 = min_index + (one_past_max_index - min_index) / 2;
            let key_at_index: u32 = leaf_node_key(&table.pager.pages[page_num], index as usize);
            if key == key_at_index {
                cursor.cell_num = index as usize;
                return Ok(cursor);
            }
            if key < key_at_index {
                one_past_max_index = index;
            } else {
                min_index = index + 1;
            }
        }
        cursor.cell_num = min_index as usize;
        Ok(cursor)
    }

    /// Descend from the internal root into the child whose key range admits
    /// `key`, then binary-search that leaf.
    fn internal_node_find(table: &mut Table, page_num: usize, key: u32) -> (r: DbResult<Cursor>)
        requires
            old(table).wf(),
            page_num == old(table).root_page_num,
            !spec_is_leaf(old(table).root()),
        ensures
            old(table).same_state(*final(table)),
            r is Ok,
            ({
                let c = r->Ok_0;
                &&& spec_cursor_finds(*old(table), c, key)
                &&& !c.end_of_table
            }),
    {
        if let Err(e) = table.pager.get_page(page_num) {
            return Err(e);
        }
        let node = &table.pager.pages[page_num];
        let child_index: u32 = internal_node_find_child(node, key);
        let child_num: u32 = match internal_node_child(node, child_index as usize) {
            Ok(c) => c,
            Err(e) => {
                proof {
                    // the found index never exceeds the key count
                    assert(false);
                }
                return Err(e);
            },
        };
        proof {
            assert(old(table).child_page(child_index as int) == child_num);
            assert(0 < child_num < table.pager.num_pages);
            assert(wf_leaf_page(table.pager.page_view(child_num as int)));
        }
        if let Err(e) = table.pager.get_page(child_num as usize) {
            return Err(e);
        }
        let child = &table.pager.pages[child_num as usize];
        match get_node_type(child) {
            NodeType::NodeLeaf => {
                let r = Self::leaf_node_find(table, child_num as usize, key);
                proof {
                    let c = r->Ok_0;
                    let ci = child_index as int;
                    assert({
                        &&& 0 <= ci < old(table).child_count()
                        &&& c.page_num == old(table).child_page(ci)
                        &&& (forall|j: int|
                            0 <= j < ci ==> spec_internal_key(old(table).root(), j) < key)
                        &&& (ci < spec_internal_num_keys(old(table).root())
                            ==> spec_internal_key(old(table).root(), ci) >= key)
                    });
                }
                r
            },
            NodeType::NodeInternal => {
                proof {
                    // a well-formed two-level tree has only leaf children
                    assert(false);
                }
                Err(DbError::ChildOutOfBounds)
            },
        }
    }

    /// Locate `key` in the table: binary-search the root leaf directly, or
    /// descend through the internal root.
    pub fn table_find(table: &mut Table, key: u32) -> (r: DbResult<Cursor>)
        requires
            old(table).wf(),
        ensures
            old(table).same_state(*final(table)),
            r is Ok,
            spec_cursor_finds(*old(table), r->Ok_0, key),
            !r->Ok_0.end_of_table,
    {
        let root_page_num = table.root_page_num;
        if let Err(e) = table.pager.get_page(root_page_num) {
            return Err(e);
        }
        let root_node = &table.pager.pages[root_page_num];
        proof {
            assert(table.pager.pages@[root_page_num as int]@ == old(table).root());
        }
        match get_node_type(root_node) {
            NodeType::NodeLeaf => {
                let r = Self::leaf_node_find(table, root_page_num, key);
                proof {
                    assert(spec_cursor_finds(*old(table), r->Ok_0, key));
                }
                r
            },
            NodeType::NodeInternal => {
                proof {
                    Table::lemma_same_state_wf(*old(table), *table);
                }
                let ghost mid = *table;
                let r = Self::internal_node_find(table, root_page_num, key);
                proof {
                    lemma_same_state_finds(*old(table), mid, r->Ok_0, key);
                }
                r
            },
        }
    }

    /// A cursor at the start of the table: the leftmost leaf's first cell,
    /// already at end of table when the table is empty.
    pub fn table_start(table: &mut Table) -> (r: DbResult<Cursor>)
        requires
            old(table).wf(),
        ensures
            old(table).same_state(*final(table)),
            r is Ok,
            ({
                let c = r->Ok_0;
                let l = old(table).pager.page_view(c.page_num as int);
                &&& spec_cursor_finds(*old(table), c, 0)
                &&& c.cell_num == 0
                &&& c.end_of_table <==> spec_leaf_num_cells(l) == 0
            }),
    {
        let mut cursor = match Self::table_find(table, 0) {
            Ok(c) => c,
            Err(e) => {
                return Err(e);
            },
        };
        if let Err(e) = table.pager.get_page(cursor.page_num) {
            return Err(e);
        }
        let node = &table.pager.pages[cursor.page_num];
        let num_cells: u32 = leaf_node_num_cells(node);
        cursor.end_of_table = num_cells == 0;
        proof {
            let l = old(table).pager.page_view(cursor.page_num as int);
            if cursor.cell_num > 0 {
                assert(spec_leaf_key(l, 0) < 0);
            }
            assert(num_cells == spec_leaf_num_cells(l));
        }
        Ok(cursor)
    }

    /// Set both split halves' cell counts to the fixed shares; the halves
    /// already hold their logical cells.
    #[verifier::rlimit(100)]
    #[verifier::spinoff_prover]
    fn split_finalize(
        table: &mut Table,
        page_num: usize,
        new_page_num: usize,
        at: usize,
        key: u32,
        value: &Row,
        Ghost(l): Ghost<Seq<u8>>,
    )
        requires
            old(table).pager.wf(),
            page_num < TABLE_MAX_PAGES,
            new_page_num < TABLE_MAX_PAGES,
            page_num != new_page_num,
            value.wf(),
            l.len() == PAGE_SIZE,
            spec_is_leaf(l),
            spec_leaf_num_cells(l) == LEAF_NODE_MAX_CELLS,
            at <= LEAF_NODE_MAX_CELLS,
            old(table).pager.pages@[page_num as int]@.len() == PAGE_SIZE,
            old(table).pager.pages@[new_page_num as int]@.len() == PAGE_SIZE,
            old(table).pager.pages@[page_num as int]@[NODE_TYPE_OFFSET as int]
                == l[NODE_TYPE_OFFSET as int],
            old(table).pager.pages@[page_num as int]@[IS_ROOT_OFFSET as int]
                == l[IS_ROOT_OFFSET as int],
            spec_parent(old(table).pager.pages@[page_num as int]@) == spec_parent(l),
            spec_leaf_next(old(table).pager.pages@[page_num as int]@) == new_page_num,
            spec_is_leaf(old(table).pager.pages@[new_page_num as int]@),
            !spec_is_root(old(table).pager.pages@[new_page_num as int]@),
            spec_parent(old(table).pager.pages@[new_page_num as int]@) == spec_parent(l),
            spec_leaf_next(old(table).pager.pages@[new_page_num as int]@) == spec_leaf_next(l),
            forall|q: int|
                0 <= q < LEAF_NODE_LEFT_SPLIT_COUNT ==> #[trigger] spec_leaf_key(
                    old(table).pager.pages@[page_num as int]@,
                    q,
                ) == spec_logical_key(l, at as int, key, q) && spec_leaf_value(
                    old(table).pager.pages@[page_num as int]@,
                    q,
                ) == spec_logical_value(l, at as int, value.spec_bytes(), q),
            forall|q: int|
                0 <= q < LEAF_NODE_RIGHT_SPLIT_COUNT ==> #[trigger] spec_leaf_key(
                    old(table).pager.pages@[new_page_num as int]@,
                    q,
                ) == spec_logical_key(l, at as int, key, q + LEAF_NODE_LEFT_SPLIT_COUNT as int)
                    && spec_leaf_value(old(table).pager.pages@[new_page_num as int]@, q)
                    == spec_logical_value(
                    l,
                    at as int,
                    value.spec_bytes(),
                    q + LEAF_NODE_LEFT_SPLIT_COUNT as int,
                ),
        ensures
            final(table).pager.wf(),
            final(table).root_page_num == old(table).root_page_num,
            final(table).pager.num_pages == old(table).pager.num_pages,
            final(table).pager.file_bytes == old(table).pager.file_bytes,
            final(table).pager.file_length == old(table).pager.file_length,
            forall|q: int|
                0 <= q < TABLE_MAX_PAGES && q != page_num && q != new_page_num
                    ==> final(table).pager.page_view(q) == old(table).pager.page_view(q),
            final(table).pager.pages@[page_num as int]@.len() == PAGE_SIZE,
            final(table).pager.pages@[new_page_num as int]@.len() == PAGE_SIZE,
            spec_leaf_split(
                l,
                final(table).pager.pages@[page_num as int]@,
                final(table).pager.pages@[new_page_num as int]@,
                at as int,
                key,
                value.spec_bytes(),
                new_page_num as int,
            ),
            final(table).pager.pages@[page_num as int]@[NODE_TYPE_OFFSET as int]
                == l[NODE_TYPE_OFFSET as int],
            final(table).pager.pages@[page_num as int]@[IS_ROOT_OFFSET as int]
                == l[IS_ROOT_OFFSET as int],
            spec_parent(final(table).pager.pages@[page_num as int]@) == spec_parent(l),
            spec_parent(final(table).pager.pages@[new_page_num as int]@) == spec_parent(l),
    {
        proof {
            lemma_layout_constants();
        }
        let ghost rb = value.spec_bytes();
        // Fix both cell counts to the fixed split shares.
        let ghost o_exit = table.pager.pages@[page_num as int]@;
        let ghost u_exit = table.pager.pages@[new_page_num as int]@;
        set_leaf_node_num_cells(&mut table.pager.pages[page_num], LEAF_NODE_LEFT_SPLIT_COUNT as u32);
        set_leaf_node_num_cells(
            &mut table.pager.pages[new_page_num],
            LEAF_NODE_RIGHT_SPLIT_COUNT as u32,
        );
        proof {
            lemma_layout_constants();
            let o = table.pager.pages@[page_num as int]@;
            let u = table.pager.pages@[new_page_num as int]@;
            assert(o[NODE_TYPE_OFFSET as int] == o_exit[NODE_TYPE_OFFSET as int]);
            assert(o[IS_ROOT_OFFSET as int] == o_exit[IS_ROOT_OFFSET as int]);
            assert(u[NODE_TYPE_OFFSET as int] == u_exit[NODE_TYPE_OFFSET as int]);
            assert(u[IS_ROOT_OFFSET as int] == u_exit[IS_ROOT_OFFSET as int]);
            lemma_u32_at_frame(
                o_exit,
                o,
                LEAF_NODE_NUM_CELLS_OFFSET as int,
                LEAF_NODE_NUM_CELLS_OFFSET as int + 4,
                PARENT_POINTER_OFFSET as int,
            );
            lemma_u32_at_frame(
                o_exit,
                o,
                LEAF_NODE_NUM_CELLS_OFFSET as int,
                LEAF_NODE_NUM_CELLS_OFFSET as int + 4,
                LEAF_NODE_NEXT_LEAF_OFFSET as int,
            );
            lemma_u32_at_frame(
                u_exit,
                u,
                LEAF_NODE_NUM_CELLS_OFFSET as int,
                LEAF_NODE_NUM_CELLS_OFFSET as int + 4,
                PARENT_POINTER_OFFSET as int,
            );
            lemma_u32_at_frame(
                u_exit,
                u,
                LEAF_NODE_NUM_CELLS_OFFSET as int,
                LEAF_NODE_NUM_CELLS_OFFSET as int + 4,
                LEAF_NODE_NEXT_LEAF_OFFSET as int,
            );
            assert forall|q: int|
                0 <= q < LEAF_NODE_LEFT_SPLIT_COUNT implies #[trigger] spec_leaf_key(o, q)
                == spec_logical_key(l, at as int, key, q) && spec_leaf_value(o, q)
                == spec_logical_value(l, at as int, rb, q) by {
                lemma_leaf_cell_off(q);
                lemma_leaf_cell_off(q + 1);
                lemma_u32_at_frame(
                    o_exit,
                    o,
                    LEAF_NODE_NUM_CELLS_OFFSET as int,
                    LEAF_NODE_NUM_CELLS_OFFSET as int + 4,
                    spec_leaf_cell_off(q),
                );
                lemma_range_frame(
                    o_exit,
                    o,
                    LEAF_NODE_NUM_CELLS_OFFSET as int,
                    LEAF_NODE_NUM_CELLS_OFFSET as int + 4,
                    spec_leaf_cell_off(q) + 4,
                    spec_leaf_cell_off(q + 1),
                );
                assert(spec_leaf_key(o_exit, q) == spec_logical_key(l, at as int, key, q));
                assert(spec_leaf_value(o_exit, q) == spec_logical_value(l, at as int, rb, q));
            }
            assert forall|q: int|
                0 <= q < LEAF_NODE_RIGHT_SPLIT_COUNT implies #[trigger] spec_leaf_key(u, q)
                == spec_logical_key(l, at as int, key, q + LEAF_NODE_LEFT_SPLIT_COUNT as int)
                && spec_leaf_value(u, q) == spec_logical_value(
                l,
                at as int,
                rb,
                q + LEAF_NODE_LEFT_SPLIT_COUNT as int,
            ) by {
                lemma_leaf_cell_off(q);
                lemma_leaf_cell_off(q + 1);
                lemma_u32_at_frame(
                    u_exit,
                    u,
                    LEAF_NODE_NUM_CELLS_OFFSET as int,
                    LEAF_NODE_NUM_CELLS_OFFSET as int + 4,
                    spec_leaf_cell_off(q),
                );
                lemma_range_frame(
                    u_exit,
                    u,
                    LEAF_NODE_NUM_CELLS_OFFSET as int,
                    LEAF_NODE_NUM_CELLS_OFFSET as int + 4,
                    spec_leaf_cell_off(q) + 4,
                    spec_leaf_cell_off(q + 1),
                );
                assert(spec_leaf_key(u_exit, q) == spec_logical_key(
                    l,
                    at as int,
                    key,
                    q + LEAF_NODE_LEFT_SPLIT_COUNT as int,
                ));
                assert(spec_leaf_value(u_exit, q) == spec_logical_value(
                    l,
                    at as int,
                    rb,
                    q + LEAF_NODE_LEFT_SPLIT_COUNT as int,
                ));
            }
            assert(spec_leaf_split(l, o, u, at as int, key, rb, new_page_num as int));
            assert forall|q: int|
                0 <= q < TABLE_MAX_PAGES && q != page_num && q != new_page_num
                implies table.pager.page_view(q) == old(table).pager.page_view(q) by {
                assert(table.pager.pages@[q] == old(table).pager.pages@[q]);
            }
        }

    }

    /// Shift the kept cells of the left half one slot right, from the top
    /// of the left share down to the insertion point, and write the new
    /// pair there. Cells below the insertion point already sit in place,
    /// and the sibling page is untouched.
    #[verifier::rlimit(100)]
    #[verifier::spinoff_prover]
    #[verifier::loop_isolation(false)]
    fn split_shift_left(
        table: &mut Table,
        page_num: usize,
        new_page_num: usize,
        at: usize,
        key: u32,
        value: &Row,
        Ghost(l): Ghost<Seq<u8>>,
    )
        requires
            old(table).pager.wf(),
            page_num < TABLE_MAX_PAGES,
            new_page_num < TABLE_MAX_PAGES,
            page_num != new_page_num,
            value.wf(),
            l.len() == PAGE_SIZE,
            spec_is_leaf(l),
            spec_leaf_num_cells(l) == LEAF_NODE_MAX_CELLS,
            at <= LEAF_NODE_MAX_CELLS,
            old(table).pager.pages@[page_num as int]@.len() == PAGE_SIZE,
            old(table).pager.pages@[page_num as int]@[NODE_TYPE_OFFSET as int]
                == l[NODE_TYPE_OFFSET as int],
            old(table).pager.pages@[page_num as int]@[IS_ROOT_OFFSET as int]
                == l[IS_ROOT_OFFSET as int],
            spec_parent(old(table).pager.pages@[page_num as int]@) == spec_parent(l),
            spec_leaf_num_cells(old(table).pager.pages@[page_num as int]@)
                == LEAF_NODE_MAX_CELLS,
            spec_leaf_next(old(table).pager.pages@[page_num as int]@) == new_page_num,
            forall|j: int|
                0 <= j < LEAF_NODE_MAX_CELLS ==> #[trigger] spec_leaf_key(
                    old(table).pager.pages@[page_num as int]@,
                    j,
                ) == spec_leaf_key(l, j) && spec_leaf_value(
                    old(table).pager.pages@[page_num as int]@,
                    j,
                ) == spec_leaf_value(l, j),
        ensures
            final(table).pager.wf(),
            final(table).root_page_num == old(table).root_page_num,
            final(table).pager.num_pages == old(table).pager.num_pages,
            final(table).pager.file_bytes == old(table).pager.file_bytes,
            final(table).pager.file_length == old(table).pager.file_length,
            forall|q: int|
                0 <= q < TABLE_MAX_PAGES && q != page_num ==> final(table).pager.pages@[q]
                    == old(table).pager.pages@[q],
            final(table).pager.pages@[page_num as int]@.len() == PAGE_SIZE,
            final(table).pager.pages@[page_num as int]@[NODE_TYPE_OFFSET as int]
                == l[NODE_TYPE_OFFSET as int],
            final(table).pager.pages@[page_num as int]@[IS_ROOT_OFFSET as int]
                == l[IS_ROOT_OFFSET as int],
            spec_parent(final(table).pager.pages@[page_num as int]@) == spec_parent(l),
            spec_leaf_next(final(table).pager.pages@[page_num as int]@) == new_page_num,
            forall|q: int|
                0 <= q < LEAF_NODE_LEFT_SPLIT_COUNT ==> #[trigger] spec_leaf_key(
                    final(table).pager.pages@[page_num as int]@,
                    q,
                ) == spec_logical_key(l, at as int, key, q) && spec_leaf_value(
                    final(table).pager.pages@[page_num as int]@,
                    q,
                ) == spec_logical_value(l, at as int, value.spec_bytes(), q),
    {
        proof {
            lemma_layout_constants();
        }
        let ghost rb = value.spec_bytes();
        let ghost o0 = table.pager.pages@[page_num as int]@;
        proof {
            assert forall|q: int|
                0 <= q < LEAF_NODE_MAX_CELLS implies #[trigger] spec_leaf_key(o0, q)
                == spec_leaf_key(l, q) && spec_leaf_value(o0, q) == spec_leaf_value(l, q) by {
                assert(spec_leaf_key(old(table).pager.pages@[page_num as int]@, q)
                    == spec_leaf_key(l, q));
                assert(spec_leaf_value(old(table).pager.pages@[page_num as int]@, q)
                    == spec_leaf_value(l, q));
            }
        }
        // Build the left half in a scratch buffer read from the page, so
        // every copy reads the untouched source page.
        let mut scratch = crate::buf::read_bytes(&table.pager.pages[page_num], 0, PAGE_SIZE);
        proof {
            assert(scratch@ =~= o0);
        }
        let mut q: usize = 0;
        while q < LEAF_NODE_LEFT_SPLIT_COUNT
            invariant
                q <= LEAF_NODE_LEFT_SPLIT_COUNT,
                scratch@.len() == PAGE_SIZE,
                table.pager.pages@[page_num as int]@ == o0,
                scratch@[NODE_TYPE_OFFSET as int] == o0[NODE_TYPE_OFFSET as int],
                scratch@[IS_ROOT_OFFSET as int] == o0[IS_ROOT_OFFSET as int],
                spec_parent(scratch@) == spec_parent(o0),
                spec_leaf_num_cells(scratch@) == spec_leaf_num_cells(o0),
                spec_leaf_next(scratch@) == spec_leaf_next(o0),
                forall|p: int|
                    0 <= p < q ==> #[trigger] spec_leaf_key(scratch@, p) == spec_logical_key(
                        l,
                        at as int,
                        key,
                        p,
                    ),
                forall|p: int|
                    0 <= p < q ==> #[trigger] spec_leaf_value(scratch@, p)
                        == spec_logical_value(l, at as int, rb, p),
                forall|p: int|
                    q <= p < LEAF_NODE_MAX_CELLS ==> #[trigger] spec_leaf_key(scratch@, p)
                        == spec_leaf_key(o0, p),
                forall|p: int|
                    q <= p < LEAF_NODE_MAX_CELLS ==> #[trigger] spec_leaf_value(scratch@, p)
                        == spec_leaf_value(o0, p),
            decreases LEAF_NODE_LEFT_SPLIT_COUNT - q,
        {
            proof {
                lemma_layout_constants();
            }
            let ghost s_pre = scratch@;
            if q < at {
                // the cell already holds its logical value
            } else if q == at {
                set_leaf_node_cell(&mut scratch, q, key, value);
            } else {
                let cell = read_leaf_cell(&table.pager.pages[page_num], q - 1);
                write_leaf_cell(&mut scratch, q, &cell);
                proof {
                    assert(spec_leaf_key(o0, q as int - 1) == spec_leaf_key(l, q as int - 1));
                    assert(spec_leaf_value(o0, q as int - 1) == spec_leaf_value(
                        l,
                        q as int - 1,
                    ));
                }
            }
            proof {
                let s = scratch@;
                let qi = q as int;
                if q < at {
                    assert(s == s_pre);
                    assert(spec_leaf_key(s, qi) == spec_leaf_key(o0, qi));
                    assert(spec_leaf_key(o0, qi) == spec_leaf_key(l, qi));
                    assert(spec_leaf_value(s, qi) == spec_leaf_value(o0, qi));
                    assert(spec_leaf_value(o0, qi) == spec_leaf_value(l, qi));
                }
                assert(spec_leaf_key(s, qi) == spec_logical_key(l, at as int, key, qi));
                assert(spec_leaf_value(s, qi) == spec_logical_value(l, at as int, rb, qi));
                assert(bytes_eq_except(
                    s_pre,
                    s,
                    spec_leaf_cell_off(qi),
                    spec_leaf_cell_off(qi + 1),
                ));
                lemma_scratch_step(s_pre, s, o0, l, at as int, key, rb, qi);
            }
            q = q + 1;
        }
        // Install the rebuilt left half.
        crate::buf::write_bytes_at(&mut table.pager.pages[page_num], 0, &scratch);
        proof {
            lemma_layout_constants();
            let o = table.pager.pages@[page_num as int]@;
            assert(o =~= scratch@);
            assert forall|p: int|
                0 <= p < LEAF_NODE_LEFT_SPLIT_COUNT implies #[trigger] spec_leaf_key(o, p)
                == spec_logical_key(l, at as int, key, p) && spec_leaf_value(o, p)
                == spec_logical_value(l, at as int, value.spec_bytes(), p) by {
                assert(spec_leaf_key(scratch@, p) == spec_logical_key(l, at as int, key, p));
                assert(spec_leaf_value(scratch@, p) == spec_logical_value(l, at as int, rb, p));
            }
            assert forall|z: int|
                0 <= z < TABLE_MAX_PAGES implies (#[trigger] table.pager.pages@[z]@.len() == 0
                || table.pager.pages@[z]@.len() == PAGE_SIZE) by {
                if z != page_num {
                    assert(table.pager.pages@[z] == old(table).pager.pages@[z]);
                }
            }
            assert forall|z: int|
                0 <= z < TABLE_MAX_PAGES && #[trigger] table.pager.pages@[z]@.len() == PAGE_SIZE
                implies z < table.pager.num_pages by {
                if z != page_num {
                    assert(table.pager.pages@[z] == old(table).pager.pages@[z]);
                }
            }
            assert(table.pager.wf());
        }
    }

    /// Redistribute the logical cells of full leaf `l` (with (`key`,
    /// `value`) inserted at `at`) between the old page (left half) and the
    /// freshly initialized sibling page (right half), then set both cell
    /// counts to the fixed split shares. Pure in-memory cell movement.
    #[verifier::rlimit(100)]
    #[verifier::spinoff_prover]
    #[verifier::loop_isolation(false)]
    fn split_redistribute(
        table: &mut Table,
        page_num: usize,
        new_page_num: usize,
        at: usize,
        key: u32,
        value: &Row,
        Ghost(l): Ghost<Seq<u8>>,
    )
        requires
            old(table).pager.wf(),
            page_num < TABLE_MAX_PAGES,
            new_page_num < TABLE_MAX_PAGES,
            page_num != new_page_num,
            value.wf(),
            l.len() == PAGE_SIZE,
            spec_is_leaf(l),
            spec_leaf_num_cells(l) == LEAF_NODE_MAX_CELLS,
            at <= LEAF_NODE_MAX_CELLS,
            old(table).pager.pages@[page_num as int]@.len() == PAGE_SIZE,
            old(table).pager.pages@[new_page_num as int]@.len() == PAGE_SIZE,
            old(table).pager.pages@[page_num as int]@[NODE_TYPE_OFFSET as int]
                == l[NODE_TYPE_OFFSET as int],
            old(table).pager.pages@[page_num as int]@[IS_ROOT_OFFSET as int]
                == l[IS_ROOT_OFFSET as int],
            spec_parent(old(table).pager.pages@[page_num as int]@) == spec_parent(l),
            spec_leaf_num_cells(old(table).pager.pages@[page_num as int]@)
                == LEAF_NODE_MAX_CELLS,
            spec_leaf_next(old(table).pager.pages@[page_num as int]@) == new_page_num,
            spec_is_leaf(old(table).pager.pages@[new_page_num as int]@),
            !spec_is_root(old(table).pager.pages@[new_page_num as int]@),
            spec_parent(old(table).pager.pages@[new_page_num as int]@) == spec_parent(l),
            spec_leaf_num_cells(old(table).pager.pages@[new_page_num as int]@) == 0,
            spec_leaf_next(old(table).pager.pages@[new_page_num as int]@) == spec_leaf_next(l),
            forall|j: int|
                0 <= j < LEAF_NODE_MAX_CELLS ==> #[trigger] spec_leaf_key(
                    old(table).pager.pages@[page_num as int]@,
                    j,
                ) == spec_leaf_key(l, j) && spec_leaf_value(
                    old(table).pager.pages@[page_num as int]@,
                    j,
                ) == spec_leaf_value(l, j),
        ensures
            final(table).pager.wf(),
            final(table).root_page_num == old(table).root_page_num,
            final(table).pager.num_pages == old(table).pager.num_pages,
            final(table).pager.file_bytes == old(table).pager.file_bytes,
            final(table).pager.file_length == old(table).pager.file_length,
            forall|q: int|
                0 <= q < TABLE_MAX_PAGES && q != page_num && q != new_page_num
                    ==> final(table).pager.page_view(q) == old(table).pager.page_view(q),
            final(table).pager.pages@[page_num as int]@.len() == PAGE_SIZE,
            final(table).pager.pages@[new_page_num as int]@.len() == PAGE_SIZE,
            spec_leaf_split(
                l,
                final(table).pager.pages@[page_num as int]@,
                final(table).pager.pages@[new_page_num as int]@,
                at as int,
                key,
                value.spec_bytes(),
                new_page_num as int,
            ),
            final(table).pager.pages@[page_num as int]@[NODE_TYPE_OFFSET as int]
                == l[NODE_TYPE_OFFSET as int],
            final(table).pager.pages@[page_num as int]@[IS_ROOT_OFFSET as int]
                == l[IS_ROOT_OFFSET as int],
            spec_parent(final(table).pager.pages@[page_num as int]@) == spec_parent(l),
            spec_parent(final(table).pager.pages@[new_page_num as int]@) == spec_parent(l),
    {
        proof {
            lemma_layout_constants();
        }
        let ghost t0 = *old(table);
        let ghost rb = value.spec_bytes();
        // Right half: logical cells from the left share upward move into
        // the fresh sibling; the source page is not touched yet.
        let mut jd: usize = 0;
        while jd < LEAF_NODE_RIGHT_SPLIT_COUNT
            invariant
                jd <= LEAF_NODE_RIGHT_SPLIT_COUNT,
                at <= LEAF_NODE_MAX_CELLS,
                value.wf(),
                rb == value.spec_bytes(),
                l.len() == PAGE_SIZE,
                spec_leaf_num_cells(l) == LEAF_NODE_MAX_CELLS,
                page_num < TABLE_MAX_PAGES,
                new_page_num < TABLE_MAX_PAGES,
                page_num != new_page_num,
                table.pager.wf(),
                table.root_page_num == t0.root_page_num,
                table.pager.num_pages == t0.pager.num_pages,
                table.pager.file_bytes == t0.pager.file_bytes,
                table.pager.file_length == t0.pager.file_length,
                forall|q: int|
                    0 <= q < TABLE_MAX_PAGES && q != new_page_num ==> table.pager.pages@[q]
                        == t0.pager.pages@[q],
                table.pager.pages@[new_page_num as int]@.len() == PAGE_SIZE,
                spec_is_leaf(table.pager.pages@[new_page_num as int]@),
                !spec_is_root(table.pager.pages@[new_page_num as int]@),
                spec_parent(table.pager.pages@[new_page_num as int]@) == spec_parent(l),
                spec_leaf_num_cells(table.pager.pages@[new_page_num as int]@) == 0,
                spec_leaf_next(table.pager.pages@[new_page_num as int]@) == spec_leaf_next(l),
                forall|d: int|
                    0 <= d < jd ==> #[trigger] spec_leaf_key(
                        table.pager.pages@[new_page_num as int]@,
                        d,
                    ) == spec_logical_key(l, at as int, key, d + LEAF_NODE_LEFT_SPLIT_COUNT as int)
                        && spec_leaf_value(table.pager.pages@[new_page_num as int]@, d)
                        == spec_logical_value(
                        l,
                        at as int,
                        rb,
                        d + LEAF_NODE_LEFT_SPLIT_COUNT as int,
                    ),
            decreases LEAF_NODE_RIGHT_SPLIT_COUNT - jd,
        {
            proof {
                lemma_layout_constants();
            }
            let j = jd + LEAF_NODE_LEFT_SPLIT_COUNT;
            let ghost u_pre = table.pager.pages@[new_page_num as int]@;
            if j == at {
                set_leaf_node_cell(&mut table.pager.pages[new_page_num], jd, key, value);
            } else if j > at {
                let cell = read_leaf_cell(&table.pager.pages[page_num], j - 1);
                write_leaf_cell(&mut table.pager.pages[new_page_num], jd, &cell);
                proof {
                    assert(table.pager.pages@[page_num as int]
                        == old(table).pager.pages@[page_num as int]);
                    assert(spec_leaf_key(old(table).pager.pages@[page_num as int]@, j as int - 1)
                        == spec_leaf_key(l, j as int - 1));
                    assert(spec_leaf_value(old(table).pager.pages@[page_num as int]@, j as int - 1)
                        == spec_leaf_value(l, j as int - 1));
                }
            } else {
                let cell = read_leaf_cell(&table.pager.pages[page_num], j);
                write_leaf_cell(&mut table.pager.pages[new_page_num], jd, &cell);
                proof {
                    assert(table.pager.pages@[page_num as int]
                        == old(table).pager.pages@[page_num as int]);
                    assert(spec_leaf_key(old(table).pager.pages@[page_num as int]@, j as int)
                        == spec_leaf_key(l, j as int));
                    assert(spec_leaf_value(old(table).pager.pages@[page_num as int]@, j as int)
                        == spec_leaf_value(l, j as int));
                }
            }
            proof {
                let u = table.pager.pages@[new_page_num as int]@;
                let jdi = jd as int;
                lemma_u32_at_frame(
                    u_pre,
                    u,
                    spec_leaf_cell_off(jdi),
                    spec_leaf_cell_off(jdi + 1),
                    PARENT_POINTER_OFFSET as int,
                );
                lemma_u32_at_frame(
                    u_pre,
                    u,
                    spec_leaf_cell_off(jdi),
                    spec_leaf_cell_off(jdi + 1),
                    LEAF_NODE_NUM_CELLS_OFFSET as int,
                );
                lemma_u32_at_frame(
                    u_pre,
                    u,
                    spec_leaf_cell_off(jdi),
                    spec_leaf_cell_off(jdi + 1),
                    LEAF_NODE_NEXT_LEAF_OFFSET as int,
                );
                assert(spec_leaf_key(u, jdi) == spec_logical_key(
                    l,
                    at as int,
                    key,
                    jdi + LEAF_NODE_LEFT_SPLIT_COUNT as int,
                ));
                assert(spec_leaf_value(u, jdi) == spec_logical_value(
                    l,
                    at as int,
                    rb,
                    jdi + LEAF_NODE_LEFT_SPLIT_COUNT as int,
                ));
                assert forall|d: int|
                    0 <= d < jdi implies #[trigger] spec_leaf_key(u, d) == spec_logical_key(
                    l,
                    at as int,
                    key,
                    d + LEAF_NODE_LEFT_SPLIT_COUNT as int,
                ) && spec_leaf_value(u, d) == spec_logical_value(
                    l,
                    at as int,
                    rb,
                    d + LEAF_NODE_LEFT_SPLIT_COUNT as int,
                ) by {
                    lemma_leaf_cell_off(d);
                    lemma_leaf_cell_off(d + 1);
                    lemma_u32_at_frame(
                        u_pre,
                        u,
                        spec_leaf_cell_off(jdi),
                        spec_leaf_cell_off(jdi + 1),
                        spec_leaf_cell_off(d),
                    );
                    lemma_range_frame(
                        u_pre,
                        u,
                        spec_leaf_cell_off(jdi),
                        spec_leaf_cell_off(jdi + 1),
                        spec_leaf_cell_off(d) + 4,
                        spec_leaf_cell_off(d + 1),
                    );
                    assert(spec_leaf_key(u_pre, d) == spec_logical_key(
                        l,
                        at as int,
                        key,
                        d + LEAF_NODE_LEFT_SPLIT_COUNT as int,
                    ));
                    assert(spec_leaf_value(u_pre, d) == spec_logical_value(
                        l,
                        at as int,
                        rb,
                        d + LEAF_NODE_LEFT_SPLIT_COUNT as int,
                    ));
                }
            }
            jd = jd + 1;
        }
        let ghost g_shift = *table;
        Cursor::split_shift_left(table, page_num, new_page_num, at, key, value, Ghost(l));
        proof {
            assert(table.pager.pages@[new_page_num as int]
                == g_shift.pager.pages@[new_page_num as int]);
        }
        let ghost g_mid = *table;
        Cursor::split_finalize(table, page_num, new_page_num, at, key, value, Ghost(l));
        proof {
            assert forall|q: int|
                0 <= q < TABLE_MAX_PAGES && q != page_num && q != new_page_num
                implies table.pager.page_view(q) == t0.pager.page_view(q) by {
                assert(table.pager.page_view(q) == g_mid.pager.page_view(q));
                assert(g_mid.pager.pages@[q] == t0.pager.pages@[q]);
            }
        }
    }

    /// After a root leaf has been split in place (left half on the root
    /// page, right half on the fresh sibling), grow the tree: the root page
    /// becomes an internal node over the two halves.
    #[verifier::rlimit(100)]
    #[verifier::spinoff_prover]
    fn split_grow_root(
        table: &mut Table,
        new_page_num: usize,
        key: u32,
        value: &Row,
        Ghost(t0): Ghost<Table>,
        Ghost(c): Ghost<Cursor>,
    ) -> (r: DbResult<()>)
        requires
            t0.wf(),
            spec_is_leaf(t0.root()),
            c.page_num == t0.root_page_num,
            c.cell_num <= LEAF_NODE_MAX_CELLS,
            value.wf(),
            spec_leaf_num_cells(t0.root()) == LEAF_NODE_MAX_CELLS,
            new_page_num == t0.pager.num_pages,
            new_page_num < TABLE_MAX_PAGES,
            old(table).pager.wf(),
            old(table).root_page_num == t0.root_page_num,
            old(table).pager.num_pages == t0.pager.num_pages + 1,
            old(table).pager.file_bytes == t0.pager.file_bytes,
            old(table).pager.file_length == t0.pager.file_length,
            forall|q: int|
                0 <= q < TABLE_MAX_PAGES && q != 0 && q != new_page_num ==> old(
                    table,
                ).pager.page_view(q) == t0.pager.page_view(q),
            old(table).pager.pages@[0]@.len() == PAGE_SIZE,
            old(table).pager.pages@[new_page_num as int]@.len() == PAGE_SIZE,
            spec_leaf_split(
                t0.root(),
                old(table).pager.pages@[0]@,
                old(table).pager.pages@[new_page_num as int]@,
                c.cell_num as int,
                key,
                value.spec_bytes(),
                new_page_num as int,
            ),
            old(table).pager.pages@[0]@[NODE_TYPE_OFFSET as int] == t0.root()[NODE_TYPE_OFFSET as int],
            old(table).pager.pages@[0]@[IS_ROOT_OFFSET as int] == t0.root()[IS_ROOT_OFFSET as int],
            spec_parent(old(table).pager.pages@[0]@) == spec_parent(t0.root()),
            spec_parent(old(table).pager.pages@[new_page_num as int]@) == spec_parent(t0.root()),
        ensures
            final(table).root_page_num == old(table).root_page_num,
            final(table).pager.wf(),
            final(table).pager.file_bytes == old(table).pager.file_bytes,
            final(table).pager.file_length == old(table).pager.file_length,
            r is Ok <==> t0.pager.num_pages + 1 < TABLE_MAX_PAGES,
            r is Err ==> r->Err_0 is PageOutOfBounds,
            r is Ok ==> spec_split_outcome(t0, *final(table), c, key, *value),
    {
        proof {
            lemma_layout_constants();
        }
        let ghost l = t0.root();
        let ghost at = c.cell_num as int;
        let ghost rb = value.spec_bytes();
        let ghost ov = table.pager.pages@[0]@;
        let ghost uv = table.pager.pages@[new_page_num as int]@;
        let page_num: usize = 0;
        proof {
            assert(spec_leaf_num_cells(ov) == LEAF_NODE_LEFT_SPLIT_COUNT);
            assert(spec_is_leaf(ov));
        }
            let r = table.create_new_root(new_page_num);
            if r.is_err() {
                return r;
            }
            proof {
                lemma_layout_constants();
                let left_page = new_page_num as int + 1;
                let lv = table.pager.page_view(left_page);
                let rv = table.pager.page_view(new_page_num as int);
                table.pager.lemma_page_view_len(left_page);
                table.pager.lemma_page_view_len(new_page_num as int);
                table.pager.lemma_page_view_len(0);
                assert(spec_leaf_split(l, ov, uv, at, key, rb, new_page_num as int));
                // the left copy shows the same leaf fields as the split page did
                assert(lv[NODE_TYPE_OFFSET as int] == ov[NODE_TYPE_OFFSET as int]);
                assert(lv.subrange(
                    LEAF_NODE_NUM_CELLS_OFFSET as int,
                    LEAF_NODE_NUM_CELLS_OFFSET as int + 4,
                ) =~= ov.subrange(
                    LEAF_NODE_NUM_CELLS_OFFSET as int,
                    LEAF_NODE_NUM_CELLS_OFFSET as int + 4,
                ));
                assert(lv.subrange(
                    LEAF_NODE_NEXT_LEAF_OFFSET as int,
                    LEAF_NODE_NEXT_LEAF_OFFSET as int + 4,
                ) =~= ov.subrange(
                    LEAF_NODE_NEXT_LEAF_OFFSET as int,
                    LEAF_NODE_NEXT_LEAF_OFFSET as int + 4,
                ));
                assert(spec_leaf_num_cells(lv) == spec_leaf_num_cells(ov));
                assert(spec_leaf_next(lv) == spec_leaf_next(ov));
                assert forall|j: int|
                    0 <= j < LEAF_NODE_LEFT_SPLIT_COUNT implies #[trigger] spec_leaf_key(lv, j)
                    == spec_logical_key(l, at, key, j) && spec_leaf_value(lv, j)
                    == spec_logical_value(l, at, rb, j) by {
                    lemma_leaf_cell_off(j);
                    lemma_leaf_cell_off(j + 1);
                    assert(lv.subrange(spec_leaf_cell_off(j), spec_leaf_cell_off(j) + 4)
                        =~= ov.subrange(spec_leaf_cell_off(j), spec_leaf_cell_off(j) + 4));
                    assert(lv.subrange(
                        spec_leaf_cell_off(j) + 4,
                        spec_leaf_cell_off(j + 1),
                    ) =~= ov.subrange(spec_leaf_cell_off(j) + 4, spec_leaf_cell_off(j + 1)));
                    assert(spec_leaf_key(ov, j) == spec_logical_key(l, at, key, j));
                    assert(spec_leaf_value(ov, j) == spec_logical_value(l, at, rb, j));
                }
                // the right leaf only had its parent pointer rewritten
                assert(rv[NODE_TYPE_OFFSET as int] == uv[NODE_TYPE_OFFSET as int]);
                assert(rv[IS_ROOT_OFFSET as int] == uv[IS_ROOT_OFFSET as int]);
                lemma_u32_at_frame(
                    uv,
                    rv,
                    PARENT_POINTER_OFFSET as int,
                    PARENT_POINTER_OFFSET as int + 4,
                    LEAF_NODE_NUM_CELLS_OFFSET as int,
                );
                lemma_u32_at_frame(
                    uv,
                    rv,
                    PARENT_POINTER_OFFSET as int,
                    PARENT_POINTER_OFFSET as int + 4,
                    LEAF_NODE_NEXT_LEAF_OFFSET as int,
                );
                assert forall|j: int|
                    0 <= j < LEAF_NODE_RIGHT_SPLIT_COUNT implies #[trigger] spec_leaf_key(rv, j)
                    == spec_logical_key(l, at, key, j + LEAF_NODE_LEFT_SPLIT_COUNT as int)
                    && spec_leaf_value(rv, j) == spec_logical_value(
                    l,
                    at,
                    rb,
                    j + LEAF_NODE_LEFT_SPLIT_COUNT as int,
                ) by {
                    lemma_leaf_cell_off(j);
                    lemma_leaf_cell_off(j + 1);
                    lemma_u32_at_frame(
                        uv,
                        rv,
                        PARENT_POINTER_OFFSET as int,
                        PARENT_POINTER_OFFSET as int + 4,
                        spec_leaf_cell_off(j),
                    );
                    lemma_range_frame(
                        uv,
                        rv,
                        PARENT_POINTER_OFFSET as int,
                        PARENT_POINTER_OFFSET as int + 4,
                        spec_leaf_cell_off(j) + 4,
                        spec_leaf_cell_off(j + 1),
                    );
                    assert(spec_leaf_key(uv, j) == spec_logical_key(
                        l,
                        at,
                        key,
                        j + LEAF_NODE_LEFT_SPLIT_COUNT as int,
                    ));
                    assert(spec_leaf_value(uv, j) == spec_logical_value(
                        l,
                        at,
                        rb,
                        j + LEAF_NODE_LEFT_SPLIT_COUNT as int,
                    ));
                }
                assert(spec_leaf_split(l, lv, rv, at, key, rb, new_page_num as int));
                assert(spec_node_max_key(ov) == spec_logical_key(
                    l,
                    at,
                    key,
                    LEAF_NODE_LEFT_SPLIT_COUNT as int - 1,
                ));
                assert(spec_split_outcome(t0, *table, c, key, *value));
            }
            Ok(())
    }

    /// After a leaf under the internal root has been split (left half in
    /// place, right half on the fresh sibling), propagate the change into
    /// the parent: lower the left half's separator to its new greatest key
    /// and splice the right half in keyed by its own greatest key.
    #[verifier::rlimit(100)]
    #[verifier::spinoff_prover]
    fn split_update_parent(
        table: &mut Table,
        page_num: usize,
        new_page_num: usize,
        key: u32,
        value: &Row,
        old_max: u32,
        Ghost(t0): Ghost<Table>,
        Ghost(c): Ghost<Cursor>,
    ) -> (r: DbResult<()>)
        requires
            t0.wf(),
            !spec_is_leaf(t0.root()),
            page_num == c.page_num,
            spec_cursor_finds(t0, c, key),
            c.cell_num < spec_leaf_num_cells(t0.pager.page_view(c.page_num as int))
                ==> spec_leaf_key(
                t0.pager.page_view(c.page_num as int),
                c.cell_num as int,
            ) > key,
            value.wf(),
            spec_leaf_num_cells(t0.pager.page_view(c.page_num as int)) == LEAF_NODE_MAX_CELLS,
            old_max == spec_node_max_key(t0.pager.page_view(c.page_num as int)),
            new_page_num == t0.pager.num_pages,
            new_page_num < TABLE_MAX_PAGES,
            old(table).pager.wf(),
            old(table).root_page_num == t0.root_page_num,
            old(table).pager.num_pages == t0.pager.num_pages + 1,
            old(table).pager.file_bytes == t0.pager.file_bytes,
            old(table).pager.file_length == t0.pager.file_length,
            forall|q: int|
                0 <= q < TABLE_MAX_PAGES && q != c.page_num && q != new_page_num ==> old(
                    table,
                ).pager.page_view(q) == t0.pager.page_view(q),
            old(table).pager.pages@[c.page_num as int]@.len() == PAGE_SIZE,
            old(table).pager.pages@[new_page_num as int]@.len() == PAGE_SIZE,
            spec_leaf_split(
                t0.pager.page_view(c.page_num as int),
                old(table).pager.pages@[c.page_num as int]@,
                old(table).pager.pages@[new_page_num as int]@,
                c.cell_num as int,
                key,
                value.spec_bytes(),
                new_page_num as int,
            ),
            old(table).pager.pages@[c.page_num as int]@[NODE_TYPE_OFFSET as int]
                == t0.pager.page_view(c.page_num as int)[NODE_TYPE_OFFSET as int],
            old(table).pager.pages@[c.page_num as int]@[IS_ROOT_OFFSET as int]
                == t0.pager.page_view(c.page_num as int)[IS_ROOT_OFFSET as int],
            spec_parent(old(table).pager.pages@[c.page_num as int]@) == spec_parent(
                t0.pager.page_view(c.page_num as int),
            ),
            spec_parent(old(table).pager.pages@[new_page_num as int]@) == spec_parent(
                t0.pager.page_view(c.page_num as int),
            ),
        ensures
            final(table).root_page_num == old(table).root_page_num,
            final(table).pager.wf(),
            final(table).pager.file_bytes == old(table).pager.file_bytes,
            final(table).pager.file_length == old(table).pager.file_length,
            r is Ok <==> spec_internal_num_keys(t0.root()) < INTERNAL_NODE_MAX_CELLS,
            r is Err ==> r->Err_0 is UnimplementedInternalSplit,
            r is Err ==> spec_split_stranded(t0, *final(table), c, key, *value),
            r is Ok ==> spec_split_outcome(t0, *final(table), c, key, *value),
    {
        proof {
            lemma_layout_constants();
        }
        let ghost l = t0.pager.page_view(c.page_num as int);
        let ghost at = c.cell_num as int;
        let ghost rb = value.spec_bytes();
        let ghost ov = table.pager.pages@[c.page_num as int]@;
        let ghost uv = table.pager.pages@[new_page_num as int]@;
        proof {
            // the split leaf carries no root flag, so the root is internal
            if spec_is_leaf(t0.root()) {
                assert(c.page_num == t0.root_page_num);
                assert(spec_is_root(l));
                assert(false);
            }
        }
        let ghost ci = choose|ci: int|
            {
                &&& 0 <= ci < t0.child_count()
                &&& c.page_num == #[trigger] t0.child_page(ci)
                &&& (forall|j: int| 0 <= j < ci ==> spec_internal_key(t0.root(), j) < key)
                &&& (ci < spec_internal_num_keys(t0.root()) ==> spec_internal_key(
                    t0.root(),
                    ci,
                ) >= key)
            };
        proof {
            assert(t0.child(ci) == l);
            assert(spec_parent(l) == t0.root_page_num);
            assert(spec_parent(ov) == spec_parent(l));
            assert(0 < c.page_num);
            assert(table.pager.page_view(0) == t0.root());
        }
        let parent_page_num = node_parent(&table.pager.pages[page_num]) as usize;
        let new_max = get_node_max_key(&table.pager.pages[page_num]);
        proof {
            assert(parent_page_num == 0);
            assert(new_max == spec_leaf_key(ov, LEAF_NODE_LEFT_SPLIT_COUNT as int - 1));
            assert(new_max == spec_logical_key(
                l,
                at,
                key,
                LEAF_NODE_LEFT_SPLIT_COUNT as int - 1,
            ));
            assert(old_max == spec_node_max_key(l));
        }
        if let Err(e) = table.pager.get_page(parent_page_num) {
            return Err(e);
        }
        let ghost g3 = *table;
        proof {
            assert(g3.pager.pages@[0]@ == t0.root());
        }
        update_internal_node_key(
            &mut table.pager.pages[parent_page_num],
            old_max,
            new_max,
        );
        let ghost mid = table.pager.pages@[0]@;
        proof {
            lemma_layout_constants();
            assert(exists|w: int|
                spec_internal_key_updated(t0.root(), mid, old_max, new_max, w));
            let w = choose|w: int|
                spec_internal_key_updated(t0.root(), mid, old_max, new_max, w);
            lemma_parent_after_key_update(
                t0,
                page_num as int,
                ci,
                at,
                key,
                mid,
                w,
            );
            // the cache is still sound and no other page moved
            assert forall|q: int|
                0 <= q < TABLE_MAX_PAGES implies (#[trigger] table.pager.pages@[q]@.len()
                == 0 || table.pager.pages@[q]@.len() == PAGE_SIZE) by {
                if q != 0 {
                    assert(table.pager.pages@[q] == g3.pager.pages@[q]);
                }
            }
            assert forall|q: int|
                0 <= q < TABLE_MAX_PAGES && #[trigger] table.pager.pages@[q]@.len()
                == PAGE_SIZE implies q < table.pager.num_pages by {
                if q != 0 {
                    assert(table.pager.pages@[q] == g3.pager.pages@[q]);
                }
            }
            assert(table.pager.wf());
            assert forall|q: int|
                0 <= q < TABLE_MAX_PAGES && q != 0 implies table.pager.page_view(q)
                == g3.pager.page_view(q) by {
                assert(table.pager.pages@[q] == g3.pager.pages@[q]);
            }
            // the two fresh leaves kept their contents through the parent work
            assert(old(table).pager.pages@[page_num as int]@ == ov);
            assert(old(table).pager.page_view(page_num as int) == ov);
            assert(old(table).pager.pages@[new_page_num as int]@ == uv);
            assert(old(table).pager.page_view(new_page_num as int) == uv);
            assert(g3.pager.page_view(page_num as int) == old(table).pager.page_view(
                page_num as int,
            ));
            assert(g3.pager.page_view(new_page_num as int) == old(table).pager.page_view(
                new_page_num as int,
            ));
            assert(table.pager.page_view(page_num as int) == g3.pager.page_view(
                page_num as int,
            ));
            assert(table.pager.page_view(page_num as int) == ov);
            assert(table.pager.page_view(new_page_num as int) == uv);
            assert(spec_leaf_split(l, ov, uv, at, key, rb, new_page_num as int));
            // the right-child requirements of the parent insertion
            let rc = spec_internal_right_child(mid) as int;
            assert(rc == t0.child_page(spec_internal_num_keys(t0.root()) as int));
            assert(0 < rc < t0.pager.num_pages);
            if rc == page_num {
                assert(node_has_max_key(table.pager.page_view(rc)));
            } else {
                assert(table.pager.page_view(rc) == t0.child(
                    spec_internal_num_keys(t0.root()) as int,
                ));
                assert(node_has_max_key(table.pager.page_view(rc)));
            }
        }
        let ghost g4 = *table;
        proof {
            assert(table.pager.page_view(0) == mid);
            assert(g4.pager.page_view(page_num as int) == ov);
            assert(g4.pager.page_view(new_page_num as int) == uv);
        }
        let r = table.internal_node_insert(parent_page_num, new_page_num);
        proof {
            assert forall|q: int|
                0 <= q < TABLE_MAX_PAGES && q != 0 implies table.pager.page_view(q) == old(
                table,
            ).pager.page_view(q) by {
                assert(table.pager.page_view(q) == g4.pager.page_view(q));
                assert(g4.pager.page_view(q) == g3.pager.page_view(q));
                assert(g3.pager.page_view(q) == old(table).pager.page_view(q));
            }
        }
        if r.is_err() {
            proof {
                assert(spec_internal_num_keys(mid) == spec_internal_num_keys(t0.root()));
                // the halves stay exactly as the redistribution left them
                assert(c.page_num != 0);
                assert(new_page_num != 0);
                assert(table.pager.page_view(c.page_num as int) == old(table).pager.page_view(
                    c.page_num as int,
                ));
                assert(table.pager.page_view(new_page_num as int) == old(table).pager.page_view(
                    new_page_num as int,
                ));
                assert(old(table).pager.page_view(c.page_num as int) == old(
                    table,
                ).pager.pages@[c.page_num as int]@);
                assert(old(table).pager.page_view(new_page_num as int) == old(
                    table,
                ).pager.pages@[new_page_num as int]@);
                assert(spec_split_stranded(t0, *table, c, key, *value));
            }
            return r;
        }
        proof {
            lemma_layout_constants();
            assert(spec_node_max_key(uv) == spec_logical_key(
                l,
                at,
                key,
                LEAF_NODE_MAX_CELLS as int,
            ));
            assert(table.pager.page_view(page_num as int) == g4.pager.page_view(
                page_num as int,
            ));
            assert(table.pager.page_view(page_num as int) == ov);
            assert(table.pager.page_view(new_page_num as int) == uv);
            let w = choose|w: int|
                spec_internal_key_updated(t0.root(), mid, old_max, new_max, w);
            assert(spec_internal_key_updated(
                t0.root(),
                mid,
                spec_node_max_key(l),
                spec_logical_key(l, at, key, LEAF_NODE_LEFT_SPLIT_COUNT as int - 1),
                w,
            ));
            let ckv = spec_node_max_key(uv);
            let rcv = spec_internal_right_child(mid) as int;
            let rmax = spec_node_max_key(g4.pager.page_view(rcv));
            if ckv <= rmax {
                assert(exists|s: int|
                    spec_internal_spliced(
                        mid,
                        table.pager.page_view(0),
                        ckv,
                        new_page_num as int,
                        s,
                    ));
                let s = choose|s: int|
                    spec_internal_spliced(
                        mid,
                        table.pager.page_view(0),
                        ckv,
                        new_page_num as int,
                        s,
                    );
                assert(spec_internal_spliced(
                    mid,
                    table.pager.page_view(0),
                    spec_logical_key(l, at, key, LEAF_NODE_MAX_CELLS as int),
                    new_page_num as int,
                    s,
                ));
            } else {
                // the split child was the rightmost child: its page,
                // now holding the left half, is demoted under the left
                // half's greatest key
                assert(spec_internal_appended(
                    mid,
                    table.pager.page_view(0),
                    rmax,
                    new_page_num as int,
                ));
                if ci < spec_internal_num_keys(t0.root()) {
                    // a child left of the rightmost cannot out-key it
                    let nk = spec_internal_num_keys(t0.root()) as int;
                    assert(t0.child_page(nk) != t0.child_page(ci));
                    assert(rcv == t0.child_page(nk));
                    assert(g4.pager.page_view(rcv) == t0.child(nk));
                    assert(1 <= spec_leaf_num_cells(t0.child(nk)));
                    assert(spec_leaf_key(t0.child(nk), spec_leaf_num_cells(t0.child(nk)) as int - 1)
                        > spec_internal_key(t0.root(), nk - 1));
                    assert(rmax == spec_node_max_key(t0.child(nk)));
                    assert(spec_internal_key(t0.root(), ci) == spec_node_max_key(t0.child(ci)));
                    assert(spec_internal_key(t0.root(), ci) <= spec_internal_key(
                        t0.root(),
                        nk - 1,
                    ));
                    lemma_logical_keys_sorted(l, at, key);
                    if at == LEAF_NODE_MAX_CELLS {
                        assert(ckv == key);
                    } else {
                        assert(ckv == spec_leaf_key(l, LEAF_NODE_MAX_CELLS as int - 1)
                            || ckv == key);
                    }
                    assert(ckv <= spec_internal_key(t0.root(), ci));
                    assert(false);
                }
                assert(ci == spec_internal_num_keys(t0.root()));
                assert(rcv == t0.child_page(ci));
                assert(rcv == page_num);
                assert(g4.pager.page_view(rcv) == ov);
                assert(rmax == spec_node_max_key(ov));
                assert(rmax == spec_logical_key(
                    l,
                    at,
                    key,
                    LEAF_NODE_LEFT_SPLIT_COUNT as int - 1,
                ));
                assert(spec_internal_appended(
                    mid,
                    table.pager.page_view(0),
                    spec_logical_key(l, at, key, LEAF_NODE_LEFT_SPLIT_COUNT as int - 1),
                    new_page_num as int,
                ));
            }
            // the two leaves were untouched by the parent work
            assert(table.pager.page_view(page_num as int) == ov);
            assert(table.pager.page_view(new_page_num as int) == uv);
            assert(spec_leaf_split(
                l,
                table.pager.page_view(page_num as int),
                table.pager.page_view(new_page_num as int),
                at,
                key,
                rb,
                new_page_num as int,
            ));
            // the branch taken matches the rightmost child's greatest key
            let nk = spec_internal_num_keys(t0.root()) as int;
            let rcp = t0.child_page(nk);
            assert(rcv == rcp);
            if rcp == c.page_num {
                assert(g4.pager.page_view(rcv) == ov);
                assert(table.pager.page_view(c.page_num as int) == ov);
            } else {
                assert(g4.pager.page_view(rcv) == t0.pager.page_view(rcp));
            }
            let ckx = spec_logical_key(l, at, key, LEAF_NODE_MAX_CELLS as int);
            let rleafx = if rcp == c.page_num {
                table.pager.page_view(c.page_num as int)
            } else {
                t0.pager.page_view(rcp)
            };
            assert(ckx == ckv);
            assert(spec_node_max_key(rleafx) == rmax);
            assert(table.root_page_num == 0);
            assert(table.pager.page_view(0) == (*table).root());
            assert(spec_parent_growth(t0, *table, c, key, mid, w));
        }
        Ok(())
    }

    /// Split a full leaf around an insertion: allocate a fresh page as the
    /// right sibling, redistribute the logical cells evenly (left half to
    /// the old page, right half to the new one), then grow the root when
    /// the split leaf was the root, or propagate the two new maxima into
    /// the parent. The parent at capacity reports the unimplemented
    /// internal split, a known design limit; at that point the two halves
    /// and their sibling links are already written and only the parent was
    /// not updated, as the error-case contract states.
    #[verifier::rlimit(100)]
    #[verifier::spinoff_prover]
    pub fn leaf_node_split_and_insert(&self, table: &mut Table, key: u32, value: &Row) -> (r:
        DbResult<()>)
        requires
            old(table).wf(),
            spec_cursor_finds(*old(table), *self, key),
            value.wf(),
            spec_leaf_num_cells(old(table).pager.page_view(self.page_num as int))
                == LEAF_NODE_MAX_CELLS,
            self.cell_num < spec_leaf_num_cells(
                old(table).pager.page_view(self.page_num as int),
            ) ==> spec_leaf_key(
                old(table).pager.page_view(self.page_num as int),
                self.cell_num as int,
            ) > key,
        ensures
            final(table).root_page_num == old(table).root_page_num,
            final(table).pager.wf(),
            final(table).pager.file_bytes == old(table).pager.file_bytes,
            final(table).pager.file_length == old(table).pager.file_length,
            spec_is_leaf(old(table).root()) ==> (r is Ok <==> old(table).pager.num_pages + 1
                < TABLE_MAX_PAGES),
            !spec_is_leaf(old(table).root()) ==> (r is Ok <==> (old(table).pager.num_pages
                < TABLE_MAX_PAGES && spec_internal_num_keys(old(table).root())
                < INTERNAL_NODE_MAX_CELLS)),
            r is Ok ==> spec_split_outcome(*old(table), *final(table), *self, key, *value),
            r is Err && spec_is_leaf(old(table).root()) ==> r->Err_0 is PageOutOfBounds,
            r is Err && !spec_is_leaf(old(table).root()) && old(table).pager.num_pages
                >= TABLE_MAX_PAGES ==> r->Err_0 is PageOutOfBounds,
            r is Err && !spec_is_leaf(old(table).root()) && old(table).pager.num_pages
                < TABLE_MAX_PAGES ==> r->Err_0 is UnimplementedInternalSplit,
            r is Err && r->Err_0 is UnimplementedInternalSplit ==> spec_split_stranded(
                *old(table),
                *final(table),
                *self,
                key,
                *value,
            ),
            r is Err && old(table).pager.num_pages >= TABLE_MAX_PAGES ==> old(table).same_state(
                *final(table),
            ),
    {
        proof {
            lemma_layout_constants();
        }
        let ghost t0 = *old(table);
        let ghost l = old(table).pager.page_view(self.page_num as int);
        let ghost at = self.cell_num as int;
        let ghost rb = value.spec_bytes();
        let page_num = self.page_num;
        if let Err(e) = table.pager.get_page(page_num) {
            return Err(e);
        }
        let old_max = get_node_max_key(&table.pager.pages[page_num]);
        let new_page_num = table.pager.get_unused_page_num();
        if new_page_num >= TABLE_MAX_PAGES {
            return Err(DbError::PageOutOfBounds);
        }
        if let Err(e) = table.pager.get_page(new_page_num) {
            return Err(e);
        }
        // Splice the new leaf immediately to the old leaf's right.
        let ghost g1 = *table;
        let parent_of_old = node_parent(&table.pager.pages[page_num]);
        let next_of_old = leaf_node_next_leaf(&table.pager.pages[page_num]);
        proof {
            assert(table.pager.pages@[page_num as int]@ == l);
            assert(parent_of_old == spec_parent(l));
            assert(next_of_old == spec_leaf_next(l));
        }
        initialize_leaf_node(&mut table.pager.pages[new_page_num]);
        let ghost u0 = table.pager.pages@[new_page_num as int]@;
        set_node_parent(&mut table.pager.pages[new_page_num], parent_of_old);
        let ghost u1 = table.pager.pages@[new_page_num as int]@;
        set_leaf_node_next_leaf(&mut table.pager.pages[new_page_num], next_of_old);
        let ghost u2 = table.pager.pages@[new_page_num as int]@;
        set_leaf_node_next_leaf(&mut table.pager.pages[page_num], new_page_num as u32);
        proof {
            lemma_layout_constants();
            let o1 = table.pager.pages@[page_num as int]@;
            // the fresh leaf's header: kind and flag bytes, then each field
            assert(u1[NODE_TYPE_OFFSET as int] == u0[NODE_TYPE_OFFSET as int]);
            assert(u1[IS_ROOT_OFFSET as int] == u0[IS_ROOT_OFFSET as int]);
            lemma_u32_at_frame(
                u0,
                u1,
                PARENT_POINTER_OFFSET as int,
                PARENT_POINTER_OFFSET as int + 4,
                LEAF_NODE_NUM_CELLS_OFFSET as int,
            );
            assert(u2[NODE_TYPE_OFFSET as int] == u1[NODE_TYPE_OFFSET as int]);
            assert(u2[IS_ROOT_OFFSET as int] == u1[IS_ROOT_OFFSET as int]);
            lemma_u32_at_frame(
                u1,
                u2,
                LEAF_NODE_NEXT_LEAF_OFFSET as int,
                LEAF_NODE_NEXT_LEAF_OFFSET as int + 4,
                PARENT_POINTER_OFFSET as int,
            );
            lemma_u32_at_frame(
                u1,
                u2,
                LEAF_NODE_NEXT_LEAF_OFFSET as int,
                LEAF_NODE_NEXT_LEAF_OFFSET as int + 4,
                LEAF_NODE_NUM_CELLS_OFFSET as int,
            );
            // the old leaf keeps everything but its sibling pointer
            assert(o1[NODE_TYPE_OFFSET as int] == l[NODE_TYPE_OFFSET as int]);
            assert(o1[IS_ROOT_OFFSET as int] == l[IS_ROOT_OFFSET as int]);
            lemma_u32_at_frame(
                l,
                o1,
                LEAF_NODE_NEXT_LEAF_OFFSET as int,
                LEAF_NODE_NEXT_LEAF_OFFSET as int + 4,
                PARENT_POINTER_OFFSET as int,
            );
            lemma_u32_at_frame(
                l,
                o1,
                LEAF_NODE_NEXT_LEAF_OFFSET as int,
                LEAF_NODE_NEXT_LEAF_OFFSET as int + 4,
                LEAF_NODE_NUM_CELLS_OFFSET as int,
            );
            assert forall|j: int|
                0 <= j < LEAF_NODE_MAX_CELLS implies #[trigger] spec_leaf_key(o1, j)
                == spec_leaf_key(l, j) && spec_leaf_value(o1, j) == spec_leaf_value(l, j) by {
                lemma_leaf_cell_off(j);
                lemma_leaf_cell_off(j + 1);
                lemma_u32_at_frame(
                    l,
                    o1,
                    LEAF_NODE_NEXT_LEAF_OFFSET as int,
                    LEAF_NODE_NEXT_LEAF_OFFSET as int + 4,
                    spec_leaf_cell_off(j),
                );
                lemma_range_frame(
                    l,
                    o1,
                    LEAF_NODE_NEXT_LEAF_OFFSET as int,
                    LEAF_NODE_NEXT_LEAF_OFFSET as int + 4,
                    spec_leaf_cell_off(j) + 4,
                    spec_leaf_cell_off(j + 1),
                );
            }
            // every other page is untouched
            assert forall|q: int|
                0 <= q < TABLE_MAX_PAGES && q != page_num && q != new_page_num
                implies table.pager.page_view(q) == t0.pager.page_view(q) by {
                assert(table.pager.pages@[q] == g1.pager.pages@[q]);
                assert(table.pager.page_view(q) == g1.pager.page_view(q));
            }
        }
        Cursor::split_redistribute(
            table,
            page_num,
            new_page_num,
            self.cell_num,
            key,
            value,
            Ghost(l),
        );
        proof {
            assert(spec_leaf_split(
                l,
                table.pager.pages@[page_num as int]@,
                table.pager.pages@[new_page_num as int]@,
                at,
                key,
                rb,
                new_page_num as int,
            ));
        }
        let ghost t2 = *table;
        let ghost t2 = *table;
        let ghost ov = table.pager.pages@[page_num as int]@;
        let ghost uv = table.pager.pages@[new_page_num as int]@;
        let is_root_split = is_node_root(&table.pager.pages[page_num]);
        if is_root_split {
            proof {
                // a root-flagged split leaf means the root itself was a leaf
                assert(spec_is_root(l));
                if !spec_is_leaf(t0.root()) {
                    let ci = choose|ci: int|
                        {
                            &&& 0 <= ci < t0.child_count()
                            &&& self.page_num == #[trigger] t0.child_page(ci)
                            &&& (forall|j: int|
                                0 <= j < ci ==> spec_internal_key(t0.root(), j) < key)
                            &&& (ci < spec_internal_num_keys(t0.root()) ==> spec_internal_key(
                                t0.root(),
                                ci,
                            ) >= key)
                        };
                    assert(!spec_is_root(t0.child(ci)));
                    assert(false);
                }
                assert(page_num == 0);
            }
            Cursor::split_grow_root(table, new_page_num, key, value, Ghost(t0), Ghost(*self))
        } else {
            proof {
                // the split leaf carries no root flag, so the root is internal
                if spec_is_leaf(t0.root()) {
                    assert(self.page_num == t0.root_page_num);
                    assert(spec_is_root(l));
                    assert(false);
                }
            }
            Cursor::split_update_parent(
                table,
                page_num,
                new_page_num,
                key,
                value,
                old_max,
                Ghost(t0),
                Ghost(*self),
            )
        }
    }

    /// Insert (`key`, `value`) at the cursor's position: shift the cells at
    /// and after it one slot right and write the new pair, or split the
    /// leaf when it is already at capacity. When the split cannot be
    /// propagated into a parent already at capacity, the unimplemented
    /// internal split is reported with the halves already in place, as
    /// `spec_split_stranded` states.
    #[verifier::rlimit(100)]
    #[verifier::spinoff_prover]
    pub fn leaf_node_insert(&self, table: &mut Table, key: u32, value: &Row) -> (r: DbResult<()>)
        requires
            old(table).wf(),
            spec_cursor_finds(*old(table), *self, key),
            value.wf(),
            self.cell_num < spec_leaf_num_cells(
                old(table).pager.page_view(self.page_num as int),
            ) ==> spec_leaf_key(
                old(table).pager.page_view(self.page_num as int),
                self.cell_num as int,
            ) > key,
        ensures
            final(table).root_page_num == old(table).root_page_num,
            final(table).pager.wf(),
            final(table).pager.file_bytes == old(table).pager.file_bytes,
            final(table).pager.file_length == old(table).pager.file_length,
            r is Ok ==> final(table).wf(),
            ({
                let l = old(table).pager.page_view(self.page_num as int);
                let full = spec_leaf_num_cells(l) == LEAF_NODE_MAX_CELLS;
                &&& (!full ==> r is Ok && final(table).pager.num_pages == old(
                    table,
                ).pager.num_pages && spec_leaf_inserted(
                    l,
                    final(table).pager.page_view(self.page_num as int),
                    self.cell_num as int,
                    key,
                    value.spec_bytes(),
                ) && (forall|q: int|
                    0 <= q < TABLE_MAX_PAGES && q != self.page_num
                        ==> final(table).pager.page_view(q) == old(table).pager.page_view(q)))
                &&& (full && spec_is_leaf(old(table).root()) ==> (r is Ok <==> old(
                    table,
                ).pager.num_pages + 1 < TABLE_MAX_PAGES))
                &&& (full && !spec_is_leaf(old(table).root()) ==> (r is Ok <==> (old(
                    table,
                ).pager.num_pages < TABLE_MAX_PAGES && spec_internal_num_keys(old(table).root())
                    < INTERNAL_NODE_MAX_CELLS)))
                &&& (full && r is Ok ==> spec_split_outcome(
                    *old(table),
                    *final(table),
                    *self,
                    key,
                    *value,
                ))
                &&& (r is Err && spec_is_leaf(old(table).root())
                    ==> r->Err_0 is PageOutOfBounds)
                &&& (r is Err && !spec_is_leaf(old(table).root()) && old(table).pager.num_pages
                    >= TABLE_MAX_PAGES ==> r->Err_0 is PageOutOfBounds)
                &&& (r is Err && !spec_is_leaf(old(table).root()) && old(table).pager.num_pages
                    < TABLE_MAX_PAGES ==> r->Err_0 is UnimplementedInternalSplit)
                &&& (r is Err && r->Err_0 is UnimplementedInternalSplit
                    ==> spec_split_stranded(*old(table), *final(table), *self, key, *value))
            }),
    {
        proof {
            lemma_layout_constants();
        }
        let ghost l = old(table).pager.page_view(self.page_num as int);
        let page_num = self.page_num;
        if let Err(e) = table.pager.get_page(page_num) {
            return Err(e);
        }
        let num_cells = leaf_node_num_cells(&table.pager.pages[page_num]);
        if num_cells as usize >= LEAF_NODE_MAX_CELLS {
            // Node full
            proof {
                Table::lemma_same_state_wf(*old(table), *table);
                assert((*table).same_state(*old(table)));
                lemma_same_state_finds(*table, *old(table), *self, key);
            }
            let ghost mid = *table;
            let r = self.leaf_node_split_and_insert(table, key, value);
            proof {
                if r is Err && r->Err_0 is UnimplementedInternalSplit {
                    assert(spec_split_stranded(mid, *table, *self, key, *value));
                    assert(old(table).pager.page_view(self.page_num as int) == mid.pager.page_view(
                        self.page_num as int,
                    ));
                    assert(spec_split_stranded(*old(table), *table, *self, key, *value));
                }
                if r is Ok {
                    assert(spec_split_outcome(mid, *table, *self, key, *value));
                    assert(old(table).root() == mid.root());
                    assert(old(table).pager.page_view(self.page_num as int) == mid.pager.page_view(
                        self.page_num as int,
                    ));
                    if !spec_is_leaf(old(table).root()) {
                        let (m, w): (Seq<u8>, int) = choose|m: Seq<u8>, w: int|
                            spec_parent_growth(mid, *table, *self, key, m, w);
                        assert(old(table).child_page(
                            spec_internal_num_keys(old(table).root()) as int,
                        ) == mid.child_page(spec_internal_num_keys(mid.root()) as int));
                        assert(spec_parent_growth(*old(table), *table, *self, key, m, w));
                    }
                    assert(spec_split_outcome(*old(table), *table, *self, key, *value));
                    if spec_is_leaf(old(table).root()) {
                        lemma_root_split_keeps_wf(*old(table), *table, *self, key, *value);
                    } else {
                        lemma_child_split_keeps_wf(*old(table), *table, *self, key, *value);
                    }
                    assert(table.wf());
                }
            }
            return r;
        }
        let at = self.cell_num;
        let ghost o0 = table.pager.pages@[page_num as int]@;
        proof {
            assert(o0 == l);
        }
        // Make room for the new cell, high to low.
        let mut d: usize = num_cells as usize;
        while d > at
            invariant
                at <= d <= num_cells,
                num_cells == spec_leaf_num_cells(l),
                num_cells < LEAF_NODE_MAX_CELLS,
                at == self.cell_num,
                at <= num_cells,
                value.wf(),
                l.len() == PAGE_SIZE,
                page_num == self.page_num,
                page_num < TABLE_MAX_PAGES,
                table.pager.wf(),
                table.root_page_num == old(table).root_page_num,
                table.pager.num_pages == old(table).pager.num_pages,
                table.pager.file_bytes == old(table).pager.file_bytes,
                table.pager.file_length == old(table).pager.file_length,
                forall|q: int|
                    0 <= q < TABLE_MAX_PAGES && q != page_num ==> table.pager.page_view(q)
                        == old(table).pager.page_view(q),
                table.pager.pages@[page_num as int]@.len() == PAGE_SIZE,
                table.pager.pages@[page_num as int]@[NODE_TYPE_OFFSET as int]
                    == l[NODE_TYPE_OFFSET as int],
                table.pager.pages@[page_num as int]@[IS_ROOT_OFFSET as int]
                    == l[IS_ROOT_OFFSET as int],
                spec_parent(table.pager.pages@[page_num as int]@) == spec_parent(l),
                spec_leaf_num_cells(table.pager.pages@[page_num as int]@)
                    == spec_leaf_num_cells(l),
                spec_leaf_next(table.pager.pages@[page_num as int]@) == spec_leaf_next(l),
                forall|p: int|
                    0 <= p < d ==> #[trigger] spec_leaf_key(
                        table.pager.pages@[page_num as int]@,
                        p,
                    ) == spec_leaf_key(l, p),
                forall|p: int|
                    0 <= p < d ==> #[trigger] spec_leaf_value(
                        table.pager.pages@[page_num as int]@,
                        p,
                    ) == spec_leaf_value(l, p),
                forall|p: int|
                    d < p <= num_cells ==> #[trigger] spec_leaf_key(
                        table.pager.pages@[page_num as int]@,
                        p,
                    ) == spec_leaf_key(l, p - 1),
                forall|p: int|
                    d < p <= num_cells ==> #[trigger] spec_leaf_value(
                        table.pager.pages@[page_num as int]@,
                        p,
                    ) == spec_leaf_value(l, p - 1),
            decreases d,
        {
            proof {
                lemma_layout_constants();
            }
            let ghost entry = *table;
            let ghost s_pre = table.pager.pages@[page_num as int]@;
            copy_leaf_node_cell(&mut table.pager.pages[page_num], d, d - 1);
            proof {
                let s = table.pager.pages@[page_num as int]@;
                let di = d as int;
                lemma_u32_at_frame(
                    s_pre,
                    s,
                    spec_leaf_cell_off(di),
                    spec_leaf_cell_off(di + 1),
                    PARENT_POINTER_OFFSET as int,
                );
                lemma_u32_at_frame(
                    s_pre,
                    s,
                    spec_leaf_cell_off(di),
                    spec_leaf_cell_off(di + 1),
                    LEAF_NODE_NUM_CELLS_OFFSET as int,
                );
                lemma_u32_at_frame(
                    s_pre,
                    s,
                    spec_leaf_cell_off(di),
                    spec_leaf_cell_off(di + 1),
                    LEAF_NODE_NEXT_LEAF_OFFSET as int,
                );
                assert forall|p: int|
                    0 <= p < LEAF_NODE_MAX_CELLS && p != di implies #[trigger] spec_leaf_key(
                    s,
                    p,
                ) == spec_leaf_key(s_pre, p) by {
                    lemma_leaf_cell_off(p);
                    lemma_leaf_cell_off(p + 1);
                    lemma_leaf_cell_off(di);
                    lemma_leaf_cell_off(di + 1);
                    lemma_u32_at_frame(
                        s_pre,
                        s,
                        spec_leaf_cell_off(di),
                        spec_leaf_cell_off(di + 1),
                        spec_leaf_cell_off(p),
                    );
                }
                assert forall|p: int|
                    0 <= p < LEAF_NODE_MAX_CELLS && p != di implies #[trigger] spec_leaf_value(
                    s,
                    p,
                ) == spec_leaf_value(s_pre, p) by {
                    lemma_leaf_cell_off(p);
                    lemma_leaf_cell_off(p + 1);
                    lemma_leaf_cell_off(di);
                    lemma_leaf_cell_off(di + 1);
                    lemma_range_frame(
                        s_pre,
                        s,
                        spec_leaf_cell_off(di),
                        spec_leaf_cell_off(di + 1),
                        spec_leaf_cell_off(p) + 4,
                        spec_leaf_cell_off(p + 1),
                    );
                }
                assert(spec_leaf_key(s, di) == spec_leaf_key(s_pre, di - 1));
                assert(spec_leaf_key(s_pre, di - 1) == spec_leaf_key(l, di - 1));
                assert(spec_leaf_value(s, di) == spec_leaf_value(s_pre, di - 1));
                assert(spec_leaf_value(s_pre, di - 1) == spec_leaf_value(l, di - 1));
                assert forall|q: int|
                    0 <= q < TABLE_MAX_PAGES implies (#[trigger] table.pager.pages@[q]@.len()
                    == 0 || table.pager.pages@[q]@.len() == PAGE_SIZE) by {
                    if q != page_num {
                        assert(table.pager.pages@[q] == entry.pager.pages@[q]);
                    }
                }
                assert forall|q: int|
                    0 <= q < TABLE_MAX_PAGES && #[trigger] table.pager.pages@[q]@.len()
                    == PAGE_SIZE implies q < table.pager.num_pages by {
                    if q != page_num {
                        assert(table.pager.pages@[q] == entry.pager.pages@[q]);
                    }
                }
                assert forall|q: int|
                    0 <= q < TABLE_MAX_PAGES && q != page_num implies table.pager.page_view(q)
                    == old(table).pager.page_view(q) by {
                    assert(table.pager.pages@[q] == entry.pager.pages@[q]);
                    assert(table.pager.page_view(q) == entry.pager.page_view(q));
                }
            }
            d = d - 1;
        }
        let ghost g2 = *table;
        let ghost s1 = table.pager.pages@[page_num as int]@;
        set_leaf_node_cell(&mut table.pager.pages[page_num], at, key, value);
        let ghost s2 = table.pager.pages@[page_num as int]@;
        set_leaf_node_num_cells(&mut table.pager.pages[page_num], num_cells + 1);
        proof {
            lemma_layout_constants();
            let f = table.pager.pages@[page_num as int]@;
            let ati = at as int;
            let n = spec_leaf_num_cells(l) as int;
            lemma_u32_at_frame(
                s1,
                s2,
                spec_leaf_cell_off(ati),
                spec_leaf_cell_off(ati + 1),
                PARENT_POINTER_OFFSET as int,
            );
            lemma_u32_at_frame(
                s1,
                s2,
                spec_leaf_cell_off(ati),
                spec_leaf_cell_off(ati + 1),
                LEAF_NODE_NEXT_LEAF_OFFSET as int,
            );
            lemma_u32_at_frame(
                s2,
                f,
                LEAF_NODE_NUM_CELLS_OFFSET as int,
                LEAF_NODE_NUM_CELLS_OFFSET as int + 4,
                PARENT_POINTER_OFFSET as int,
            );
            lemma_u32_at_frame(
                s2,
                f,
                LEAF_NODE_NUM_CELLS_OFFSET as int,
                LEAF_NODE_NUM_CELLS_OFFSET as int + 4,
                LEAF_NODE_NEXT_LEAF_OFFSET as int,
            );
            lemma_u32_at_frame(
                s2,
                f,
                LEAF_NODE_NUM_CELLS_OFFSET as int,
                LEAF_NODE_NUM_CELLS_OFFSET as int + 4,
                spec_leaf_cell_off(ati),
            );
            lemma_range_frame(
                s2,
                f,
                LEAF_NODE_NUM_CELLS_OFFSET as int,
                LEAF_NODE_NUM_CELLS_OFFSET as int + 4,
                spec_leaf_cell_off(ati) + 4,
                spec_leaf_cell_off(ati + 1),
            );
            assert(spec_leaf_key(f, ati) == key);
            assert(spec_leaf_value(f, ati) == value.spec_bytes());
            assert forall|p: int|
                0 <= p < ati implies #[trigger] spec_leaf_key(f, p) == spec_leaf_key(l, p)
                && spec_leaf_value(f, p) == spec_leaf_value(l, p) by {
                lemma_leaf_cell_off(p);
                lemma_leaf_cell_off(p + 1);
                lemma_leaf_cell_off(ati);
                lemma_leaf_cell_off(ati + 1);
                lemma_u32_at_frame(
                    s1,
                    s2,
                    spec_leaf_cell_off(ati),
                    spec_leaf_cell_off(ati + 1),
                    spec_leaf_cell_off(p),
                );
                lemma_range_frame(
                    s1,
                    s2,
                    spec_leaf_cell_off(ati),
                    spec_leaf_cell_off(ati + 1),
                    spec_leaf_cell_off(p) + 4,
                    spec_leaf_cell_off(p + 1),
                );
                lemma_u32_at_frame(
                    s2,
                    f,
                    LEAF_NODE_NUM_CELLS_OFFSET as int,
                    LEAF_NODE_NUM_CELLS_OFFSET as int + 4,
                    spec_leaf_cell_off(p),
                );
                lemma_range_frame(
                    s2,
                    f,
                    LEAF_NODE_NUM_CELLS_OFFSET as int,
                    LEAF_NODE_NUM_CELLS_OFFSET as int + 4,
                    spec_leaf_cell_off(p) + 4,
                    spec_leaf_cell_off(p + 1),
                );
                assert(spec_leaf_key(s1, p) == spec_leaf_key(l, p));
                assert(spec_leaf_value(s1, p) == spec_leaf_value(l, p));
            }
            assert forall|p: int|
                ati < p <= n implies #[trigger] spec_leaf_key(f, p) == spec_leaf_key(l, p - 1)
                && spec_leaf_value(f, p) == spec_leaf_value(l, p - 1) by {
                lemma_leaf_cell_off(p);
                lemma_leaf_cell_off(p + 1);
                lemma_leaf_cell_off(ati);
                lemma_leaf_cell_off(ati + 1);
                lemma_u32_at_frame(
                    s1,
                    s2,
                    spec_leaf_cell_off(ati),
                    spec_leaf_cell_off(ati + 1),
                    spec_leaf_cell_off(p),
                );
                lemma_range_frame(
                    s1,
                    s2,
                    spec_leaf_cell_off(ati),
                    spec_leaf_cell_off(ati + 1),
                    spec_leaf_cell_off(p) + 4,
                    spec_leaf_cell_off(p + 1),
                );
                lemma_u32_at_frame(
                    s2,
                    f,
                    LEAF_NODE_NUM_CELLS_OFFSET as int,
                    LEAF_NODE_NUM_CELLS_OFFSET as int + 4,
                    spec_leaf_cell_off(p),
                );
                lemma_range_frame(
                    s2,
                    f,
                    LEAF_NODE_NUM_CELLS_OFFSET as int,
                    LEAF_NODE_NUM_CELLS_OFFSET as int + 4,
                    spec_leaf_cell_off(p) + 4,
                    spec_leaf_cell_off(p + 1),
                );
                assert(spec_leaf_key(s1, p) == spec_leaf_key(l, p - 1));
                assert(spec_leaf_value(s1, p) == spec_leaf_value(l, p - 1));
            }
            assert(spec_leaf_inserted(
                l,
                f,
                ati,
                key,
                value.spec_bytes(),
            ));
            assert forall|q: int|
                0 <= q < TABLE_MAX_PAGES implies (#[trigger] table.pager.pages@[q]@.len() == 0
                || table.pager.pages@[q]@.len() == PAGE_SIZE) by {
                if q != page_num {
                    assert(table.pager.pages@[q] == g2.pager.pages@[q]);
                }
            }
            assert forall|q: int|
                0 <= q < TABLE_MAX_PAGES && #[trigger] table.pager.pages@[q]@.len() == PAGE_SIZE
                implies q < table.pager.num_pages by {
                if q != page_num {
                    assert(table.pager.pages@[q] == g2.pager.pages@[q]);
                }
            }
            assert(table.pager.wf());
            assert forall|q: int|
                0 <= q < TABLE_MAX_PAGES && q != page_num implies table.pager.page_view(q)
                == old(table).pager.page_view(q) by {
                assert(table.pager.pages@[q] == g2.pager.pages@[q]);
                assert(table.pager.page_view(q) == g2.pager.page_view(q));
            }
            lemma_insert_keeps_wf(*old(table), *table, *self, key, value.spec_bytes());
            assert(table.wf());
        }
        Ok(())
    }

    /// The serialized record under the cursor.
    pub fn cursor_value(&self, table: &mut Table) -> (r: DbResult<Vec<u8>>)
        requires
            old(table).pager.wf(),
            self.page_num < old(table).pager.num_pages,
            self.cell_num < LEAF_NODE_MAX_CELLS,
        ensures
            old(table).same_state(*final(table)),
            r is Ok,
            r->Ok_0@ == spec_leaf_value(
                old(table).pager.page_view(self.page_num as int),
                self.cell_num as int,
            ),
    {
        let page_num = self.page_num;
        if let Err(e) = table.pager.get_page(page_num) {
            return Err(e);
        }
        Ok(leaf_node_value(&table.pager.pages[page_num], self.cell_num))
    }

    /// Step to the next record: the next cell of this leaf, the first cell
    /// of the right sibling, or end of table past the rightmost leaf.
    pub fn cursor_advance(&mut self, table: &mut Table) -> (r: DbResult<()>)
        requires
            old(table).pager.wf(),
            old(self).page_num < old(table).pager.num_pages,
            old(self).cell_num < LEAF_NODE_MAX_CELLS,
        ensures
            old(table).same_state(*final(table)),
            r is Ok,
            ({
                let l = old(table).pager.page_view(old(self).page_num as int);
                let n = spec_leaf_num_cells(l) as int;
                let next = spec_leaf_next(l) as int;
                &&& (old(self).cell_num + 1 < n ==> *final(self) == (Cursor {
                    cell_num: (old(self).cell_num + 1) as usize,
                    ..*old(self)
                }))
                &&& (old(self).cell_num + 1 >= n && next == 0 ==> *final(self) == (Cursor {
                    cell_num: (old(self).cell_num + 1) as usize,
                    end_of_table: true,
                    ..*old(self)
                }))
                &&& (old(self).cell_num + 1 >= n && next != 0 ==> *final(self) == (Cursor {
                    page_num: next as usize,
                    cell_num: 0,
                    ..*old(self)
                }))
            }),
    {
        let page_num = self.page_num;
        if let Err(e) = table.pager.get_page(page_num) {
            return Err(e);
        }
        let node = &table.pager.pages[page_num];
        let num_cells = leaf_node_num_cells(node);
        self.cell_num = self.cell_num + 1;
        if self.cell_num >= num_cells as usize {
            let next_page_num = leaf_node_next_leaf(node);
            if next_page_num == 0 {
                self.end_of_table = true;
            } else {
                self.page_num = next_page_num as usize;
                self.cell_num = 0;
            }
        }
        Ok(())
    }
}

} // verus!
