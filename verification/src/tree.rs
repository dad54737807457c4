//! Node codec: the fixed binary layout of leaf and internal nodes inside a
//! page, with typed, bounds-checked readers and writers over the page's raw
//! bytes. Pure layout logic; no page cache access.

use crate::buf::{
    bytes_eq_except, lemma_range_frame, lemma_u32_at_frame, read_bytes, read_u32_at, u32_at,
    write_u32_at,
};
use crate::error::{DbError, DbResult};
use crate::row::{Row, ROW_SIZE};
use crate::PAGE_SIZE;
use vstd::prelude::*;

verus! {

/// Node kind stored in the one-byte discriminator of every node.
#[derive(PartialEq, Eq, Structural, Clone, Copy, Debug)]
pub enum NodeType {
    NodeInternal,
    NodeLeaf,
}

// Common node header layout.
pub const NODE_TYPE_SIZE: usize = 1;

pub const NODE_TYPE_OFFSET: usize = 0;

pub const IS_ROOT_SIZE: usize = 1;

pub const IS_ROOT_OFFSET: usize = NODE_TYPE_SIZE;

pub const PARENT_POINTER_SIZE: usize = 4;

pub const PARENT_POINTER_OFFSET: usize = IS_ROOT_OFFSET + IS_ROOT_SIZE;

pub const COMMON_NODE_HEADER_SIZE: usize = NODE_TYPE_SIZE + IS_ROOT_SIZE + PARENT_POINTER_SIZE;

// Internal node header layout.
pub const INTERNAL_NODE_NUM_KEYS_SIZE: usize = 4;

pub const INTERNAL_NODE_NUM_KEYS_OFFSET: usize = COMMON_NODE_HEADER_SIZE;

pub const INTERNAL_NODE_RIGHT_CHILD_SIZE: usize = 4;

pub const INTERNAL_NODE_RIGHT_CHILD_OFFSET: usize = INTERNAL_NODE_NUM_KEYS_OFFSET
    + INTERNAL_NODE_NUM_KEYS_SIZE;

pub const INTERNAL_NODE_HEADER_SIZE: usize = COMMON_NODE_HEADER_SIZE + INTERNAL_NODE_NUM_KEYS_SIZE
    + INTERNAL_NODE_RIGHT_CHILD_SIZE;

// Internal node body layout.
pub const INTERNAL_NODE_KEY_SIZE: usize = 4;

pub const INTERNAL_NODE_CHILD_SIZE: usize = 4;

pub const INTERNAL_NODE_CELL_SIZE: usize = INTERNAL_NODE_CHILD_SIZE + INTERNAL_NODE_KEY_SIZE;

/// Kept intentionally tiny so that splitting logic is exercised early.
pub const INTERNAL_NODE_MAX_CELLS: usize = 3;

// Leaf node header layout.
pub const LEAF_NODE_NUM_CELLS_SIZE: usize = 4;

pub const LEAF_NODE_NUM_CELLS_OFFSET: usize = COMMON_NODE_HEADER_SIZE;

pub const LEAF_NODE_NEXT_LEAF_SIZE: usize = 4;

pub const LEAF_NODE_NEXT_LEAF_OFFSET: usize = LEAF_NODE_NUM_CELLS_OFFSET
    + LEAF_NODE_NUM_CELLS_SIZE;

pub const LEAF_NODE_HEADER_SIZE: usize = COMMON_NODE_HEADER_SIZE + LEAF_NODE_NUM_CELLS_SIZE
    + LEAF_NODE_NEXT_LEAF_SIZE;

// Leaf node body layout.
pub const LEAF_NODE_KEY_SIZE: usize = 4;

pub const LEAF_NODE_KEY_OFFSET: usize = 0;

pub const LEAF_NODE_VALUE_SIZE: usize = ROW_SIZE;

pub const LEAF_NODE_VALUE_OFFSET: usize = LEAF_NODE_KEY_OFFSET + LEAF_NODE_KEY_SIZE;

pub const LEAF_NODE_CELL_SIZE: usize = LEAF_NODE_KEY_SIZE + LEAF_NODE_VALUE_SIZE;

pub const LEAF_NODE_SPACE_FOR_CELLS: usize = PAGE_SIZE - LEAF_NODE_HEADER_SIZE;

/// Leaf capacity, derived from the fixed record width.
pub const LEAF_NODE_MAX_CELLS: usize = LEAF_NODE_SPACE_FOR_CELLS / LEAF_NODE_CELL_SIZE;

pub const LEAF_NODE_RIGHT_SPLIT_COUNT: usize = (LEAF_NODE_MAX_CELLS + 1) / 2;

/// Cells assigned to the left (old) node by a split: the larger or equal half.
pub const LEAF_NODE_LEFT_SPLIT_COUNT: usize = (LEAF_NODE_MAX_CELLS + 1)
    - LEAF_NODE_RIGHT_SPLIT_COUNT;

/// The layout constants evaluated: every offset computation below multiplies
/// a cell index by one of these, and the solver needs their literal values.
pub proof fn lemma_layout_constants()
    ensures
        COMMON_NODE_HEADER_SIZE == 6,
        LEAF_NODE_HEADER_SIZE == 14,
        LEAF_NODE_CELL_SIZE == 297,
        LEAF_NODE_VALUE_SIZE == 293,
        LEAF_NODE_MAX_CELLS == 13,
        LEAF_NODE_LEFT_SPLIT_COUNT == 7,
        LEAF_NODE_RIGHT_SPLIT_COUNT == 7,
        INTERNAL_NODE_HEADER_SIZE == 14,
        INTERNAL_NODE_CELL_SIZE == 8,
        ROW_SIZE == 293,
{
    assert(LEAF_NODE_SPACE_FOR_CELLS == 4082);
    assert(LEAF_NODE_CELL_SIZE == 297);
    assert(LEAF_NODE_MAX_CELLS == 4082usize / 297);
    assert(LEAF_NODE_RIGHT_SPLIT_COUNT == 14usize / 2);
    assert(LEAF_NODE_LEFT_SPLIT_COUNT == 14usize - 7);
}

/// The byte offset of leaf cell `i`, written out.
pub proof fn lemma_leaf_cell_off(i: int)
    ensures
        spec_leaf_cell_off(i) == 14 + 297 * i,
{
    lemma_layout_constants();
}

/// The byte offset of internal cell `i`, written out.
pub proof fn lemma_internal_cell_off(i: int)
    ensures
        spec_internal_cell_off(i) == 14 + 8 * i,
{
    lemma_layout_constants();
}

// Spec-level readers over a page's byte image.
/// A page whose discriminator byte marks it as a leaf.
pub open spec fn spec_is_leaf(p: Seq<u8>) -> bool {
    p[NODE_TYPE_OFFSET as int] != 0
}

/// A page whose is-root flag is set.
pub open spec fn spec_is_root(p: Seq<u8>) -> bool {
    p[IS_ROOT_OFFSET as int] != 0
}

/// The node's parent page number (0 = root / no parent materialized).
pub open spec fn spec_parent(p: Seq<u8>) -> u32 {
    u32_at(p, PARENT_POINTER_OFFSET as int)
}

pub open spec fn spec_leaf_num_cells(p: Seq<u8>) -> u32 {
    u32_at(p, LEAF_NODE_NUM_CELLS_OFFSET as int)
}

/// The leaf's right-sibling page number (0 = rightmost leaf).
pub open spec fn spec_leaf_next(p: Seq<u8>) -> u32 {
    u32_at(p, LEAF_NODE_NEXT_LEAF_OFFSET as int)
}

pub open spec fn spec_leaf_cell_off(i: int) -> int {
    LEAF_NODE_HEADER_SIZE as int + i * (LEAF_NODE_CELL_SIZE as int)
}

pub open spec fn spec_leaf_key(p: Seq<u8>, i: int) -> u32 {
    u32_at(p, spec_leaf_cell_off(i))
}

/// The serialized record stored in leaf cell `i`.
pub open spec fn spec_leaf_value(p: Seq<u8>, i: int) -> Seq<u8> {
    p.subrange(spec_leaf_cell_off(i) + LEAF_NODE_KEY_SIZE as int, spec_leaf_cell_off(i + 1))
}

/// The raw bytes of leaf cell `i` (key followed by record).
pub open spec fn spec_leaf_cell(p: Seq<u8>, i: int) -> Seq<u8> {
    p.subrange(spec_leaf_cell_off(i), spec_leaf_cell_off(i + 1))
}

pub open spec fn spec_internal_num_keys(p: Seq<u8>) -> u32 {
    u32_at(p, INTERNAL_NODE_NUM_KEYS_OFFSET as int)
}

pub open spec fn spec_internal_right_child(p: Seq<u8>) -> u32 {
    u32_at(p, INTERNAL_NODE_RIGHT_CHILD_OFFSET as int)
}

pub open spec fn spec_internal_cell_off(i: int) -> int {
    INTERNAL_NODE_HEADER_SIZE as int + i * (INTERNAL_NODE_CELL_SIZE as int)
}

/// The page number of the child stored in internal cell `i`.
pub open spec fn spec_internal_child(p: Seq<u8>, i: int) -> u32 {
    u32_at(p, spec_internal_cell_off(i))
}

/// The separator key of internal cell `i`: the greatest key in that child's
/// subtree.
pub open spec fn spec_internal_key(p: Seq<u8>, i: int) -> u32 {
    u32_at(p, spec_internal_cell_off(i) + INTERNAL_NODE_CHILD_SIZE as int)
}

/// The record payloads a leaf stores, cell by cell.
pub open spec fn spec_leaf_values(p: Seq<u8>) -> Seq<Seq<u8>> {
    Seq::new(spec_leaf_num_cells(p) as nat, |j: int| spec_leaf_value(p, j))
}

/// A structurally sound leaf page: sized, tagged, within capacity, keys
/// strictly ascending by cell index.
pub open spec fn wf_leaf_page(p: Seq<u8>) -> bool {
    &&& p.len() == PAGE_SIZE
    &&& spec_is_leaf(p)
    &&& spec_leaf_num_cells(p) <= LEAF_NODE_MAX_CELLS
    &&& forall|i: int, j: int|
        0 <= i < j < spec_leaf_num_cells(p) ==> spec_leaf_key(p, i) < spec_leaf_key(p, j)
}

/// A structurally sound internal page: sized, tagged, within capacity, keys
/// strictly ascending by cell index.
pub open spec fn wf_internal_page(p: Seq<u8>) -> bool {
    &&& p.len() == PAGE_SIZE
    &&& !spec_is_leaf(p)
    &&& spec_internal_num_keys(p) <= INTERNAL_NODE_MAX_CELLS
    &&& forall|i: int, j: int|
        0 <= i < j < spec_internal_num_keys(p) ==> spec_internal_key(p, i) < spec_internal_key(
            p,
            j,
        )
}

/// Internal page `q` is internal page `p` with the pair (`child`, `ck`)
/// spliced in at position `w`: `w` is the first cell whose key is at least
/// `ck`, cells below `w` are kept, cells from `w` on are shifted one slot
/// right, and the rightmost child is kept. The key count is read from `p`.
pub open spec fn spec_internal_spliced(p: Seq<u8>, q: Seq<u8>, ck: u32, child: int, w: int) -> bool {
    &&& 0 <= w <= spec_internal_num_keys(p)
    &&& (forall|j: int| 0 <= j < w ==> spec_internal_key(p, j) < ck)
    &&& (w < spec_internal_num_keys(p) ==> spec_internal_key(p, w) >= ck)
    &&& (forall|j: int|
        0 <= j < w ==> #[trigger] spec_internal_child(q, j) == spec_internal_child(p, j)
            && spec_internal_key(q, j) == spec_internal_key(p, j))
    &&& spec_internal_child(q, w) == child
    &&& spec_internal_key(q, w) == ck
    &&& (forall|j: int|
        w < j <= spec_internal_num_keys(p) ==> #[trigger] spec_internal_child(q, j)
            == spec_internal_child(p, j - 1) && spec_internal_key(q, j) == spec_internal_key(
            p,
            j - 1,
        ))
    &&& spec_internal_right_child(q) == spec_internal_right_child(p)
}

/// Separator key `w` of internal page `q` carries `new_key` where `p` held
/// the separator `internal_node_find_child` selects for `old_key`; no byte
/// outside that key slot differs.
pub open spec fn spec_internal_key_updated(
    p: Seq<u8>,
    q: Seq<u8>,
    old_key: u32,
    new_key: u32,
    w: int,
) -> bool {
    &&& 0 <= w <= spec_internal_num_keys(p)
    &&& (forall|j: int| 0 <= j < w ==> spec_internal_key(p, j) < old_key)
    &&& (w < spec_internal_num_keys(p) ==> spec_internal_key(p, w) >= old_key)
    &&& spec_internal_key(q, w) == new_key
    &&& crate::buf::bytes_eq_except(
        p,
        q,
        spec_internal_cell_off(w) + INTERNAL_NODE_CHILD_SIZE as int,
        spec_internal_cell_off(w + 1),
    )
}

/// The key of logical cell `i` of a full leaf `l` with (`key`, a record)
/// inserted at position `at`.
pub open spec fn spec_logical_key(l: Seq<u8>, at: int, key: u32, i: int) -> u32 {
    if i < at {
        spec_leaf_key(l, i)
    } else if i == at {
        key
    } else {
        spec_leaf_key(l, i - 1)
    }
}

/// The record bytes of logical cell `i` of a full leaf `l` with (a key,
/// `rb`) inserted at position `at`.
pub open spec fn spec_logical_value(l: Seq<u8>, at: int, rb: Seq<u8>, i: int) -> Seq<u8> {
    if i < at {
        spec_leaf_value(l, i)
    } else if i == at {
        rb
    } else {
        spec_leaf_value(l, i - 1)
    }
}

/// Leaf `q` is leaf `l` with (`key`, `rb`) inserted at position `at`: one
/// more cell, cells below `at` kept, the new pair at `at`, later cells
/// shifted one slot right, and every header field but the cell count kept.
pub open spec fn spec_leaf_inserted(l: Seq<u8>, q: Seq<u8>, at: int, key: u32, rb: Seq<u8>) -> bool {
    &&& q.len() == PAGE_SIZE
    &&& spec_leaf_num_cells(q) == spec_leaf_num_cells(l) + 1
    &&& (forall|j: int|
        0 <= j < at ==> #[trigger] spec_leaf_key(q, j) == spec_leaf_key(l, j) && spec_leaf_value(
            q,
            j,
        ) == spec_leaf_value(l, j))
    &&& spec_leaf_key(q, at) == key
    &&& spec_leaf_value(q, at) == rb
    &&& (forall|j: int|
        at < j <= spec_leaf_num_cells(l) ==> #[trigger] spec_leaf_key(q, j) == spec_leaf_key(
            l,
            j - 1,
        ) && spec_leaf_value(q, j) == spec_leaf_value(l, j - 1))
    &&& spec_is_leaf(q) == spec_is_leaf(l)
    &&& spec_is_root(q) == spec_is_root(l)
    &&& spec_parent(q) == spec_parent(l)
    &&& spec_leaf_next(q) == spec_leaf_next(l)
}

/// Leaves `left` and `right` hold the `LEAF_NODE_MAX_CELLS + 1` logical
/// cells of full leaf `l` with (`key`, `rb`) inserted at `at`: the first
/// `LEAF_NODE_LEFT_SPLIT_COUNT` in `left`, the rest in `right`; `left`'s
/// sibling pointer names `right`'s page and `right` inherits `l`'s sibling.
pub open spec fn spec_leaf_split(
    l: Seq<u8>,
    left: Seq<u8>,
    right: Seq<u8>,
    at: int,
    key: u32,
    rb: Seq<u8>,
    right_page: int,
) -> bool {
    &&& left.len() == PAGE_SIZE
    &&& right.len() == PAGE_SIZE
    &&& spec_leaf_num_cells(left) == LEAF_NODE_LEFT_SPLIT_COUNT
    &&& spec_leaf_num_cells(right) == LEAF_NODE_RIGHT_SPLIT_COUNT
    &&& (forall|j: int|
        0 <= j < LEAF_NODE_LEFT_SPLIT_COUNT ==> #[trigger] spec_leaf_key(left, j)
            == spec_logical_key(l, at, key, j) && spec_leaf_value(left, j) == spec_logical_value(
            l,
            at,
            rb,
            j,
        ))
    &&& (forall|j: int|
        0 <= j < LEAF_NODE_RIGHT_SPLIT_COUNT ==> #[trigger] spec_leaf_key(right, j)
            == spec_logical_key(l, at, key, j + LEAF_NODE_LEFT_SPLIT_COUNT) && spec_leaf_value(
            right,
            j,
        ) == spec_logical_value(l, at, rb, j + LEAF_NODE_LEFT_SPLIT_COUNT))
    &&& spec_is_leaf(left)
    &&& spec_is_leaf(right)
    &&& !spec_is_root(right)
    &&& spec_leaf_next(left) == right_page
    &&& spec_leaf_next(right) == spec_leaf_next(l)
}

/// With `key` new to the leaf and `at` its insertion point, the logical
/// cells of a full leaf are strictly ascending by key.
pub proof fn lemma_logical_keys_sorted(l: Seq<u8>, at: int, key: u32)
    requires
        wf_leaf_page(l),
        spec_leaf_num_cells(l) == LEAF_NODE_MAX_CELLS,
        0 <= at <= LEAF_NODE_MAX_CELLS,
        forall|j: int| 0 <= j < at ==> spec_leaf_key(l, j) < key,
        at < LEAF_NODE_MAX_CELLS ==> spec_leaf_key(l, at) > key,
    ensures
        forall|i: int, j: int|
            0 <= i < j <= LEAF_NODE_MAX_CELLS ==> spec_logical_key(l, at, key, i)
                < spec_logical_key(l, at, key, j),
{
    lemma_layout_constants();
    assert forall|i: int, j: int|
        0 <= i < j <= LEAF_NODE_MAX_CELLS implies spec_logical_key(l, at, key, i)
        < spec_logical_key(l, at, key, j) by {
        if i < at && j > at {
            assert(spec_leaf_key(l, i) < key);
            if j - 1 == at {
                assert(spec_leaf_key(l, at) > key);
            } else {
                assert(spec_leaf_key(l, at) < spec_leaf_key(l, j - 1));
            }
        } else if i == at && j > at {
            if j - 1 == at {
                assert(spec_leaf_key(l, at) > key);
            } else {
                assert(spec_leaf_key(l, at) < spec_leaf_key(l, j - 1));
            }
        }
    }
}

/// Split balance law: after a full leaf splits around an insertion, the two
/// halves together hold one cell more than the old capacity, the left half
/// holds the fixed left share, and every key in the left half is smaller
/// than every key in the right half.
pub proof fn lemma_split_balance(
    l: Seq<u8>,
    left: Seq<u8>,
    right: Seq<u8>,
    at: int,
    key: u32,
    rb: Seq<u8>,
    right_page: int,
)
    requires
        wf_leaf_page(l),
        spec_leaf_num_cells(l) == LEAF_NODE_MAX_CELLS,
        0 <= at <= LEAF_NODE_MAX_CELLS,
        forall|j: int| 0 <= j < at ==> spec_leaf_key(l, j) < key,
        at < LEAF_NODE_MAX_CELLS ==> spec_leaf_key(l, at) > key,
        spec_leaf_split(l, left, right, at, key, rb, right_page),
    ensures
        spec_leaf_num_cells(left) + spec_leaf_num_cells(right) == LEAF_NODE_MAX_CELLS + 1,
        spec_leaf_num_cells(left) == LEAF_NODE_LEFT_SPLIT_COUNT,
        forall|i: int, j: int|
            0 <= i < spec_leaf_num_cells(left) && 0 <= j < spec_leaf_num_cells(right)
                ==> #[trigger] spec_leaf_key(left, i) < #[trigger] spec_leaf_key(right, j),
        forall|i: int, j: int|
            0 <= i < j < spec_leaf_num_cells(left) ==> spec_leaf_key(left, i) < spec_leaf_key(
                left,
                j,
            ),
        forall|i: int, j: int|
            0 <= i < j < spec_leaf_num_cells(right) ==> spec_leaf_key(right, i) < spec_leaf_key(
                right,
                j,
            ),
{
    lemma_layout_constants();
    lemma_logical_keys_sorted(l, at, key);
    assert forall|i: int, j: int|
        0 <= i < spec_leaf_num_cells(left) && 0 <= j < spec_leaf_num_cells(right)
        implies #[trigger] spec_leaf_key(left, i) < #[trigger] spec_leaf_key(right, j) by {
        assert(spec_leaf_key(left, i) == spec_logical_key(l, at, key, i));
        assert(spec_leaf_key(right, j) == spec_logical_key(l, at, key, j
            + LEAF_NODE_LEFT_SPLIT_COUNT));
    }
    assert forall|i: int, j: int|
        0 <= i < j < spec_leaf_num_cells(left) implies spec_leaf_key(left, i) < spec_leaf_key(
        left,
        j,
    ) by {
        assert(spec_leaf_key(left, i) == spec_logical_key(l, at, key, i));
        assert(spec_leaf_key(left, j) == spec_logical_key(l, at, key, j));
    }
    assert forall|i: int, j: int|
        0 <= i < j < spec_leaf_num_cells(right) implies spec_leaf_key(right, i) < spec_leaf_key(
        right,
        j,
    ) by {
        assert(spec_leaf_key(right, i) == spec_logical_key(l, at, key, i
            + LEAF_NODE_LEFT_SPLIT_COUNT));
        assert(spec_leaf_key(right, j) == spec_logical_key(l, at, key, j
            + LEAF_NODE_LEFT_SPLIT_COUNT));
    }
}

/// Internal page `q` is internal page `p` with its rightmost child demoted
/// into the last keyed cell under `demoted_key`, and `new_right` installed
/// as the new rightmost child.
pub open spec fn spec_internal_appended(
    p: Seq<u8>,
    q: Seq<u8>,
    demoted_key: u32,
    new_right: int,
) -> bool {
    &&& spec_internal_num_keys(q) == spec_internal_num_keys(p) + 1
    &&& (forall|j: int|
        0 <= j < spec_internal_num_keys(p) ==> #[trigger] spec_internal_child(q, j)
            == spec_internal_child(p, j) && spec_internal_key(q, j) == spec_internal_key(p, j))
    &&& spec_internal_child(q, spec_internal_num_keys(p) as int) == spec_internal_right_child(p)
    &&& spec_internal_key(q, spec_internal_num_keys(p) as int) == demoted_key
    &&& spec_internal_right_child(q) == new_right
}

/// The first separator index at or after `i` whose key is at least `key`,
/// or the key count when none is.
pub open spec fn spec_find_child_from(p: Seq<u8>, key: u32, i: int) -> int
    decreases spec_internal_num_keys(p) as int - i,
{
    if i >= spec_internal_num_keys(p) {
        i
    } else if spec_internal_key(p, i) >= key {
        i
    } else {
        spec_find_child_from(p, key, i + 1)
    }
}

/// What `spec_find_child_from` returns: the least index at or after `i`
/// whose separator admits `key`.
pub proof fn lemma_find_child_from_props(p: Seq<u8>, key: u32, i: int)
    requires
        0 <= i <= spec_internal_num_keys(p),
    ensures
        i <= spec_find_child_from(p, key, i) <= spec_internal_num_keys(p),
        forall|j: int|
            i <= j < spec_find_child_from(p, key, i) ==> spec_internal_key(p, j) < key,
        spec_find_child_from(p, key, i) < spec_internal_num_keys(p) ==> spec_internal_key(
            p,
            spec_find_child_from(p, key, i),
        ) >= key,
    decreases spec_internal_num_keys(p) as int - i,
{
    if i < spec_internal_num_keys(p) && spec_internal_key(p, i) < key {
        lemma_find_child_from_props(p, key, i + 1);
    }
}

/// Any index with the first-admitting-separator characterization is the one
/// `spec_find_child_from` names.
pub proof fn lemma_find_child_unique(p: Seq<u8>, key: u32, ci: int)
    requires
        0 <= ci <= spec_internal_num_keys(p),
        forall|j: int| 0 <= j < ci ==> spec_internal_key(p, j) < key,
        ci < spec_internal_num_keys(p) ==> spec_internal_key(p, ci) >= key,
    ensures
        ci == spec_find_child_from(p, key, 0),
{
    lemma_find_child_from_props(p, key, 0);
    let r = spec_find_child_from(p, key, 0);
    if ci < r {
        assert(spec_internal_key(p, ci) < key);
        assert(ci < spec_internal_num_keys(p));
        assert(spec_internal_key(p, ci) >= key);
    }
    if r < ci {
        assert(spec_internal_key(p, r) < key);
        assert(r < spec_internal_num_keys(p));
        assert(spec_internal_key(p, r) >= key);
    }
}

/// The node holds at least one key and is within capacity, so its greatest
/// key is well-defined.
pub open spec fn node_has_max_key(p: Seq<u8>) -> bool {
    &&& p.len() == PAGE_SIZE
    &&& (spec_is_leaf(p) ==> 1 <= spec_leaf_num_cells(p) <= LEAF_NODE_MAX_CELLS)
    &&& (!spec_is_leaf(p) ==> 1 <= spec_internal_num_keys(p) <= INTERNAL_NODE_MAX_CELLS)
}

/// The node's greatest key: the last leaf cell key, or the last separator key.
pub open spec fn spec_node_max_key(p: Seq<u8>) -> u32 {
    if spec_is_leaf(p) {
        spec_leaf_key(p, spec_leaf_num_cells(p) as int - 1)
    } else {
        spec_internal_key(p, spec_internal_num_keys(p) as int - 1)
    }
}

// Exec readers.
/// Read the node kind from the discriminator byte.
pub fn get_node_type(page: &Vec<u8>) -> (t: NodeType)
    requires
        page.len() == PAGE_SIZE,
    ensures
        (t is NodeLeaf) == spec_is_leaf(page@),
{
    if page[NODE_TYPE_OFFSET] == 0 {
        NodeType::NodeInternal
    } else {
        NodeType::NodeLeaf
    }
}

/// Write the node kind into the discriminator byte.
pub fn set_node_type(page: &mut Vec<u8>, n_type: NodeType)
    requires
        old(page).len() == PAGE_SIZE,
    ensures
        spec_is_leaf(final(page)@) == (n_type is NodeLeaf),
        bytes_eq_except(old(page)@, final(page)@, NODE_TYPE_OFFSET as int, NODE_TYPE_OFFSET as int + 1),
{
    let type_num: u8 = match n_type {
        NodeType::NodeInternal => 0,
        NodeType::NodeLeaf => 1,
    };
    page[NODE_TYPE_OFFSET] = type_num;
}

/// Read the is-root flag.
pub fn is_node_root(page: &Vec<u8>) -> (r: bool)
    requires
        page.len() == PAGE_SIZE,
    ensures
        r == spec_is_root(page@),
{
    page[IS_ROOT_OFFSET] != 0
}

/// Write the is-root flag.
pub fn set_node_root(page: &mut Vec<u8>, is_root: bool)
    requires
        old(page).len() == PAGE_SIZE,
    ensures
        spec_is_root(final(page)@) == is_root,
        bytes_eq_except(old(page)@, final(page)@, IS_ROOT_OFFSET as int, IS_ROOT_OFFSET as int + 1),
{
    let flag: u8 = if is_root {
        1
    } else {
        0
    };
    page[IS_ROOT_OFFSET] = flag;
}

/// Read the parent page number.
pub fn node_parent(page: &Vec<u8>) -> (r: u32)
    requires
        page.len() == PAGE_SIZE,
    ensures
        r == spec_parent(page@),
{
    read_u32_at(page, PARENT_POINTER_OFFSET)
}

/// Write the parent page number.
pub fn set_node_parent(page: &mut Vec<u8>, parent: u32)
    requires
        old(page).len() == PAGE_SIZE,
    ensures
        spec_parent(final(page)@) == parent,
        bytes_eq_except(
            old(page)@,
            final(page)@,
            PARENT_POINTER_OFFSET as int,
            PARENT_POINTER_OFFSET as int + 4,
        ),
{
    write_u32_at(page, PARENT_POINTER_OFFSET, parent);
}

/// Read the leaf's cell count.
pub fn leaf_node_num_cells(page: &Vec<u8>) -> (r: u32)
    requires
        page.len() == PAGE_SIZE,
    ensures
        r == spec_leaf_num_cells(page@),
{
    read_u32_at(page, LEAF_NODE_NUM_CELLS_OFFSET)
}

/// Write the leaf's cell count.
pub fn set_leaf_node_num_cells(page: &mut Vec<u8>, n: u32)
    requires
        old(page).len() == PAGE_SIZE,
    ensures
        spec_leaf_num_cells(final(page)@) == n,
        bytes_eq_except(
            old(page)@,
            final(page)@,
            LEAF_NODE_NUM_CELLS_OFFSET as int,
            LEAF_NODE_NUM_CELLS_OFFSET as int + 4,
        ),
{
    write_u32_at(page, LEAF_NODE_NUM_CELLS_OFFSET, n);
}

/// Read the leaf's right-sibling page number.
pub fn leaf_node_next_leaf(page: &Vec<u8>) -> (r: u32)
    requires
        page.len() == PAGE_SIZE,
    ensures
        r == spec_leaf_next(page@),
{
    read_u32_at(page, LEAF_NODE_NEXT_LEAF_OFFSET)
}

/// Write the leaf's right-sibling page number.
pub fn set_leaf_node_next_leaf(page: &mut Vec<u8>, next: u32)
    requires
        old(page).len() == PAGE_SIZE,
    ensures
        spec_leaf_next(final(page)@) == next,
        bytes_eq_except(
            old(page)@,
            final(page)@,
            LEAF_NODE_NEXT_LEAF_OFFSET as int,
            LEAF_NODE_NEXT_LEAF_OFFSET as int + 4,
        ),
{
    write_u32_at(page, LEAF_NODE_NEXT_LEAF_OFFSET, next);
}

/// Read the key of leaf cell `cell_num`.
pub fn leaf_node_key(page: &Vec<u8>, cell_num: usize) -> (r: u32)
    requires
        page.len() == PAGE_SIZE,
        cell_num < LEAF_NODE_MAX_CELLS,
    ensures
        r == spec_leaf_key(page@, cell_num as int),
{
    proof {
        lemma_layout_constants();
    }
    read_u32_at(page, LEAF_NODE_HEADER_SIZE + cell_num * LEAF_NODE_CELL_SIZE)
}

/// Copy the serialized record out of leaf cell `cell_num`.
pub fn leaf_node_value(page: &Vec<u8>, cell_num: usize) -> (r: Vec<u8>)
    requires
        page.len() == PAGE_SIZE,
        cell_num < LEAF_NODE_MAX_CELLS,
    ensures
        r@ == spec_leaf_value(page@, cell_num as int),
{
    proof {
        lemma_layout_constants();
    }
    let r = read_bytes(
        page,
        LEAF_NODE_HEADER_SIZE + cell_num * LEAF_NODE_CELL_SIZE + LEAF_NODE_KEY_SIZE,
        LEAF_NODE_VALUE_SIZE,
    );
    proof {
        assert(r@ =~= spec_leaf_value(page@, cell_num as int));
    }
    r
}

/// Write leaf cell `cell_num`: the key followed by the record's byte image.
/// Nothing outside that cell changes.
pub fn set_leaf_node_cell(page: &mut Vec<u8>, cell_num: usize, key: u32, value: &Row)
    requires
        old(page).len() == PAGE_SIZE,
        cell_num < LEAF_NODE_MAX_CELLS,
        value.wf(),
    ensures
        final(page)@.len() == PAGE_SIZE,
        spec_leaf_key(final(page)@, cell_num as int) == key,
        spec_leaf_value(final(page)@, cell_num as int) == value.spec_bytes(),
        bytes_eq_except(
            old(page)@,
            final(page)@,
            spec_leaf_cell_off(cell_num as int),
            spec_leaf_cell_off(cell_num as int + 1),
        ),
{
    proof {
        lemma_layout_constants();
    }
    let off = LEAF_NODE_HEADER_SIZE + cell_num * LEAF_NODE_CELL_SIZE;
    write_u32_at(page, off, key);
    let ghost mid = page@;
    value.serialize_row(page, off + LEAF_NODE_KEY_SIZE);
    proof {
        lemma_range_frame(
            mid,
            page@,
            off as int + LEAF_NODE_KEY_SIZE as int,
            off as int + LEAF_NODE_KEY_SIZE as int + ROW_SIZE as int,
            off as int,
            off as int + 4,
        );
        assert(spec_leaf_value(page@, cell_num as int) =~= page@.subrange(
            off as int + LEAF_NODE_KEY_SIZE as int,
            off as int + LEAF_NODE_KEY_SIZE as int + ROW_SIZE as int,
        ));
        assert forall|i: int|
            0 <= i < old(page)@.len() && !(spec_leaf_cell_off(cell_num as int) <= i
                < spec_leaf_cell_off(cell_num as int + 1)) implies page@[i] == old(page)@[i] by {
            assert(mid[i] == old(page)@[i]);
        }
    }
}

/// Read the raw bytes of leaf cell `cell_num`.
pub fn read_leaf_cell(page: &Vec<u8>, cell_num: usize) -> (r: Vec<u8>)
    requires
        page.len() == PAGE_SIZE,
        cell_num < LEAF_NODE_MAX_CELLS,
    ensures
        r@ == spec_leaf_cell(page@, cell_num as int),
        r@.len() == LEAF_NODE_CELL_SIZE,
        u32_at(r@, 0) == spec_leaf_key(page@, cell_num as int),
        r@.subrange(LEAF_NODE_KEY_SIZE as int, LEAF_NODE_CELL_SIZE as int) == spec_leaf_value(
            page@,
            cell_num as int,
        ),
{
    proof {
        lemma_layout_constants();
    }
    let r = read_bytes(page, LEAF_NODE_HEADER_SIZE + cell_num * LEAF_NODE_CELL_SIZE, LEAF_NODE_CELL_SIZE);
    proof {
        let o = spec_leaf_cell_off(cell_num as int);
        assert(r@ =~= spec_leaf_cell(page@, cell_num as int));
        assert(r@.subrange(0, 4) =~= page@.subrange(o, o + 4));
        assert(r@.subrange(LEAF_NODE_KEY_SIZE as int, LEAF_NODE_CELL_SIZE as int)
            =~= spec_leaf_value(page@, cell_num as int));
    }
    r
}

/// Overwrite leaf cell `cell_num` with a raw cell image. Nothing outside
/// that cell changes.
pub fn write_leaf_cell(page: &mut Vec<u8>, cell_num: usize, cell: &Vec<u8>)
    requires
        old(page).len() == PAGE_SIZE,
        cell_num < LEAF_NODE_MAX_CELLS,
        cell@.len() == LEAF_NODE_CELL_SIZE,
    ensures
        final(page)@.len() == PAGE_SIZE,
        spec_leaf_cell(final(page)@, cell_num as int) == cell@,
        spec_leaf_key(final(page)@, cell_num as int) == u32_at(cell@, 0),
        spec_leaf_value(final(page)@, cell_num as int) == cell@.subrange(
            LEAF_NODE_KEY_SIZE as int,
            LEAF_NODE_CELL_SIZE as int,
        ),
        bytes_eq_except(
            old(page)@,
            final(page)@,
            spec_leaf_cell_off(cell_num as int),
            spec_leaf_cell_off(cell_num as int + 1),
        ),
{
    proof {
        lemma_layout_constants();
    }
    crate::buf::write_bytes_at(page, LEAF_NODE_HEADER_SIZE + cell_num * LEAF_NODE_CELL_SIZE, cell);
    proof {
        let o = spec_leaf_cell_off(cell_num as int);
        assert(spec_leaf_cell(final(page)@, cell_num as int) =~= cell@);
        assert(final(page)@.subrange(o, o + 4) =~= cell@.subrange(0, 4));
        assert(spec_leaf_value(final(page)@, cell_num as int) =~= cell@.subrange(
            LEAF_NODE_KEY_SIZE as int,
            LEAF_NODE_CELL_SIZE as int,
        ));
    }
}

/// Read the internal node's key count.
pub fn internal_node_num_keys(page: &Vec<u8>) -> (r: u32)
    requires
        page.len() == PAGE_SIZE,
    ensures
        r == spec_internal_num_keys(page@),
{
    read_u32_at(page, INTERNAL_NODE_NUM_KEYS_OFFSET)
}

/// Write the internal node's key count.
pub fn set_internal_node_num_keys(page: &mut Vec<u8>, n: u32)
    requires
        old(page).len() == PAGE_SIZE,
    ensures
        spec_internal_num_keys(final(page)@) == n,
        bytes_eq_except(
            old(page)@,
            final(page)@,
            INTERNAL_NODE_NUM_KEYS_OFFSET as int,
            INTERNAL_NODE_NUM_KEYS_OFFSET as int + 4,
        ),
{
    write_u32_at(page, INTERNAL_NODE_NUM_KEYS_OFFSET, n);
}

/// Read the internal node's rightmost-child page number.
pub fn internal_node_right_child(page: &Vec<u8>) -> (r: u32)
    requires
        page.len() == PAGE_SIZE,
    ensures
        r == spec_internal_right_child(page@),
{
    read_u32_at(page, INTERNAL_NODE_RIGHT_CHILD_OFFSET)
}

/// Write the internal node's rightmost-child page number.
pub fn set_internal_node_right_child(page: &mut Vec<u8>, child: u32)
    requires
        old(page).len() == PAGE_SIZE,
    ensures
        spec_internal_right_child(final(page)@) == child,
        bytes_eq_except(
            old(page)@,
            final(page)@,
            INTERNAL_NODE_RIGHT_CHILD_OFFSET as int,
            INTERNAL_NODE_RIGHT_CHILD_OFFSET as int + 4,
        ),
{
    write_u32_at(page, INTERNAL_NODE_RIGHT_CHILD_OFFSET, child);
}

/// Read the key of internal cell `key_num`.
pub fn internal_node_key(page: &Vec<u8>, key_num: usize) -> (r: u32)
    requires
        page.len() == PAGE_SIZE,
        key_num <= INTERNAL_NODE_MAX_CELLS,
    ensures
        r == spec_internal_key(page@, key_num as int),
{
    proof {
        lemma_layout_constants();
    }
    read_u32_at(
        page,
        INTERNAL_NODE_HEADER_SIZE + key_num * INTERNAL_NODE_CELL_SIZE + INTERNAL_NODE_CHILD_SIZE,
    )
}

/// Write the key of internal cell `key_num`; its child half is untouched.
pub fn set_internal_node_key(page: &mut Vec<u8>, key_num: usize, key: u32)
    requires
        old(page).len() == PAGE_SIZE,
        key_num <= INTERNAL_NODE_MAX_CELLS,
    ensures
        spec_internal_key(final(page)@, key_num as int) == key,
        bytes_eq_except(
            old(page)@,
            final(page)@,
            spec_internal_cell_off(key_num as int) + INTERNAL_NODE_CHILD_SIZE as int,
            spec_internal_cell_off(key_num as int + 1),
        ),
{
    proof {
        lemma_layout_constants();
    }
    write_u32_at(
        page,
        INTERNAL_NODE_HEADER_SIZE + key_num * INTERNAL_NODE_CELL_SIZE + INTERNAL_NODE_CHILD_SIZE,
        key,
    );
}

/// The page number of child `child_num`: a keyed cell's child for indices
/// below the key count, the rightmost child at the key count, an error above.
pub fn internal_node_child(page: &Vec<u8>, child_num: usize) -> (r: DbResult<u32>)
    requires
        page.len() == PAGE_SIZE,
        spec_internal_num_keys(page@) <= INTERNAL_NODE_MAX_CELLS,
    ensures
        r is Ok <==> child_num <= spec_internal_num_keys(page@),
        child_num < spec_internal_num_keys(page@) ==> r == Ok::<u32, DbError>(
            spec_internal_child(page@, child_num as int),
        ),
        child_num == spec_internal_num_keys(page@) ==> r == Ok::<u32, DbError>(
            spec_internal_right_child(page@),
        ),
        r is Err ==> r->Err_0 is ChildOutOfBounds,
{
    proof {
        lemma_layout_constants();
    }
    let num_keys = internal_node_num_keys(page);
    if child_num > num_keys as usize {
        Err(DbError::ChildOutOfBounds)
    } else if child_num == num_keys as usize {
        Ok(internal_node_right_child(page))
    } else {
        Ok(read_u32_at(page, INTERNAL_NODE_HEADER_SIZE + child_num * INTERNAL_NODE_CELL_SIZE))
    }
}

/// Write internal cell `cell_num`: a child page number and its separator key.
/// Nothing outside that cell changes.
pub fn set_internal_node_cell(page: &mut Vec<u8>, cell_num: usize, child: u32, key: u32)
    requires
        old(page).len() == PAGE_SIZE,
        cell_num <= INTERNAL_NODE_MAX_CELLS,
    ensures
        final(page)@.len() == PAGE_SIZE,
        spec_internal_child(final(page)@, cell_num as int) == child,
        spec_internal_key(final(page)@, cell_num as int) == key,
        bytes_eq_except(
            old(page)@,
            final(page)@,
            spec_internal_cell_off(cell_num as int),
            spec_internal_cell_off(cell_num as int + 1),
        ),
{
    proof {
        lemma_layout_constants();
    }
    let off = INTERNAL_NODE_HEADER_SIZE + cell_num * INTERNAL_NODE_CELL_SIZE;
    write_u32_at(page, off, child);
    let ghost mid = page@;
    write_u32_at(page, off + INTERNAL_NODE_CHILD_SIZE, key);
    proof {
        lemma_u32_at_frame(
            mid,
            page@,
            off as int + INTERNAL_NODE_CHILD_SIZE as int,
            off as int + INTERNAL_NODE_CHILD_SIZE as int + 4,
            off as int,
        );
        assert forall|i: int|
            0 <= i < old(page)@.len() && !(spec_internal_cell_off(cell_num as int) <= i
                < spec_internal_cell_off(cell_num as int + 1)) implies page@[i] == old(
            page,
        )@[i] by {
            assert(mid[i] == old(page)@[i]);
        }
    }
}

/// Read the child page number stored in internal cell `cell_num`, without
/// the rightmost-child indirection of `internal_node_child`.
pub fn internal_node_cell_child(page: &Vec<u8>, cell_num: usize) -> (r: u32)
    requires
        page.len() == PAGE_SIZE,
        cell_num <= INTERNAL_NODE_MAX_CELLS,
    ensures
        r == spec_internal_child(page@, cell_num as int),
{
    proof {
        lemma_layout_constants();
    }
    read_u32_at(page, INTERNAL_NODE_HEADER_SIZE + cell_num * INTERNAL_NODE_CELL_SIZE)
}

/// Copy internal cell `src` over internal cell `dst` within one page.
/// Nothing outside cell `dst` changes.
pub fn copy_internal_node_cell(page: &mut Vec<u8>, dst: usize, src: usize)
    requires
        old(page).len() == PAGE_SIZE,
        dst <= INTERNAL_NODE_MAX_CELLS,
        src <= INTERNAL_NODE_MAX_CELLS,
    ensures
        final(page)@.len() == PAGE_SIZE,
        spec_internal_child(final(page)@, dst as int) == spec_internal_child(
            old(page)@,
            src as int,
        ),
        spec_internal_key(final(page)@, dst as int) == spec_internal_key(old(page)@, src as int),
        bytes_eq_except(
            old(page)@,
            final(page)@,
            spec_internal_cell_off(dst as int),
            spec_internal_cell_off(dst as int + 1),
        ),
{
    proof {
        lemma_layout_constants();
    }
    let child = internal_node_cell_child(page, src);
    let key = internal_node_key(page, src);
    set_internal_node_cell(page, dst, child, key);
    proof {
        if dst != src {
            lemma_u32_at_frame(
                old(page)@,
                page@,
                spec_internal_cell_off(dst as int),
                spec_internal_cell_off(dst as int + 1),
                spec_internal_cell_off(src as int),
            );
            lemma_u32_at_frame(
                old(page)@,
                page@,
                spec_internal_cell_off(dst as int),
                spec_internal_cell_off(dst as int + 1),
                spec_internal_cell_off(src as int) + INTERNAL_NODE_CHILD_SIZE as int,
            );
        }
    }
}

/// Copy leaf cell `src` over leaf cell `dst` within one page. Nothing
/// outside cell `dst` changes.
pub fn copy_leaf_node_cell(page: &mut Vec<u8>, dst: usize, src: usize)
    requires
        old(page).len() == PAGE_SIZE,
        dst < LEAF_NODE_MAX_CELLS,
        src < LEAF_NODE_MAX_CELLS,
    ensures
        final(page)@.len() == PAGE_SIZE,
        spec_leaf_cell(final(page)@, dst as int) == spec_leaf_cell(old(page)@, src as int),
        spec_leaf_key(final(page)@, dst as int) == spec_leaf_key(old(page)@, src as int),
        spec_leaf_value(final(page)@, dst as int) == spec_leaf_value(old(page)@, src as int),
        bytes_eq_except(
            old(page)@,
            final(page)@,
            spec_leaf_cell_off(dst as int),
            spec_leaf_cell_off(dst as int + 1),
        ),
{
    proof {
        lemma_layout_constants();
    }
    let cell = read_leaf_cell(page, src);
    write_leaf_cell(page, dst, &cell);
    proof {
        let a = old(page)@;
        let b = page@;
        let so = spec_leaf_cell_off(src as int);
        let dof = spec_leaf_cell_off(dst as int);
        assert(spec_leaf_cell(b, dst as int) == spec_leaf_cell(a, src as int));
        assert(spec_leaf_key(b, dst as int) == u32_at(spec_leaf_cell(a, src as int), 0));
        assert(spec_leaf_cell(a, src as int).subrange(0, 4) =~= a.subrange(so, so + 4));
        assert(spec_leaf_value(b, dst as int) =~= spec_leaf_value(a, src as int));
    }
}

/// Initialize a page as an empty, non-root leaf with no sibling. The parent
/// pointer and the cell area are untouched.
pub fn initialize_leaf_node(page: &mut Vec<u8>)
    requires
        old(page).len() == PAGE_SIZE,
    ensures
        final(page)@.len() == PAGE_SIZE,
        spec_is_leaf(final(page)@),
        !spec_is_root(final(page)@),
        spec_leaf_num_cells(final(page)@) == 0,
        spec_leaf_next(final(page)@) == 0,
        spec_parent(final(page)@) == spec_parent(old(page)@),
        forall|i: int|
            LEAF_NODE_HEADER_SIZE <= i < PAGE_SIZE ==> final(page)@[i] == old(page)@[i],
{
    set_node_type(page, NodeType::NodeLeaf);
    let ghost s1 = page@;
    set_node_root(page, false);
    let ghost s2 = page@;
    set_leaf_node_num_cells(page, 0);
    let ghost s3 = page@;
    set_leaf_node_next_leaf(page, 0);
    proof {
        lemma_u32_at_frame(
            s3,
            page@,
            LEAF_NODE_NEXT_LEAF_OFFSET as int,
            LEAF_NODE_NEXT_LEAF_OFFSET as int + 4,
            LEAF_NODE_NUM_CELLS_OFFSET as int,
        );
        assert(page@[NODE_TYPE_OFFSET as int] == s1[NODE_TYPE_OFFSET as int]);
        assert(page@[IS_ROOT_OFFSET as int] == s2[IS_ROOT_OFFSET as int]);
        assert(page@.subrange(PARENT_POINTER_OFFSET as int, PARENT_POINTER_OFFSET as int + 4)
            =~= old(page)@.subrange(PARENT_POINTER_OFFSET as int, PARENT_POINTER_OFFSET as int + 4));
        assert forall|i: int|
            LEAF_NODE_HEADER_SIZE <= i < PAGE_SIZE implies page@[i] == old(page)@[i] by {
            assert(s1[i] == old(page)@[i]);
            assert(s2[i] == s1[i]);
            assert(s3[i] == s2[i]);
        }
    }
}

/// Initialize a page as an empty, non-root internal node. The parent pointer,
/// the rightmost-child slot and the cell area are untouched.
pub fn initialize_internal_node(page: &mut Vec<u8>)
    requires
        old(page).len() == PAGE_SIZE,
    ensures
        final(page)@.len() == PAGE_SIZE,
        !spec_is_leaf(final(page)@),
        !spec_is_root(final(page)@),
        spec_internal_num_keys(final(page)@) == 0,
        spec_parent(final(page)@) == spec_parent(old(page)@),
        spec_internal_right_child(final(page)@) == spec_internal_right_child(old(page)@),
        forall|i: int|
            INTERNAL_NODE_HEADER_SIZE <= i < PAGE_SIZE ==> final(page)@[i] == old(page)@[i],
{
    set_node_type(page, NodeType::NodeInternal);
    let ghost s1 = page@;
    set_node_root(page, false);
    let ghost s2 = page@;
    set_internal_node_num_keys(page, 0);
    proof {
        assert(page@[NODE_TYPE_OFFSET as int] == s1[NODE_TYPE_OFFSET as int]);
        assert(page@[IS_ROOT_OFFSET as int] == s2[IS_ROOT_OFFSET as int]);
        assert(page@.subrange(PARENT_POINTER_OFFSET as int, PARENT_POINTER_OFFSET as int + 4)
            =~= old(page)@.subrange(PARENT_POINTER_OFFSET as int, PARENT_POINTER_OFFSET as int + 4));
        assert(page@.subrange(
            INTERNAL_NODE_RIGHT_CHILD_OFFSET as int,
            INTERNAL_NODE_RIGHT_CHILD_OFFSET as int + 4,
        ) =~= old(page)@.subrange(
            INTERNAL_NODE_RIGHT_CHILD_OFFSET as int,
            INTERNAL_NODE_RIGHT_CHILD_OFFSET as int + 4,
        ));
        assert forall|i: int|
            INTERNAL_NODE_HEADER_SIZE <= i < PAGE_SIZE implies page@[i] == old(page)@[i] by {
            assert(s1[i] == old(page)@[i]);
            assert(s2[i] == s1[i]);
        }
    }
}

/// The node's greatest key: last leaf cell key or last separator key.
pub fn get_node_max_key(page: &Vec<u8>) -> (r: u32)
    requires
        page.len() == PAGE_SIZE,
        spec_is_leaf(page@) ==> 1 <= spec_leaf_num_cells(page@) <= LEAF_NODE_MAX_CELLS,
        !spec_is_leaf(page@) ==> 1 <= spec_internal_num_keys(page@) <= INTERNAL_NODE_MAX_CELLS,
    ensures
        r == spec_node_max_key(page@),
{
    proof {
        lemma_layout_constants();
    }
    match get_node_type(page) {
        NodeType::NodeLeaf => {
            let n = leaf_node_num_cells(page);
            leaf_node_key(page, n as usize - 1)
        },
        NodeType::NodeInternal => {
            let n = internal_node_num_keys(page);
            internal_node_key(page, n as usize - 1)
        },
    }
}

/// One line of the tree printout: a node header with its size, or one key.
#[derive(PartialEq, Eq, Structural, Clone, Copy, Debug)]
pub enum TreeLine {
    LeafNode(u32, u32),
    LeafKey(u32, u32),
    InternalNode(u32, u32),
    InternalKey(u32, u32),
}

/// The printout of one leaf at `depth`: its header, then its keys one
/// level deeper.
pub open spec fn spec_leaf_listing(p: Seq<u8>, depth: u32) -> Seq<TreeLine> {
    seq![TreeLine::LeafNode(depth, spec_leaf_num_cells(p))] + Seq::new(
        spec_leaf_num_cells(p) as nat,
        |j: int| TreeLine::LeafKey((depth + 1) as u32, spec_leaf_key(p, j)),
    )
}

/// Append one leaf's printout lines at `depth`.
pub fn leaf_listing_into(out: &mut Vec<TreeLine>, page: &Vec<u8>, depth: u32)
    requires
        page.len() == PAGE_SIZE,
        spec_leaf_num_cells(page@) <= LEAF_NODE_MAX_CELLS,
        depth < 8,
    ensures
        final(out)@ == old(out)@ + spec_leaf_listing(page@, depth),
{
    let n = leaf_node_num_cells(page);
    out.push(TreeLine::LeafNode(depth, n));
    let mut i: usize = 0;
    while i < n as usize
        invariant
            page.len() == PAGE_SIZE,
            n == spec_leaf_num_cells(page@),
            n <= LEAF_NODE_MAX_CELLS,
            depth < 8,
            i <= n,
            out@ =~= old(out)@ + seq![TreeLine::LeafNode(depth, n)] + Seq::new(
                i as nat,
                |j: int| TreeLine::LeafKey((depth + 1) as u32, spec_leaf_key(page@, j)),
            ),
        decreases n as int - i,
    {
        out.push(TreeLine::LeafKey(depth + 1, leaf_node_key(page, i)));
        proof {
            assert(out@ =~= old(out)@ + seq![TreeLine::LeafNode(depth, n)] + Seq::new(
                (i + 1) as nat,
                |j: int| TreeLine::LeafKey((depth + 1) as u32, spec_leaf_key(page@, j)),
            ));
        }
        i = i + 1;
    }
    proof {
        assert(out@ =~= old(out)@ + spec_leaf_listing(page@, depth));
    }
}

/// Whether the first `n` cell keys of a leaf page are strictly ascending.
pub fn leaf_keys_sorted(page: &Vec<u8>, n: u32) -> (r: bool)
    requires
        page.len() == PAGE_SIZE,
        n <= LEAF_NODE_MAX_CELLS,
    ensures
        r == (forall|a: int, b: int|
            0 <= a < b < n ==> spec_leaf_key(page@, a) < spec_leaf_key(page@, b)),
{
    let mut i: usize = 1;
    while i < n as usize
        invariant
            page.len() == PAGE_SIZE,
            n <= LEAF_NODE_MAX_CELLS,
            1 <= i,
            forall|a: int, b: int|
                0 <= a < b < i ==> spec_leaf_key(page@, a) < spec_leaf_key(page@, b),
        decreases n as int - i,
    {
        if leaf_node_key(page, i - 1) >= leaf_node_key(page, i) {
            return false;
        }
        i = i + 1;
    }
    true
}

/// The index of the child whose subtree may contain `key`: the first cell
/// whose separator key is at least `key`, or the rightmost child when none is.
pub fn internal_node_find_child(page: &Vec<u8>, key: u32) -> (r: u32)
    requires
        page.len() == PAGE_SIZE,
        spec_internal_num_keys(page@) <= INTERNAL_NODE_MAX_CELLS,
        forall|i: int, j: int|
            0 <= i < j < spec_internal_num_keys(page@) ==> spec_internal_key(page@, i)
                < spec_internal_key(page@, j),
    ensures
        r <= spec_internal_num_keys(page@),
        forall|j: int| 0 <= j < r ==> spec_internal_key(page@, j) < key,
        r < spec_internal_num_keys(page@) ==> spec_internal_key(page@, r as int) >= key,
{
    proof {
        lemma_layout_constants();
    }
    let num_keys = internal_node_num_keys(page);
    let mut min_index: u32 = 0;
    let mut max_index: u32 = num_keys;
    while min_index != max_index
        invariant
            page.len() == PAGE_SIZE,
            num_keys == spec_internal_num_keys(page@),
            num_keys <= INTERNAL_NODE_MAX_CELLS,
            min_index <= max_index <= num_keys,
            forall|j: int| 0 <= j < min_index ==> spec_internal_key(page@, j) < key,
            forall|j: int|
                max_index <= j < num_keys ==> spec_internal_key(page@, j) >= key,
            forall|i: int, j: int|
                0 <= i < j < num_keys ==> spec_internal_key(page@, i) < spec_internal_key(
                    page@,
                    j,
                ),
        decreases max_index - min_index,
    {
        let index: u32 = min_index + (max_index - min_index) / 2;
        let key_to_right: u32 = internal_node_key(page, index as usize);
        if key_to_right >= key {
            max_index = index;
        } else {
            min_index = index + 1;
        }
    }
    min_index
}

/// Replace the separator key that currently reads `old_key` with `new_key`,
/// in the cell `internal_node_find_child` selects for `old_key`.
pub fn update_internal_node_key(page: &mut Vec<u8>, old_key: u32, new_key: u32)
    requires
        old(page).len() == PAGE_SIZE,
        spec_internal_num_keys(old(page)@) <= INTERNAL_NODE_MAX_CELLS,
        forall|i: int, j: int|
            0 <= i < j < spec_internal_num_keys(old(page)@) ==> spec_internal_key(old(page)@, i)
                < spec_internal_key(old(page)@, j),
    ensures
        final(page)@.len() == PAGE_SIZE,
        exists|w: int|
            spec_internal_key_updated(old(page)@, final(page)@, old_key, new_key, w),
{
    proof {
        lemma_layout_constants();
    }
    let old_child_index = internal_node_find_child(page, old_key);
    set_internal_node_key(page, old_child_index as usize, new_key);
    proof {
        assert(spec_internal_key_updated(
            old(page)@,
            page@,
            old_key,
            new_key,
            old_child_index as int,
        ));
    }
}

} // verus!
