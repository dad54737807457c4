//! The table: owns the page cache and the root page number, and implements
//! structural growth (root-split promotion and internal-node child
//! insertion with key propagation).

use crate::buf::{bytes_eq_except, lemma_u32_at_frame, read_bytes, write_bytes_at};
use crate::error::{DbError, DbResult};
use crate::pager::Pager;
use crate::tree::{
    get_node_max_key, initialize_internal_node, initialize_leaf_node,
    internal_node_find_child, internal_node_num_keys,
    internal_node_right_child, lemma_layout_constants, copy_internal_node_cell,
    set_internal_node_cell, set_internal_node_num_keys, set_internal_node_right_child,
    set_node_parent, set_node_root, spec_internal_child, spec_internal_key,
    spec_internal_num_keys, spec_internal_right_child, spec_is_leaf, spec_is_root, spec_leaf_key,
    spec_leaf_next, spec_leaf_num_cells, spec_node_max_key, spec_parent, wf_internal_page,
    wf_leaf_page, spec_internal_cell_off, INTERNAL_NODE_CHILD_SIZE, INTERNAL_NODE_MAX_CELLS,
    LEAF_NODE_NUM_CELLS_OFFSET, LEAF_NODE_NEXT_LEAF_OFFSET, LEAF_NODE_MAX_CELLS,
    NODE_TYPE_OFFSET, PARENT_POINTER_OFFSET, COMMON_NODE_HEADER_SIZE, IS_ROOT_OFFSET,
    INTERNAL_NODE_NUM_KEYS_OFFSET, INTERNAL_NODE_RIGHT_CHILD_OFFSET, spec_leaf_cell_off,
    node_has_max_key, lemma_internal_cell_off, spec_internal_spliced, spec_find_child_from,
    spec_leaf_values, get_node_type, internal_node_child, internal_node_key, is_node_root,
    leaf_keys_sorted, leaf_node_key, leaf_node_next_leaf, leaf_node_num_cells, node_parent,
    NodeType, TreeLine, leaf_listing_into, spec_leaf_listing,
    spec_internal_appended,
};
use crate::{PAGE_SIZE, TABLE_MAX_PAGES};
use vstd::prelude::*;

verus! {

/// A table: the page cache plus the page number of the root node. The root
/// page number never changes; root splits replace the root page's contents.
pub struct Table {
    pub pager: Pager,
    pub root_page_num: usize,
}

impl Table {
    /// The cache is sound, the root is page 0, and at least one page exists.
    pub open spec fn wf_base(self) -> bool {
        &&& self.pager.wf()
        &&& self.root_page_num == 0
        &&& self.pager.num_pages >= 1
    }

    /// The root page's current content.
    pub open spec fn root(self) -> Seq<u8> {
        self.pager.page_view(self.root_page_num as int)
    }

    /// Number of children of the internal root: its key count plus one.
    pub open spec fn child_count(self) -> int {
        spec_internal_num_keys(self.root()) as int + 1
    }

    /// Page number of child `i` of the internal root: a keyed cell's child
    /// below the key count, the rightmost child at it.
    pub open spec fn child_page(self, i: int) -> int {
        if i < spec_internal_num_keys(self.root()) {
            spec_internal_child(self.root(), i) as int
        } else {
            spec_internal_right_child(self.root()) as int
        }
    }

    /// Content of child `i` of the internal root.
    pub open spec fn child(self, i: int) -> Seq<u8> {
        self.pager.page_view(self.child_page(i))
    }

    /// A single-leaf tree: the root is a well-formed root leaf with no
    /// sibling.
    pub open spec fn wf_leaf_root(self) -> bool {
        &&& wf_leaf_page(self.root())
        &&& spec_is_root(self.root())
        &&& spec_leaf_next(self.root()) == 0
    }

    /// A two-level tree: the root is internal; every child is a non-empty,
    /// non-root leaf whose parent pointer names the root; each separator key
    /// is the greatest key of its child; keys are partitioned across
    /// children in ascending order; the children form the sibling chain in
    /// child order; no two children share a page.
    pub open spec fn wf_internal_root(self) -> bool {
        &&& wf_internal_page(self.root())
        &&& spec_is_root(self.root())
        &&& 1 <= spec_internal_num_keys(self.root())
        &&& forall|i: int|
            0 <= i < self.child_count() ==> {
                &&& 0 < #[trigger] self.child_page(i) < self.pager.num_pages
                &&& wf_leaf_page(self.child(i))
                &&& !spec_is_root(self.child(i))
                &&& spec_parent(self.child(i)) == self.root_page_num
                &&& 1 <= spec_leaf_num_cells(self.child(i))
            }
        &&& forall|i: int|
            0 <= i < spec_internal_num_keys(self.root()) ==> #[trigger] spec_internal_key(
                self.root(),
                i,
            ) == spec_node_max_key(self.child(i))
        &&& forall|i: int, k: int|
            0 <= i < self.child_count() && 0 < i && 0 <= k < spec_leaf_num_cells(self.child(i))
                ==> #[trigger] spec_leaf_key(self.child(i), k) > spec_internal_key(
                self.root(),
                i - 1,
            )
        &&& forall|i: int|
            0 <= i < self.child_count() - 1 ==> spec_leaf_next(#[trigger] self.child(i))
                == self.child_page(i + 1)
        &&& spec_leaf_next(self.child(self.child_count() - 1)) == 0
        &&& forall|i: int, j: int|
            0 <= i < j < self.child_count() ==> #[trigger] self.child_page(i)
                != #[trigger] self.child_page(j)
    }

    /// `other` shows the same table as `self`: same root, same page count,
    /// same file image, and the same content on every page. Materializing a
    /// page in memory preserves this relation.
    pub open spec fn same_state(self, other: Table) -> bool {
        &&& other.pager.wf()
        &&& other.root_page_num == self.root_page_num
        &&& other.pager.num_pages == self.pager.num_pages
        &&& other.pager.file_bytes == self.pager.file_bytes
        &&& other.pager.file_length == self.pager.file_length
        &&& forall|i: int|
            0 <= i < TABLE_MAX_PAGES ==> other.pager.page_view(i) == self.pager.page_view(i)
    }

    /// The whole tree is well-formed.
    pub open spec fn wf(self) -> bool {
        &&& self.wf_base()
        &&& spec_is_leaf(self.root()) ==> self.wf_leaf_root()
        &&& !spec_is_leaf(self.root()) ==> self.wf_internal_root()
    }

    /// Two tables showing the same state are equally well-formed.
    pub proof fn lemma_same_state_wf(a: Table, b: Table)
        requires
            a.wf(),
            a.same_state(b),
        ensures
            b.wf(),
            b.root() == a.root(),
            forall|i: int| #[trigger] b.child_page(i) == a.child_page(i),
            forall|i: int|
                0 <= i < a.child_count() && !spec_is_leaf(a.root()) ==> #[trigger] b.child(i)
                    == a.child(i),
    {
        assert(b.root() == a.root());
        assert forall|i: int| #[trigger] b.child_page(i) == a.child_page(i) by {}
        if !spec_is_leaf(a.root()) {
            assert forall|i: int| 0 <= i < a.child_count() implies #[trigger] b.child(i)
                == a.child(i) by {
                assert(0 < a.child_page(i) < a.pager.num_pages);
                assert(b.pager.page_view(a.child_page(i)) == a.pager.page_view(a.child_page(i)));
            }
            assert(b.wf_internal_root());
        }
    }

    /// Open a table over the backing file's byte image. An empty file gets
    /// page 0 initialized as an empty root leaf; a file whose length is not
    /// a whole number of pages is rejected as corrupt.
    pub fn db_open(file_bytes: Vec<u8>) -> (r: DbResult<Table>)
        ensures
            r is Ok <==> (file_bytes@.len() as int % (PAGE_SIZE as int) == 0
                && file_bytes@.len() as int / (PAGE_SIZE as int) <= TABLE_MAX_PAGES),
            file_bytes@.len() as int % (PAGE_SIZE as int) != 0 ==> r is Err
                && r->Err_0 is Corruption,
            r is Ok ==> {
                let t = r->Ok_0;
                &&& t.wf_base()
                &&& t.pager.file_bytes == file_bytes
                &&& (file_bytes@.len() == 0 ==> {
                    &&& t.pager.num_pages == 1
                    &&& t.wf()
                    &&& spec_is_leaf(t.root())
                    &&& spec_leaf_num_cells(t.root()) == 0
                })
                &&& (file_bytes@.len() > 0 ==> {
                    &&& t.pager.num_pages == file_bytes@.len() as int / (PAGE_SIZE as int)
                    &&& forall|i: int|
                        0 <= i < t.pager.num_pages ==> t.pager.page_view(i) == file_bytes@.subrange(
                            i * (PAGE_SIZE as int),
                            (i + 1) * (PAGE_SIZE as int),
                        )
                })
            },
    {
        let mut pager = match Pager::new(file_bytes) {
            Ok(p) => p,
            Err(e) => {
                return Err(e);
            },
        };
        if pager.num_pages == 0 {
            if let Err(e) = pager.get_page(0) {
                return Err(e);
            }
            initialize_leaf_node(&mut pager.pages[0]);
            let ghost s1 = pager.pages@[0]@;
            set_node_root(&mut pager.pages[0], true);
            proof {
                let s2 = pager.pages@[0]@;
                lemma_u32_at_frame(s1, s2, 1, 2, LEAF_NODE_NUM_CELLS_OFFSET as int);
                lemma_u32_at_frame(s1, s2, 1, 2, LEAF_NODE_NEXT_LEAF_OFFSET as int);
            }
        }
        Ok(Table { pager, root_page_num: 0 })
    }

    /// Grow the tree by one level: copy the old root's contents into a
    /// freshly allocated page (the new left child) and re-initialize the
    /// root page in place as an internal node with one key (the left child's
    /// greatest key) and two children. The root page number never changes.
    pub fn create_new_root(&mut self, right_child_page_num: usize) -> (r: DbResult<()>)
        requires
            old(self).wf_base(),
            0 < right_child_page_num < old(self).pager.num_pages,
            spec_is_leaf(old(self).root()) ==> 1 <= spec_leaf_num_cells(old(self).root())
                <= LEAF_NODE_MAX_CELLS,
            !spec_is_leaf(old(self).root()) ==> 1 <= spec_internal_num_keys(old(self).root())
                <= INTERNAL_NODE_MAX_CELLS,
        ensures
            final(self).root_page_num == old(self).root_page_num,
            final(self).pager.file_bytes == old(self).pager.file_bytes,
            final(self).pager.file_length == old(self).pager.file_length,
            r is Ok <==> old(self).pager.num_pages < TABLE_MAX_PAGES,
            r is Err ==> r->Err_0 is PageOutOfBounds && final(self).pager.wf()
                && forall|i: int|
                0 <= i < TABLE_MAX_PAGES ==> final(self).pager.page_view(i) == old(
                    self,
                ).pager.page_view(i),
            r is Ok ==> ({
                let left = old(self).pager.num_pages as int;
                let t = *final(self);
                let old_root = old(self).root();
                &&& t.pager.wf()
                &&& t.pager.num_pages == left + 1
                // the root page is now an internal node with one key and two children
                &&& !spec_is_leaf(t.root())
                &&& spec_is_root(t.root())
                &&& spec_internal_num_keys(t.root()) == 1
                &&& spec_internal_child(t.root(), 0) == left
                &&& spec_internal_key(t.root(), 0) == spec_node_max_key(old_root)
                &&& spec_internal_right_child(t.root()) == right_child_page_num
                // the left child holds the old root's contents, root flag cleared
                &&& t.pager.page_view(left)[NODE_TYPE_OFFSET as int] == old_root[NODE_TYPE_OFFSET as int]
                &&& !spec_is_root(t.pager.page_view(left))
                &&& spec_parent(t.pager.page_view(left)) == old(self).root_page_num
                &&& forall|b: int|
                    COMMON_NODE_HEADER_SIZE <= b < PAGE_SIZE ==> t.pager.page_view(left)[b]
                        == old_root[b]
                // the right child's parent pointer now names the root
                &&& spec_parent(t.pager.page_view(right_child_page_num as int)) == old(
                    self,
                ).root_page_num
                &&& bytes_eq_except(
                    old(self).pager.page_view(right_child_page_num as int),
                    t.pager.page_view(right_child_page_num as int),
                    PARENT_POINTER_OFFSET as int,
                    PARENT_POINTER_OFFSET as int + 4,
                )
                // every other page is untouched
                &&& forall|i: int|
                    0 <= i < TABLE_MAX_PAGES && i != 0 && i != left && i != right_child_page_num
                        ==> t.pager.page_view(i) == old(self).pager.page_view(i)
            }),
    {
        proof {
            lemma_layout_constants();
        }
        let root_page_num = self.root_page_num;
        if let Err(e) = self.pager.get_page(root_page_num) {
            return Err(e);
        }
        if let Err(e) = self.pager.get_page(right_child_page_num) {
            return Err(e);
        }
        let left_child_page_num = self.pager.get_unused_page_num();
        if left_child_page_num >= TABLE_MAX_PAGES {
            return Err(DbError::PageOutOfBounds);
        }
        if let Err(e) = self.pager.get_page(left_child_page_num) {
            return Err(e);
        }
        let ghost rootv = old(self).root();
        proof {
            assert(self.pager.page_view(root_page_num as int) == rootv);
            assert(self.pager.pages@[root_page_num as int]@ == rootv);
        }
        // Left child receives the old root's full byte contents.
        let root_copy = read_bytes(&self.pager.pages[root_page_num], 0, PAGE_SIZE);
        proof {
            assert(root_copy@ =~= rootv);
        }
        write_bytes_at(&mut self.pager.pages[left_child_page_num], 0, &root_copy);
        let ghost lw = self.pager.pages@[left_child_page_num as int]@;
        proof {
            assert(lw =~= rootv);
        }
        set_node_root(&mut self.pager.pages[left_child_page_num], false);
        let ghost l1 = self.pager.pages@[left_child_page_num as int]@;
        proof {
            lemma_u32_at_frame(lw, l1, 1, 2, LEAF_NODE_NUM_CELLS_OFFSET as int);
            if spec_is_leaf(rootv) {
                lemma_u32_at_frame(
                    lw,
                    l1,
                    1,
                    2,
                    spec_leaf_cell_off(spec_leaf_num_cells(rootv) as int - 1),
                );
            } else {
                lemma_u32_at_frame(
                    lw,
                    l1,
                    1,
                    2,
                    spec_internal_cell_off(spec_internal_num_keys(rootv) as int - 1)
                        + INTERNAL_NODE_CHILD_SIZE as int,
                );
            }
            assert(spec_node_max_key(l1) == spec_node_max_key(rootv));
        }
        let left_child_max_key = get_node_max_key(&self.pager.pages[left_child_page_num]);
        // The root page becomes a fresh internal node over the two children.
        initialize_internal_node(&mut self.pager.pages[root_page_num]);
        let ghost r0 = self.pager.pages@[root_page_num as int]@;
        set_node_root(&mut self.pager.pages[root_page_num], true);
        let ghost r1 = self.pager.pages@[root_page_num as int]@;
        set_internal_node_num_keys(&mut self.pager.pages[root_page_num], 1);
        let ghost r2 = self.pager.pages@[root_page_num as int]@;
        set_internal_node_cell(
            &mut self.pager.pages[root_page_num],
            0,
            left_child_page_num as u32,
            left_child_max_key,
        );
        let ghost r3 = self.pager.pages@[root_page_num as int]@;
        set_internal_node_right_child(
            &mut self.pager.pages[root_page_num],
            right_child_page_num as u32,
        );
        let ghost r4 = self.pager.pages@[root_page_num as int]@;
        proof {
            lemma_layout_constants();
            // the root's discriminator and flag bytes survive the later field writes
            assert(r4[NODE_TYPE_OFFSET as int] == r0[NODE_TYPE_OFFSET as int]);
            assert(r4[IS_ROOT_OFFSET as int] == r1[IS_ROOT_OFFSET as int]);
            lemma_u32_at_frame(
                r2,
                r3,
                spec_internal_cell_off(0),
                spec_internal_cell_off(1),
                INTERNAL_NODE_NUM_KEYS_OFFSET as int,
            );
            lemma_u32_at_frame(
                r3,
                r4,
                INTERNAL_NODE_RIGHT_CHILD_OFFSET as int,
                INTERNAL_NODE_RIGHT_CHILD_OFFSET as int + 4,
                INTERNAL_NODE_NUM_KEYS_OFFSET as int,
            );
            assert(spec_internal_num_keys(r4) == 1);
            lemma_u32_at_frame(
                r3,
                r4,
                INTERNAL_NODE_RIGHT_CHILD_OFFSET as int,
                INTERNAL_NODE_RIGHT_CHILD_OFFSET as int + 4,
                spec_internal_cell_off(0),
            );
            lemma_u32_at_frame(
                r3,
                r4,
                INTERNAL_NODE_RIGHT_CHILD_OFFSET as int,
                INTERNAL_NODE_RIGHT_CHILD_OFFSET as int + 4,
                spec_internal_cell_off(0) + INTERNAL_NODE_CHILD_SIZE as int,
            );
            assert(spec_internal_child(r4, 0) == left_child_page_num);
            assert(spec_internal_key(r4, 0) == left_child_max_key);
        }
        set_node_parent(&mut self.pager.pages[left_child_page_num], root_page_num as u32);
        let ghost l2 = self.pager.pages@[left_child_page_num as int]@;
        set_node_parent(&mut self.pager.pages[right_child_page_num], root_page_num as u32);
        proof {
            // the left child agrees with the old root on the discriminator
            // byte and on everything after the common header
            assert(l2[NODE_TYPE_OFFSET as int] == rootv[NODE_TYPE_OFFSET as int]);
            assert(!spec_is_root(l2));
            assert forall|b: int|
                COMMON_NODE_HEADER_SIZE <= b < PAGE_SIZE implies l2[b] == rootv[b] by {
                assert(lw[b] == rootv[b]);
                assert(l1[b] == lw[b]);
            }
        }
        Ok(())
    }

    /// Add a new child/key pair to an internal node, keyed by the child's
    /// greatest key. A child beyond the current rightmost child becomes the
    /// new rightmost child, demoting the old one into a keyed cell; any
    /// other child is spliced in at its sorted position. A node already at
    /// capacity reports the unimplemented internal split.
    #[verifier::rlimit(60)]
    pub fn internal_node_insert(&mut self, parent_page_num: usize, child_page_num: usize) -> (r:
        DbResult<()>)
        requires
            old(self).wf_base(),
            parent_page_num < old(self).pager.num_pages,
            child_page_num < old(self).pager.num_pages,
            child_page_num != parent_page_num,
            wf_internal_page(old(self).pager.page_view(parent_page_num as int)),
            node_has_max_key(old(self).pager.page_view(child_page_num as int)),
            spec_internal_right_child(old(self).pager.page_view(parent_page_num as int))
                < old(self).pager.num_pages,
            spec_internal_right_child(old(self).pager.page_view(parent_page_num as int))
                != parent_page_num,
            node_has_max_key(
                old(self).pager.page_view(
                    spec_internal_right_child(
                        old(self).pager.page_view(parent_page_num as int),
                    ) as int,
                ),
            ),
        ensures
            final(self).root_page_num == old(self).root_page_num,
            final(self).pager.wf(),
            final(self).pager.file_bytes == old(self).pager.file_bytes,
            final(self).pager.file_length == old(self).pager.file_length,
            final(self).pager.num_pages == old(self).pager.num_pages,
            forall|i: int|
                0 <= i < TABLE_MAX_PAGES && i != parent_page_num ==> final(self).pager.page_view(i)
                    == old(self).pager.page_view(i),
            r is Err <==> spec_internal_num_keys(old(self).pager.page_view(parent_page_num as int))
                >= INTERNAL_NODE_MAX_CELLS,
            r is Err ==> r->Err_0 is UnimplementedInternalSplit && final(self).pager.page_view(
                parent_page_num as int,
            ) == old(self).pager.page_view(parent_page_num as int),
            r is Ok ==> ({
                let p = old(self).pager.page_view(parent_page_num as int);
                let q = final(self).pager.page_view(parent_page_num as int);
                let nk = spec_internal_num_keys(p) as int;
                let ck = spec_node_max_key(old(self).pager.page_view(child_page_num as int));
                let rc = spec_internal_right_child(p) as int;
                let rmax = spec_node_max_key(old(self).pager.page_view(rc));
                &&& spec_internal_num_keys(q) == nk + 1
                &&& bytes_eq_except(
                    p,
                    q,
                    INTERNAL_NODE_NUM_KEYS_OFFSET as int,
                    spec_internal_cell_off(nk + 1),
                )
                &&& (ck > rmax ==> spec_internal_appended(p, q, rmax, child_page_num as int))
                &&& (ck <= rmax ==> exists|w: int|
                    spec_internal_spliced(p, q, ck, child_page_num as int, w))
            }),
    {
        proof {
            lemma_layout_constants();
        }
        if let Err(e) = self.pager.get_page(parent_page_num) {
            return Err(e);
        }
        if let Err(e) = self.pager.get_page(child_page_num) {
            return Err(e);
        }
        let child_max_key = get_node_max_key(&self.pager.pages[child_page_num]);
        let index = internal_node_find_child(&self.pager.pages[parent_page_num], child_max_key);
        let original_num_keys = internal_node_num_keys(&self.pager.pages[parent_page_num]);
        if original_num_keys as usize >= INTERNAL_NODE_MAX_CELLS {
            return Err(DbError::UnimplementedInternalSplit);
        }
        let right_child_page_num = internal_node_right_child(
            &self.pager.pages[parent_page_num],
        ) as usize;
        if let Err(e) = self.pager.get_page(right_child_page_num) {
            return Err(e);
        }
        let right_max = get_node_max_key(&self.pager.pages[right_child_page_num]);
        let ghost p = old(self).pager.page_view(parent_page_num as int);
        let ghost nk = spec_internal_num_keys(p) as int;
        proof {
            assert(self.pager.pages@[parent_page_num as int]@ == p);
            assert(self.pager.page_view(child_page_num as int) == old(self).pager.page_view(
                child_page_num as int,
            ));
            assert(child_max_key == spec_node_max_key(
                old(self).pager.page_view(child_page_num as int),
            ));
            assert(right_child_page_num == spec_internal_right_child(p));
            assert(right_max == spec_node_max_key(
                old(self).pager.page_view(right_child_page_num as int),
            ));
        }
        if child_max_key > right_max {
            // The new child becomes the rightmost child; the old rightmost
            // child is demoted into the last keyed cell.
            set_internal_node_cell(
                &mut self.pager.pages[parent_page_num],
                original_num_keys as usize,
                right_child_page_num as u32,
                right_max,
            );
            let ghost s1 = self.pager.pages@[parent_page_num as int]@;
            set_internal_node_right_child(
                &mut self.pager.pages[parent_page_num],
                child_page_num as u32,
            );
            let ghost s2 = self.pager.pages@[parent_page_num as int]@;
            set_internal_node_num_keys(&mut self.pager.pages[parent_page_num], original_num_keys + 1);
            proof {
                let q = self.pager.pages@[parent_page_num as int]@;
                assert forall|j: int| 0 <= j < nk implies #[trigger] spec_internal_child(q, j)
                    == spec_internal_child(p, j) && spec_internal_key(q, j) == spec_internal_key(
                    p,
                    j,
                ) by {
                    lemma_u32_at_frame(
                        p,
                        s1,
                        spec_internal_cell_off(nk),
                        spec_internal_cell_off(nk + 1),
                        spec_internal_cell_off(j),
                    );
                    lemma_u32_at_frame(
                        p,
                        s1,
                        spec_internal_cell_off(nk),
                        spec_internal_cell_off(nk + 1),
                        spec_internal_cell_off(j) + INTERNAL_NODE_CHILD_SIZE as int,
                    );
                    lemma_u32_at_frame(
                        s1,
                        s2,
                        INTERNAL_NODE_RIGHT_CHILD_OFFSET as int,
                        INTERNAL_NODE_RIGHT_CHILD_OFFSET as int + 4,
                        spec_internal_cell_off(j),
                    );
                    lemma_u32_at_frame(
                        s1,
                        s2,
                        INTERNAL_NODE_RIGHT_CHILD_OFFSET as int,
                        INTERNAL_NODE_RIGHT_CHILD_OFFSET as int + 4,
                        spec_internal_cell_off(j) + INTERNAL_NODE_CHILD_SIZE as int,
                    );
                    lemma_u32_at_frame(
                        s2,
                        q,
                        INTERNAL_NODE_NUM_KEYS_OFFSET as int,
                        INTERNAL_NODE_NUM_KEYS_OFFSET as int + 4,
                        spec_internal_cell_off(j),
                    );
                    lemma_u32_at_frame(
                        s2,
                        q,
                        INTERNAL_NODE_NUM_KEYS_OFFSET as int,
                        INTERNAL_NODE_NUM_KEYS_OFFSET as int + 4,
                        spec_internal_cell_off(j) + INTERNAL_NODE_CHILD_SIZE as int,
                    );
                }
                lemma_u32_at_frame(
                    s1,
                    s2,
                    INTERNAL_NODE_RIGHT_CHILD_OFFSET as int,
                    INTERNAL_NODE_RIGHT_CHILD_OFFSET as int + 4,
                    spec_internal_cell_off(nk),
                );
                lemma_u32_at_frame(
                    s1,
                    s2,
                    INTERNAL_NODE_RIGHT_CHILD_OFFSET as int,
                    INTERNAL_NODE_RIGHT_CHILD_OFFSET as int + 4,
                    spec_internal_cell_off(nk) + INTERNAL_NODE_CHILD_SIZE as int,
                );
                lemma_u32_at_frame(
                    s2,
                    q,
                    INTERNAL_NODE_NUM_KEYS_OFFSET as int,
                    INTERNAL_NODE_NUM_KEYS_OFFSET as int + 4,
                    spec_internal_cell_off(nk),
                );
                lemma_u32_at_frame(
                    s2,
                    q,
                    INTERNAL_NODE_NUM_KEYS_OFFSET as int,
                    INTERNAL_NODE_NUM_KEYS_OFFSET as int + 4,
                    spec_internal_cell_off(nk) + INTERNAL_NODE_CHILD_SIZE as int,
                );
                lemma_u32_at_frame(
                    s2,
                    q,
                    INTERNAL_NODE_NUM_KEYS_OFFSET as int,
                    INTERNAL_NODE_NUM_KEYS_OFFSET as int + 4,
                    INTERNAL_NODE_RIGHT_CHILD_OFFSET as int,
                );
                assert(spec_internal_appended(
                    p,
                    q,
                    spec_node_max_key(
                        old(self).pager.page_view(spec_internal_right_child(p) as int),
                    ),
                    child_page_num as int,
                ));
            }
        } else {
            // Splice the new cell in at its sorted position.
            let mut i: usize = original_num_keys as usize;
            while i > index as usize
                invariant
                    self.root_page_num == old(self).root_page_num,
                    index <= i <= nk,
                    nk == spec_internal_num_keys(p),
                    nk < INTERNAL_NODE_MAX_CELLS,
                    self.pager.wf(),
                    parent_page_num < TABLE_MAX_PAGES,
                    self.pager.pages@[parent_page_num as int]@.len() == PAGE_SIZE,
                    p.len() == PAGE_SIZE,
                    forall|q: int|
                        0 <= q < TABLE_MAX_PAGES && q != parent_page_num ==> self.pager.page_view(
                            q,
                        ) == old(self).pager.page_view(q),
                    self.pager.file_bytes == old(self).pager.file_bytes,
                    self.pager.file_length == old(self).pager.file_length,
                    self.pager.num_pages == old(self).pager.num_pages,
                    ({
                        let s = self.pager.pages@[parent_page_num as int]@;
                        &&& bytes_eq_except(
                            p,
                            s,
                            spec_internal_cell_off(index as int + 1),
                            spec_internal_cell_off(nk + 1),
                        )
                        &&& (forall|j: int|
                            0 <= j <= i ==> #[trigger] spec_internal_child(s, j)
                                == spec_internal_child(p, j) && spec_internal_key(s, j)
                                == spec_internal_key(p, j))
                        &&& (forall|j: int|
                            i < j <= nk ==> #[trigger] spec_internal_child(s, j)
                                == spec_internal_child(p, j - 1) && spec_internal_key(s, j)
                                == spec_internal_key(p, j - 1))
                    }),
                decreases i,
            {
                let ghost entry = *self;
                let ghost s_before = self.pager.pages@[parent_page_num as int]@;
                copy_internal_node_cell(&mut self.pager.pages[parent_page_num], i, i - 1);
                proof {
                    lemma_layout_constants();
                    let s = self.pager.pages@[parent_page_num as int]@;
                    assert forall|q: int|
                        0 <= q < TABLE_MAX_PAGES && q != parent_page_num implies self.pager.page_view(
                        q,
                    ) == old(self).pager.page_view(q) by {
                        assert(self.pager.pages@[q] == entry.pager.pages@[q]);
                        assert(self.pager.page_view(q) == entry.pager.page_view(q));
                    }
                    assert(self.pager.pages@ == entry.pager.pages@.update(
                        parent_page_num as int,
                        self.pager.pages@[parent_page_num as int],
                    ));
                    assert forall|q: int|
                        0 <= q < TABLE_MAX_PAGES implies (#[trigger] self.pager.pages@[q]@.len()
                        == 0 || self.pager.pages@[q]@.len() == PAGE_SIZE) by {
                        if q != parent_page_num {
                            assert(self.pager.pages@[q] == entry.pager.pages@[q]);
                        }
                    }
                    assert forall|q: int|
                        0 <= q < TABLE_MAX_PAGES && #[trigger] self.pager.pages@[q]@.len()
                        == PAGE_SIZE implies q < self.pager.num_pages by {
                        if q != parent_page_num {
                            assert(self.pager.pages@[q] == entry.pager.pages@[q]);
                        }
                    }
                    assert forall|b: int|
                        0 <= b < PAGE_SIZE && !(spec_internal_cell_off(index as int + 1) <= b
                            < spec_internal_cell_off(nk + 1)) implies p[b] == s[b] by {
                        lemma_internal_cell_off(index as int + 1);
                        lemma_internal_cell_off(i as int);
                        lemma_internal_cell_off(i as int + 1);
                        lemma_internal_cell_off(nk + 1);
                        assert(p[b] == s_before[b]);
                        assert(s_before[b] == s[b]);
                    }
                    assert forall|j: int| 0 <= j <= i - 1 implies #[trigger] spec_internal_child(
                        s,
                        j,
                    ) == spec_internal_child(p, j) && spec_internal_key(s, j)
                        == spec_internal_key(p, j) by {
                        assert(spec_internal_child(s_before, j) == spec_internal_child(p, j));
                        assert(spec_internal_key(s_before, j) == spec_internal_key(p, j));
                        lemma_u32_at_frame(
                            s_before,
                            s,
                            spec_internal_cell_off(i as int),
                            spec_internal_cell_off(i as int + 1),
                            spec_internal_cell_off(j),
                        );
                        lemma_u32_at_frame(
                            s_before,
                            s,
                            spec_internal_cell_off(i as int),
                            spec_internal_cell_off(i as int + 1),
                            spec_internal_cell_off(j) + INTERNAL_NODE_CHILD_SIZE as int,
                        );
                    }
                    assert forall|j: int| i as int - 1 < j <= nk implies #[trigger] spec_internal_child(
                        s,
                        j,
                    ) == spec_internal_child(p, j - 1) && spec_internal_key(s, j)
                        == spec_internal_key(p, j - 1) by {
                        if j == i {
                            assert(spec_internal_child(s_before, i as int - 1)
                                == spec_internal_child(p, i as int - 1));
                            assert(spec_internal_key(s_before, i as int - 1)
                                == spec_internal_key(p, i as int - 1));
                        }
                        if j > i {
                            assert(spec_internal_child(s_before, j) == spec_internal_child(
                                p,
                                j - 1,
                            ));
                            assert(spec_internal_key(s_before, j) == spec_internal_key(p, j - 1));
                            lemma_u32_at_frame(
                                s_before,
                                s,
                                spec_internal_cell_off(i as int),
                                spec_internal_cell_off(i as int + 1),
                                spec_internal_cell_off(j),
                            );
                            lemma_u32_at_frame(
                                s_before,
                                s,
                                spec_internal_cell_off(i as int),
                                spec_internal_cell_off(i as int + 1),
                                spec_internal_cell_off(j) + INTERNAL_NODE_CHILD_SIZE as int,
                            );
                        }
                    }
                }
                i = i - 1;
            }
            let ghost s1 = self.pager.pages@[parent_page_num as int]@;
            set_internal_node_cell(
                &mut self.pager.pages[parent_page_num],
                index as usize,
                child_page_num as u32,
                child_max_key,
            );
            let ghost s2 = self.pager.pages@[parent_page_num as int]@;
            set_internal_node_num_keys(&mut self.pager.pages[parent_page_num], original_num_keys + 1);
            proof {
                let q = self.pager.pages@[parent_page_num as int]@;
                let idx = index as int;
                assert forall|j: int| 0 <= j < idx implies #[trigger] spec_internal_child(q, j)
                    == spec_internal_child(p, j) && spec_internal_key(q, j) == spec_internal_key(
                    p,
                    j,
                ) by {
                    assert(spec_internal_child(s1, j) == spec_internal_child(p, j));
                    assert(spec_internal_key(s1, j) == spec_internal_key(p, j));
                    lemma_u32_at_frame(
                        s1,
                        s2,
                        spec_internal_cell_off(idx),
                        spec_internal_cell_off(idx + 1),
                        spec_internal_cell_off(j),
                    );
                    lemma_u32_at_frame(
                        s1,
                        s2,
                        spec_internal_cell_off(idx),
                        spec_internal_cell_off(idx + 1),
                        spec_internal_cell_off(j) + INTERNAL_NODE_CHILD_SIZE as int,
                    );
                    lemma_u32_at_frame(
                        s2,
                        q,
                        INTERNAL_NODE_NUM_KEYS_OFFSET as int,
                        INTERNAL_NODE_NUM_KEYS_OFFSET as int + 4,
                        spec_internal_cell_off(j),
                    );
                    lemma_u32_at_frame(
                        s2,
                        q,
                        INTERNAL_NODE_NUM_KEYS_OFFSET as int,
                        INTERNAL_NODE_NUM_KEYS_OFFSET as int + 4,
                        spec_internal_cell_off(j) + INTERNAL_NODE_CHILD_SIZE as int,
                    );
                }
                assert forall|j: int| idx < j <= nk implies #[trigger] spec_internal_child(q, j)
                    == spec_internal_child(p, j - 1) && spec_internal_key(q, j)
                    == spec_internal_key(p, j - 1) by {
                    assert(spec_internal_child(s1, j) == spec_internal_child(p, j - 1));
                    assert(spec_internal_key(s1, j) == spec_internal_key(p, j - 1));
                    lemma_u32_at_frame(
                        s1,
                        s2,
                        spec_internal_cell_off(idx),
                        spec_internal_cell_off(idx + 1),
                        spec_internal_cell_off(j),
                    );
                    lemma_u32_at_frame(
                        s1,
                        s2,
                        spec_internal_cell_off(idx),
                        spec_internal_cell_off(idx + 1),
                        spec_internal_cell_off(j) + INTERNAL_NODE_CHILD_SIZE as int,
                    );
                    lemma_u32_at_frame(
                        s2,
                        q,
                        INTERNAL_NODE_NUM_KEYS_OFFSET as int,
                        INTERNAL_NODE_NUM_KEYS_OFFSET as int + 4,
                        spec_internal_cell_off(j),
                    );
                    lemma_u32_at_frame(
                        s2,
                        q,
                        INTERNAL_NODE_NUM_KEYS_OFFSET as int,
                        INTERNAL_NODE_NUM_KEYS_OFFSET as int + 4,
                        spec_internal_cell_off(j) + INTERNAL_NODE_CHILD_SIZE as int,
                    );
                }
                lemma_u32_at_frame(
                    s2,
                    q,
                    INTERNAL_NODE_NUM_KEYS_OFFSET as int,
                    INTERNAL_NODE_NUM_KEYS_OFFSET as int + 4,
                    spec_internal_cell_off(idx),
                );
                lemma_u32_at_frame(
                    s2,
                    q,
                    INTERNAL_NODE_NUM_KEYS_OFFSET as int,
                    INTERNAL_NODE_NUM_KEYS_OFFSET as int + 4,
                    spec_internal_cell_off(idx) + INTERNAL_NODE_CHILD_SIZE as int,
                );
                lemma_u32_at_frame(
                    p,
                    s1,
                    spec_internal_cell_off(idx + 1),
                    spec_internal_cell_off(nk + 1),
                    INTERNAL_NODE_RIGHT_CHILD_OFFSET as int,
                );
                lemma_u32_at_frame(
                    s1,
                    s2,
                    spec_internal_cell_off(idx),
                    spec_internal_cell_off(idx + 1),
                    INTERNAL_NODE_RIGHT_CHILD_OFFSET as int,
                );
                lemma_u32_at_frame(
                    s2,
                    q,
                    INTERNAL_NODE_NUM_KEYS_OFFSET as int,
                    INTERNAL_NODE_NUM_KEYS_OFFSET as int + 4,
                    INTERNAL_NODE_RIGHT_CHILD_OFFSET as int,
                );

                assert(spec_internal_spliced(
                    p,
                    q,
                    child_max_key,
                    child_page_num as int,
                    idx,
                ));
                let qv = self.pager.page_view(parent_page_num as int);
                let ck = spec_node_max_key(old(self).pager.page_view(child_page_num as int));
                assert(qv == q && ck == child_max_key);
                assert(spec_internal_spliced(p, qv, ck, child_page_num as int, idx));
            }
        }
        Ok(())
    }

    /// The table holds `key` in some leaf.
    pub open spec fn contains(self, key: u32) -> bool {
        if spec_is_leaf(self.root()) {
            exists|j: int|
                0 <= j < spec_leaf_num_cells(self.root()) && spec_leaf_key(self.root(), j) == key
        } else {
            exists|i: int, j: int|
                0 <= i < self.child_count() && 0 <= j < spec_leaf_num_cells(self.child(i))
                    && #[trigger] spec_leaf_key(self.child(i), j) == key
        }
    }

    /// Index of the child of the internal root whose key range admits
    /// `key`: the first cell whose separator is at least `key`, else the
    /// rightmost child.
    pub open spec fn spec_child_index(self, key: u32) -> int {
        spec_find_child_from(self.root(), key, 0)
    }

    /// Inserting `key` has room to succeed: its target leaf has a free
    /// cell, or the pages a split needs stay within the fixed page
    /// capacity (and, for a leaf under the root, the root has room for one
    /// more child).
    pub open spec fn spec_insert_fits(self, key: u32) -> bool {
        if spec_is_leaf(self.root()) {
            spec_leaf_num_cells(self.root()) < LEAF_NODE_MAX_CELLS || self.pager.num_pages + 1
                < TABLE_MAX_PAGES
        } else {
            spec_leaf_num_cells(self.child(self.spec_child_index(key))) < LEAF_NODE_MAX_CELLS
                || (self.pager.num_pages < TABLE_MAX_PAGES && spec_internal_num_keys(self.root())
                < INTERNAL_NODE_MAX_CELLS)
        }
    }

    /// The record payloads of children `i` onward, in child order.
    pub open spec fn spec_rows_from(self, i: int) -> Seq<Seq<u8>>
        decreases self.child_count() - i,
    {
        if i < 0 || i >= self.child_count() {
            Seq::empty()
        } else {
            spec_leaf_values(self.child(i)) + self.spec_rows_from(i + 1)
        }
    }

    /// Every record payload the table stores, in ascending key order: the
    /// root leaf's cells, or the cells of the internal root's children in
    /// child (and hence sibling-chain) order.
    pub open spec fn spec_rows(self) -> Seq<Seq<u8>> {
        if spec_is_leaf(self.root()) {
            spec_leaf_values(self.root())
        } else {
            self.spec_rows_from(0)
        }
    }

    /// Sibling chain law: in a well-formed two-level tree the leaves,
    /// followed from the leftmost child along the "next leaf" pointers,
    /// are exactly the root's children in child order, each visited once,
    /// and every key in an earlier leaf is smaller than every key in a
    /// later one.
    pub proof fn lemma_sibling_chain(self)
        requires
            self.wf(),
            !spec_is_leaf(self.root()),
        ensures
            forall|i: int|
                0 <= i < self.child_count() - 1 ==> spec_leaf_next(#[trigger] self.child(i))
                    == self.child_page(i + 1),
            spec_leaf_next(self.child(self.child_count() - 1)) == 0,
            forall|i: int, j: int|
                0 <= i < j < self.child_count() ==> #[trigger] self.child_page(i)
                    != #[trigger] self.child_page(j),
            forall|i: int, j: int, ki: int, kj: int|
                0 <= i < j < self.child_count() && 0 <= ki < spec_leaf_num_cells(self.child(i))
                    && 0 <= kj < spec_leaf_num_cells(self.child(j)) ==> #[trigger] spec_leaf_key(
                    self.child(i),
                    ki,
                ) < #[trigger] spec_leaf_key(self.child(j), kj),
    {
        let nk = spec_internal_num_keys(self.root()) as int;
        assert forall|i: int, j: int, ki: int, kj: int|
            0 <= i < j < self.child_count() && 0 <= ki < spec_leaf_num_cells(self.child(i))
                && 0 <= kj < spec_leaf_num_cells(self.child(j)) implies #[trigger] spec_leaf_key(
            self.child(i),
            ki,
        ) < #[trigger] spec_leaf_key(self.child(j), kj) by {
            // keys of an earlier child stay at or below its separator
            let ni = spec_leaf_num_cells(self.child(i)) as int;
            assert(spec_internal_key(self.root(), i) == spec_node_max_key(self.child(i)));
            assert(spec_node_max_key(self.child(i)) == spec_leaf_key(self.child(i), ni - 1));
            if ki < ni - 1 {
                assert(spec_leaf_key(self.child(i), ki) < spec_leaf_key(self.child(i), ni - 1));
            }
            // keys of a later child exceed the separator before it
            assert(spec_leaf_key(self.child(j), kj) > spec_internal_key(self.root(), j - 1));
            if i < j - 1 {
                assert(spec_internal_key(self.root(), i) < spec_internal_key(
                    self.root(),
                    j - 1,
                ));
            }
        }
    }

    /// Decide the tree's structural invariants as loaded: the result says
    /// exactly whether this table is well-formed. A caller that opens an
    /// existing, nonempty file runs this before trusting the tree.
    #[verifier::rlimit(100)]
    #[verifier::spinoff_prover]
    pub fn db_validate(&self) -> (r: bool)
        requires
            self.pager.wf(),
        ensures
            r == self.wf(),
    {
        if self.root_page_num != 0 {
            return false;
        }
        if self.pager.num_pages < 1 {
            return false;
        }
        let root = match self.pager.read_page(self.root_page_num) {
            Ok(p) => p,
            Err(_) => {
                proof {
                    assert(false);
                }
                return false;
            },
        };
        proof {
            assert(root@ == self.root());
        }
        match get_node_type(&root) {
            NodeType::NodeLeaf => {
                let n = leaf_node_num_cells(&root);
                if n as usize > LEAF_NODE_MAX_CELLS {
                    return false;
                }
                if !is_node_root(&root) {
                    return false;
                }
                if leaf_node_next_leaf(&root) != 0 {
                    return false;
                }
                if !leaf_keys_sorted(&root, n) {
                    return false;
                }
                proof {
                    assert(self.wf());
                }
                true
            },
            NodeType::NodeInternal => self.validate_internal(&root),
        }
    }

    /// Decide the invariants of a table whose root page is internal.
    #[verifier::rlimit(100)]
    #[verifier::spinoff_prover]
    fn validate_internal(&self, root: &Vec<u8>) -> (r: bool)
        requires
            self.pager.wf(),
            self.root_page_num == 0,
            self.pager.num_pages >= 1,
            root@ == self.root(),
            root@.len() == PAGE_SIZE,
            !spec_is_leaf(root@),
        ensures
            r == self.wf(),
    {
        proof {
            lemma_layout_constants();
        }
        let nk = internal_node_num_keys(root);
        if (nk as usize) < 1 || nk as usize > INTERNAL_NODE_MAX_CELLS {
            return false;
        }
        if !is_node_root(root) {
            return false;
        }
        // separator keys strictly ascending
        let mut i: usize = 1;
        while i < nk as usize
            invariant
                root@ == self.root(),
                root@.len() == PAGE_SIZE,
                !spec_is_leaf(root@),
                nk == spec_internal_num_keys(root@),
                1 <= nk <= INTERNAL_NODE_MAX_CELLS,
                1 <= i,
                forall|a: int, b: int|
                    0 <= a < b < i ==> spec_internal_key(root@, a) < spec_internal_key(root@, b),
            decreases nk as int - i,
        {
            if internal_node_key(root, i - 1) >= internal_node_key(root, i) {
                proof {
                    if self.wf() {
                        assert(spec_internal_key(root@, i as int - 1) < spec_internal_key(
                            root@,
                            i as int,
                        ));
                    }
                }
                return false;
            }
            i = i + 1;
        }
        // each child in turn
        let mut pages: Vec<u32> = Vec::new();
        let mut i: usize = 0;
        while i <= nk as usize
            invariant
                self.pager.wf(),
                self.root_page_num == 0,
                self.pager.num_pages >= 1,
                root@ == self.root(),
                root@.len() == PAGE_SIZE,
                !spec_is_leaf(root@),
                nk == spec_internal_num_keys(root@),
                1 <= nk <= INTERNAL_NODE_MAX_CELLS,
                i <= nk as usize + 1,
                forall|a: int, b: int|
                    0 <= a < b < nk ==> spec_internal_key(root@, a) < spec_internal_key(root@, b),
                pages@.len() == i,
                forall|j: int| 0 <= j < i ==> #[trigger] pages@[j] == self.child_page(j),
                forall|j: int|
                    0 <= j < i ==> {
                        &&& 0 < #[trigger] self.child_page(j) < self.pager.num_pages
                        &&& wf_leaf_page(self.child(j))
                        &&& !spec_is_root(self.child(j))
                        &&& spec_parent(self.child(j)) == self.root_page_num
                        &&& 1 <= spec_leaf_num_cells(self.child(j))
                    },
                forall|j: int|
                    0 <= j < i && j < nk ==> #[trigger] spec_internal_key(root@, j)
                        == spec_node_max_key(self.child(j)),
                forall|j: int, k: int|
                    0 <= j < i && 0 < j && 0 <= k < spec_leaf_num_cells(self.child(j))
                        ==> #[trigger] spec_leaf_key(self.child(j), k) > spec_internal_key(
                        root@,
                        j - 1,
                    ),
                forall|j: int|
                    0 <= j < i && j < nk ==> spec_leaf_next(#[trigger] self.child(j))
                        == self.child_page(j + 1),
                forall|j: int|
                    0 <= j < i && j == nk ==> spec_leaf_next(#[trigger] self.child(j)) == 0,
            decreases nk as int + 1 - i,
        {
            let cp = match internal_node_child(root, i) {
                Ok(c) => c,
                Err(_) => {
                    proof {
                        assert(false);
                    }
                    return false;
                },
            };
            proof {
                assert(cp == self.child_page(i as int));
            }
            if cp == 0 || cp as usize >= self.pager.num_pages {
                proof {
                    if self.wf() {
                        assert(0 < self.child_page(i as int) < self.pager.num_pages);
                    }
                }
                return false;
            }
            let page = match self.pager.read_page(cp as usize) {
                Ok(p) => p,
                Err(_) => {
                    proof {
                        assert(false);
                    }
                    return false;
                },
            };
            proof {
                assert(page@ == self.child(i as int));
            }
            let is_leaf = match get_node_type(&page) {
                NodeType::NodeLeaf => true,
                NodeType::NodeInternal => false,
            };
            if !is_leaf {
                proof {
                    if self.wf() {
                        assert(wf_leaf_page(self.child(i as int)));
                    }
                }
                return false;
            }
            let cn = leaf_node_num_cells(&page);
            if (cn as usize) < 1 || cn as usize > LEAF_NODE_MAX_CELLS {
                proof {
                    if self.wf() {
                        assert(1 <= spec_leaf_num_cells(self.child(i as int)));
                        assert(wf_leaf_page(self.child(i as int)));
                    }
                }
                return false;
            }
            if !leaf_keys_sorted(&page, cn) {
                proof {
                    if self.wf() {
                        assert(wf_leaf_page(self.child(i as int)));
                    }
                }
                return false;
            }
            if is_node_root(&page) {
                proof {
                    if self.wf() {
                        assert(!spec_is_root(self.child(i as int)));
                    }
                }
                return false;
            }
            if node_parent(&page) != 0 {
                proof {
                    if self.wf() {
                        assert(spec_parent(self.child(i as int)) == self.root_page_num);
                    }
                }
                return false;
            }
            if i < nk as usize {
                if internal_node_key(root, i) != leaf_node_key(&page, cn as usize - 1) {
                    proof {
                        if self.wf() {
                            assert(spec_internal_key(root@, i as int) == spec_node_max_key(
                                self.child(i as int),
                            ));
                        }
                    }
                    return false;
                }
            }
            if i > 0 {
                if leaf_node_key(&page, 0) <= internal_node_key(root, i - 1) {
                    proof {
                        if self.wf() {
                            assert(spec_leaf_key(self.child(i as int), 0) > spec_internal_key(
                                root@,
                                i as int - 1,
                            ));
                        }
                    }
                    return false;
                }
            }
            let nxt = leaf_node_next_leaf(&page);
            if i < nk as usize {
                let cp1 = match internal_node_child(root, i + 1) {
                    Ok(c) => c,
                    Err(_) => {
                        proof {
                            assert(false);
                        }
                        return false;
                    },
                };
                if nxt != cp1 {
                    proof {
                        if self.wf() {
                            assert(spec_leaf_next(self.child(i as int)) == self.child_page(
                                i as int + 1,
                            ));
                        }
                    }
                    return false;
                }
            } else {
                if nxt != 0 {
                    proof {
                        if self.wf() {
                            assert(spec_leaf_next(self.child(self.child_count() - 1)) == 0);
                        }
                    }
                    return false;
                }
            }
            pages.push(cp);
            proof {
                // every key of this child tops the separator before it
                if i > 0 {
                    assert forall|k: int|
                        0 <= k < spec_leaf_num_cells(self.child(i as int))
                        implies #[trigger] spec_leaf_key(self.child(i as int), k)
                        > spec_internal_key(root@, i as int - 1) by {
                        if k > 0 {
                            assert(spec_leaf_key(self.child(i as int), 0) < spec_leaf_key(
                                self.child(i as int),
                                k,
                            ));
                        }
                    }
                }
            }
            i = i + 1;
        }
        // no two children share a page
        let mut a: usize = 0;
        while a < pages.len()
            invariant
                root@ == self.root(),
                !spec_is_leaf(root@),
                nk == spec_internal_num_keys(root@),
                pages@.len() == nk as int + 1,
                forall|j: int| 0 <= j < pages@.len() ==> #[trigger] pages@[j] == self.child_page(j),
                a <= pages@.len(),
                forall|x: int, y: int|
                    0 <= x < a && x < y < pages@.len() ==> pages@[x] != pages@[y],
            decreases pages@.len() - a,
        {
            let mut b: usize = a + 1;
            while b < pages.len()
                invariant
                    root@ == self.root(),
                    !spec_is_leaf(root@),
                    nk == spec_internal_num_keys(root@),
                    pages@.len() == nk as int + 1,
                    forall|j: int|
                        0 <= j < pages@.len() ==> #[trigger] pages@[j] == self.child_page(j),
                    a < b <= pages@.len() || a + 1 == b,
                    a < pages@.len(),
                    forall|y: int| a < y < b ==> pages@[a as int] != pages@[y],
                decreases pages@.len() - b,
            {
                if pages[a] == pages[b] {
                    proof {
                        if self.wf() {
                            assert(self.child_page(a as int) != self.child_page(b as int));
                        }
                    }
                    return false;
                }
                b = b + 1;
            }
            a = a + 1;
        }
        proof {
            assert(self.wf_internal_root());
            assert(self.wf());
        }
        true
    }

    /// The printout lines of children `i` onward: each keyed child's leaf
    /// block followed by its separator key, then the rightmost child's
    /// leaf block.
    pub open spec fn spec_children_listing(self, i: int) -> Seq<TreeLine>
        decreases self.child_count() - i,
    {
        if i < 0 || i >= self.child_count() {
            Seq::empty()
        } else if i < spec_internal_num_keys(self.root()) {
            spec_leaf_listing(self.child(i), 1) + seq![
                TreeLine::InternalKey(1, spec_internal_key(self.root(), i)),
            ] + self.spec_children_listing(i + 1)
        } else {
            spec_leaf_listing(self.child(i), 1)
        }
    }

    /// The whole tree's printout: the root leaf's block, or the internal
    /// root's header followed by its children's blocks in child order.
    pub open spec fn spec_tree_listing(self) -> Seq<TreeLine> {
        if spec_is_leaf(self.root()) {
            spec_leaf_listing(self.root(), 0)
        } else {
            seq![
                TreeLine::InternalNode(0, spec_internal_num_keys(self.root())),
            ] + self.spec_children_listing(0)
        }
    }

    /// The tree structure as printable lines, exactly the recursive,
    /// indented walk of the root and its leaves. Read-only.
    #[verifier::rlimit(100)]
    #[verifier::spinoff_prover]
    pub fn tree_listing(&self) -> (r: Vec<TreeLine>)
        requires
            self.wf(),
        ensures
            r@ == self.spec_tree_listing(),
    {
        proof {
            lemma_layout_constants();
        }
        let mut out: Vec<TreeLine> = Vec::new();
        let root = match self.pager.read_page(self.root_page_num) {
            Ok(p) => p,
            Err(_) => {
                proof {
                    assert(false);
                }
                return out;
            },
        };
        proof {
            assert(root@ == self.root());
        }
        match get_node_type(&root) {
            NodeType::NodeLeaf => {
                leaf_listing_into(&mut out, &root, 0);
                proof {
                    assert(out@ =~= self.spec_tree_listing());
                }
                out
            },
            NodeType::NodeInternal => {
                let nk = internal_node_num_keys(&root);
                out.push(TreeLine::InternalNode(0, nk));
                let mut i: usize = 0;
                while i <= nk as usize
                    invariant
                        self.wf(),
                        root@ == self.root(),
                        root@.len() == PAGE_SIZE,
                        !spec_is_leaf(root@),
                        nk == spec_internal_num_keys(root@),
                        nk <= INTERNAL_NODE_MAX_CELLS,
                        i <= nk as usize + 1,
                        out@ + self.spec_children_listing(i as int) =~= self.spec_tree_listing(),
                    decreases nk as int + 1 - i,
                {
                    proof {
                        lemma_layout_constants();
                    }
                    let cp = match internal_node_child(&root, i) {
                        Ok(c) => c,
                        Err(_) => {
                            proof {
                                assert(false);
                            }
                            return out;
                        },
                    };
                    proof {
                        assert(cp == self.child_page(i as int));
                        assert(0 < self.child_page(i as int) < self.pager.num_pages);
                    }
                    let page = match self.pager.read_page(cp as usize) {
                        Ok(p) => p,
                        Err(_) => {
                            proof {
                                assert(false);
                            }
                            return out;
                        },
                    };
                    proof {
                        assert(page@ == self.child(i as int));
                        assert(wf_leaf_page(self.child(i as int)));
                    }
                    let ghost before = out@;
                    leaf_listing_into(&mut out, &page, 1);
                    if i < nk as usize {
                        out.push(TreeLine::InternalKey(1, internal_node_key(&root, i)));
                        proof {
                            assert(self.spec_children_listing(i as int) =~= spec_leaf_listing(
                                self.child(i as int),
                                1,
                            ) + seq![
                                TreeLine::InternalKey(1, spec_internal_key(root@, i as int)),
                            ] + self.spec_children_listing(i as int + 1));
                            assert(out@ + self.spec_children_listing(i as int + 1)
                                =~= self.spec_tree_listing());
                        }
                    } else {
                        proof {
                            assert(self.spec_children_listing(i as int) =~= spec_leaf_listing(
                                self.child(i as int),
                                1,
                            ));
                            assert(self.spec_children_listing(i as int + 1)
                                =~= Seq::<TreeLine>::empty());
                            assert(out@ + self.spec_children_listing(i as int + 1)
                                =~= self.spec_tree_listing());
                        }
                    }
                    i = i + 1;
                }
                proof {
                    assert(self.spec_children_listing(nk as int + 1) =~= Seq::<
                        TreeLine,
                    >::empty());
                    assert(out@ =~= self.spec_tree_listing());
                }
                out
            },
        }
    }

    /// The byte image to write back at close: one buffer per page the table
    /// spans, each holding that page's current content.
    pub fn db_close(&self) -> (r: Vec<Vec<u8>>)
        requires
            self.pager.wf(),
        ensures
            r@.len() == self.pager.num_pages,
            forall|i: int|
                0 <= i < self.pager.num_pages ==> #[trigger] r@[i]@ == self.pager.page_view(i),
    {
        let mut image: Vec<Vec<u8>> = Vec::new();
        let mut i: usize = 0;
        while i < self.pager.num_pages
            invariant
                self.pager.wf(),
                i <= self.pager.num_pages,
                image@.len() == i,
                forall|j: int|
                    0 <= j < i ==> #[trigger] image@[j]@ == self.pager.page_view(j),
            decreases self.pager.num_pages - i,
        {
            let page = match self.pager.read_page(i) {
                Ok(p) => p,
                Err(_) => {
                    proof {
                        // every spanned page number is within capacity
                        assert(false);
                    }
                    Vec::new()
                },
            };
            image.push(page);
            i = i + 1;
        }
        image
    }
}

} // verus!
