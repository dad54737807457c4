//! Page cache: owns every in-memory page buffer and the byte image the
//! backing file had when the table was opened. Pages are materialized
//! lazily; a page never materialized reads as its on-file bytes, or as
//! zeroes beyond the file's end. No tree-level reasoning happens here.

use crate::buf::read_bytes;
use crate::error::{DbError, DbResult};
use crate::{PAGE_SIZE, TABLE_MAX_PAGES};
use vstd::prelude::*;

verus! {

/// The in-memory page cache plus the opening byte image of the backing file.
/// An entry of `pages` is either empty (never materialized) or exactly one
/// page long.
pub struct Pager {
    /// The backing file's bytes as they were at open time.
    pub file_bytes: Vec<u8>,
    /// Length of `file_bytes`; always a whole multiple of the page size.
    pub file_length: usize,
    /// Number of pages the table currently spans.
    pub num_pages: usize,
    /// One slot per possible page: empty until materialized.
    pub pages: Vec<Vec<u8>>,
}

impl Pager {
    /// Structural soundness of the cache.
    pub open spec fn wf(self) -> bool {
        &&& self.file_length == self.file_bytes@.len()
        &&& self.file_length % PAGE_SIZE == 0
        &&& self.pages@.len() == TABLE_MAX_PAGES
        &&& self.num_pages <= TABLE_MAX_PAGES
        &&& self.file_length / PAGE_SIZE <= self.num_pages
        &&& forall|i: int|
            0 <= i < TABLE_MAX_PAGES ==> (#[trigger] self.pages@[i]@.len() == 0
                || self.pages@[i]@.len() == PAGE_SIZE)
        &&& forall|i: int|
            0 <= i < TABLE_MAX_PAGES && #[trigger] self.pages@[i]@.len() == PAGE_SIZE ==> i
                < self.num_pages
    }

    /// Page `i` has an in-memory buffer of its own.
    pub open spec fn materialized(self, i: int) -> bool {
        self.pages@[i]@.len() == PAGE_SIZE
    }

    /// How many whole pages the backing file held at open time.
    pub open spec fn file_num_pages(self) -> int {
        self.file_length as int / PAGE_SIZE as int
    }

    /// An all-zero page.
    pub open spec fn zero_page() -> Seq<u8> {
        Seq::new(PAGE_SIZE as nat, |j: int| 0u8)
    }

    /// The current content of page `i`: its buffer if materialized, else its
    /// on-file bytes, else zeroes. Every page read and write goes through
    /// this view.
    pub open spec fn page_view(self, i: int) -> Seq<u8> {
        if self.materialized(i) {
            self.pages@[i]@
        } else if i < self.file_num_pages() {
            self.file_bytes@.subrange(i * (PAGE_SIZE as int), (i + 1) * (PAGE_SIZE as int))
        } else {
            Self::zero_page()
        }
    }

    /// Every page view is exactly one page long.
    pub proof fn lemma_page_view_len(self, i: int)
        requires
            self.wf(),
            0 <= i < TABLE_MAX_PAGES,
        ensures
            self.page_view(i).len() == PAGE_SIZE,
    {
        if !self.materialized(i) && i < self.file_num_pages() {
            assert(PAGE_SIZE * (i + 1) <= PAGE_SIZE * self.file_num_pages()) by (nonlinear_arith)
                requires
                    i + 1 <= self.file_num_pages(),
                    PAGE_SIZE > 0,
            ;
            assert(self.file_length as int == self.file_num_pages() * (PAGE_SIZE as int)
                + self.file_length as int % (PAGE_SIZE as int));
            assert((i + 1) * (PAGE_SIZE as int) <= self.file_length);
        }
    }

    /// Build a pager over the backing file's byte image. Rejects an image
    /// whose length is not a whole number of pages (corruption), or one
    /// holding more pages than the fixed capacity.
    pub fn new(file_bytes: Vec<u8>) -> (r: DbResult<Pager>)
        ensures
            r is Ok <==> (file_bytes@.len() as int % (PAGE_SIZE as int) == 0 && file_bytes@.len() as int / (PAGE_SIZE as int)
                <= TABLE_MAX_PAGES),
            file_bytes@.len() as int % (PAGE_SIZE as int) != 0 ==> r is Err && r->Err_0 is Corruption,
            (file_bytes@.len() as int % (PAGE_SIZE as int) == 0 && file_bytes@.len() as int / (PAGE_SIZE as int)
                > TABLE_MAX_PAGES) ==> r is Err && r->Err_0 is PageOutOfBounds,
            r is Ok ==> {
                let p = r->Ok_0;
                &&& p.wf()
                &&& p.file_bytes == file_bytes
                &&& p.file_length == file_bytes@.len()
                &&& p.num_pages == file_bytes@.len() as int / (PAGE_SIZE as int)
                &&& forall|i: int| 0 <= i < TABLE_MAX_PAGES ==> !(#[trigger] p.materialized(i))
            },
    {
        let file_length = file_bytes.len();
        if file_length % PAGE_SIZE != 0 {
            return Err(DbError::Corruption);
        }
        let num_pages = file_length / PAGE_SIZE;
        if num_pages > TABLE_MAX_PAGES {
            return Err(DbError::PageOutOfBounds);
        }
        let mut pages: Vec<Vec<u8>> = Vec::new();
        let mut i: usize = 0;
        while i < TABLE_MAX_PAGES
            invariant
                i <= TABLE_MAX_PAGES,
                pages@.len() == i,
                forall|j: int| 0 <= j < i ==> #[trigger] pages@[j]@.len() == 0,
            decreases TABLE_MAX_PAGES - i,
        {
            pages.push(Vec::new());
            i = i + 1;
        }
        Ok(Pager { file_bytes, file_length, num_pages, pages })
    }

    /// A fresh, never-before-used page number: the current page count.
    pub fn get_unused_page_num(&self) -> (r: usize)
        ensures
            r == self.num_pages,
    {
        self.num_pages
    }

    /// Materialize page `page_num` in memory, reading it from the file image
    /// when the file held it and zero-filling it otherwise; extends the page
    /// count when the page number is new. No page's content changes.
    pub fn get_page(&mut self, page_num: usize) -> (r: DbResult<()>)
        requires
            old(self).wf(),
        ensures
            final(self).wf(),
            r is Ok <==> page_num < TABLE_MAX_PAGES,
            r is Err ==> r->Err_0 is PageOutOfBounds && *final(self) == *old(self),
            r is Ok ==> final(self).materialized(page_num as int),
            r is Ok && page_num < old(self).num_pages ==> final(self).num_pages == old(self).num_pages,
            r is Ok && page_num >= old(self).num_pages ==> final(self).num_pages == page_num
                + 1,
            forall|i: int|
                0 <= i < TABLE_MAX_PAGES ==> final(self).page_view(i) == old(self).page_view(i),
            forall|i: int|
                0 <= i < TABLE_MAX_PAGES && old(self).materialized(i) ==> final(self).materialized(i),
            final(self).file_bytes == old(self).file_bytes,
            final(self).file_length == old(self).file_length,
            final(self).num_pages >= old(self).num_pages,
    {
        if page_num >= TABLE_MAX_PAGES {
            return Err(DbError::PageOutOfBounds);
        }
        if self.pages[page_num].len() == 0 {
            // Cache miss: build the buffer this page's view prescribes.
            let file_pages = self.file_length / PAGE_SIZE;
            let page: Vec<u8> = if page_num < file_pages {
                read_bytes(&self.file_bytes, page_num * PAGE_SIZE, PAGE_SIZE)
            } else {
                let mut z: Vec<u8> = Vec::new();
                let mut k: usize = 0;
                while k < PAGE_SIZE
                    invariant
                        k <= PAGE_SIZE,
                        z@ =~= Seq::new(k as nat, |j: int| 0u8),
                    decreases PAGE_SIZE - k,
                {
                    z.push(0u8);
                    k = k + 1;
                }
                z
            };
            proof {
                assert(page@ == old(self).page_view(page_num as int));
            }
            self.pages[page_num] = page;
            if page_num >= self.num_pages {
                self.num_pages = page_num + 1;
            }
        }
        proof {
            assert forall|i: int|
                0 <= i < TABLE_MAX_PAGES implies self.page_view(i) == old(self).page_view(
                i,
            ) by {
                if i != page_num {
                    assert(self.pages@[i] == old(self).pages@[i]);
                }
            }
        }
        Ok(())
    }

    /// Copy the current content of page `page_num` out of the pager without
    /// materializing it.
    pub fn read_page(&self, page_num: usize) -> (r: DbResult<Vec<u8>>)
        requires
            self.wf(),
        ensures
            r is Ok <==> page_num < TABLE_MAX_PAGES,
            r is Err ==> r->Err_0 is PageOutOfBounds,
            r is Ok ==> r->Ok_0@ == self.page_view(page_num as int),
    {
        if page_num >= TABLE_MAX_PAGES {
            return Err(DbError::PageOutOfBounds);
        }
        if self.pages[page_num].len() == PAGE_SIZE {
            Ok(read_bytes(&self.pages[page_num], 0, PAGE_SIZE))
        } else {
            let file_pages = self.file_length / PAGE_SIZE;
            if page_num < file_pages {
                Ok(read_bytes(&self.file_bytes, page_num * PAGE_SIZE, PAGE_SIZE))
            } else {
                let mut z: Vec<u8> = Vec::new();
                let mut k: usize = 0;
                while k < PAGE_SIZE
                    invariant
                        k <= PAGE_SIZE,
                        z@ =~= Seq::new(k as nat, |j: int| 0u8),
                    decreases PAGE_SIZE - k,
                {
                    z.push(0u8);
                    k = k + 1;
                }
                Ok(z)
            }
        }
    }

    /// The bytes to write back for page `page_num`: its materialized buffer.
    /// A page never materialized has nothing to flush and is an error, as it
    /// is for a flush against a missing buffer.
    pub fn pager_flush(&self, page_num: usize) -> (r: DbResult<&Vec<u8>>)
        requires
            self.wf(),
            page_num < TABLE_MAX_PAGES,
        ensures
            r is Ok <==> self.materialized(page_num as int),
            r is Err ==> r->Err_0 is PageNotMaterialized,
            r is Ok ==> r->Ok_0@ == self.page_view(page_num as int),
    {
        if self.pages[page_num].len() == 0 {
            return Err(DbError::PageNotMaterialized);
        }
        Ok(&self.pages[page_num])
    }
}

impl Default for Pager {
    /// An empty pager over an empty file image.
    fn default() -> (r: Pager)
        ensures
            r.wf(),
            r.num_pages == 0,
            r.file_length == 0,
    {
        let mut pages: Vec<Vec<u8>> = Vec::new();
        let mut i: usize = 0;
        while i < TABLE_MAX_PAGES
            invariant
                i <= TABLE_MAX_PAGES,
                pages@.len() == i,
                forall|j: int| 0 <= j < i ==> #[trigger] pages@[j]@.len() == 0,
            decreases TABLE_MAX_PAGES - i,
        {
            pages.push(Vec::new());
            i = i + 1;
        }
        Pager { file_bytes: Vec::new(), file_length: 0, num_pages: 0, pages }
    }
}

} // verus!
