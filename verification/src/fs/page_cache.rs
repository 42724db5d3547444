//! Page cache: file data in memory pages, so that repeated reads and writes hit
//! memory instead of disk.
use vstd::prelude::*;
use std::collections::BTreeMap;
use crate::bytes;

verus! {

/// Page size (bytes).
pub const PAGE_SIZE: usize = 4096;

/// A cached page of file data.
pub struct Page {
    pub page_index: usize,
    pub data: Vec<u8>,
    pub dirty: bool,
}

/// Mathematical content of a `Page`.
#[verifier::ext_equal]
pub struct PageModel {
    pub data: Seq<u8>,
    pub dirty: bool,
}

impl View for Page {
    type V = PageModel;

    open spec fn view(&self) -> PageModel {
        PageModel { data: self.data@, dirty: self.dirty }
    }
}

/// How many of `len` bytes fit into a page from `offset` on.
pub open spec fn fitting(offset: int, len: int) -> int {
    if len <= 4096 - offset {
        len
    } else {
        4096 - offset
    }
}

impl Page {
    /// A page holds exactly one page of data.
    pub open spec fn wf(self) -> bool {
        self.data@.len() == PAGE_SIZE
    }

    /// A clean page of zeros.
    pub fn new(page_index: usize) -> (r: Self)
        ensures
            r.wf(),
            r.page_index == page_index,
            r@ == (PageModel { data: bytes::zeros(4096), dirty: false }),
    {
        let r = Page { page_index, data: vec![0u8;PAGE_SIZE], dirty: false };
        assert(r.data@ =~= bytes::zeros(4096));
        r
    }

    /// A copy of the page.
    pub fn copy(&self) -> (r: Self)
        requires
            self.wf(),
        ensures
            r.wf(),
            r.page_index == self.page_index,
            r@ == self@,
    {
        let data = bytes::to_vec(self.data.as_slice(), 0, PAGE_SIZE);
        assert(data@ =~= self.data@);
        Page { page_index: self.page_index, data, dirty: self.dirty }
    }

    /// Copy bytes into the page starting at `offset`.
    pub fn write_at(&mut self, offset: usize, buf: &[u8]) -> (n: usize)
        requires
            old(self).wf(),
            offset <= PAGE_SIZE,
        ensures
            final(self).wf(),
            final(self).page_index == old(self).page_index,
            n == fitting(offset as int, buf@.len() as int),
            final(self)@ == (PageModel {
                data: bytes::splice(old(self)@.data, offset as int, buf@.take(n as int)),
                dirty: true,
            }),
    {
        let n: usize = if buf.len() <= PAGE_SIZE - offset {
            buf.len()
        } else {
            PAGE_SIZE - offset
        };
        let part = vstd::slice::slice_subrange(buf, 0, n);
        assert(part@ =~= buf@.take(n as int));
        bytes::copy_into(self.data.as_mut_slice(), offset, part);
        self.dirty = true;
        n
    }

    /// Copy bytes out of the page starting at `offset`.
    pub fn read_at(&self, offset: usize, buf: &mut [u8]) -> (n: usize)
        requires
            self.wf(),
            offset <= PAGE_SIZE,
        ensures
            n == fitting(offset as int, old(buf)@.len() as int),
            final(buf)@ == bytes::splice(
                old(buf)@,
                0,
                self@.data.subrange(offset as int, offset + n),
            ),
    {
        let n: usize = if buf.len() <= PAGE_SIZE - offset {
            buf.len()
        } else {
            PAGE_SIZE - offset
        };
        let part = vstd::slice::slice_subrange(self.data.as_slice(), offset, offset + n);
        bytes::copy_into(buf, 0, part);
        n
    }
}

/// What was written to a page is read back from it.
pub proof fn law_page_write_then_read(data: Seq<u8>, offset: int, part: Seq<u8>)
    requires
        0 <= offset,
        offset + part.len() <= data.len(),
    ensures
        bytes::splice(data, offset, part).subrange(offset, offset + part.len()) == part,
{
    assert(bytes::splice(data, offset, part).subrange(offset, offset + part.len()) =~= part);
}

/// The cached pages among the `count` pages from `first` on, in ascending order.
pub open spec fn cached_run(pages: Map<usize, PageModel>, first: int, count: int) -> Seq<PageModel>
    decreases count,
{
    if count <= 0 {
        seq![]
    } else {
        let rest = cached_run(pages, first, count - 1);
        let last = (first + count - 1) as usize;
        if pages.contains_key(last) {
            rest.push(pages[last])
        } else {
            rest
        }
    }
}

/// The cached pages of one file.
pub struct AddressSpace {
    pages: BTreeMap<usize, Page>,
}

impl View for AddressSpace {
    type V = Map<usize, PageModel>;

    /// The cached pages by page index.
    closed spec fn view(&self) -> Map<usize, PageModel> {
        self.pages@.map_values(|p: Page| p@)
    }
}

impl AddressSpace {
    /// Every page is whole and filed under its index.
    pub closed spec fn wf(self) -> bool {
        forall|i: usize|
            self.pages@.contains_key(i) ==> (#[trigger] self.pages@[i]).wf()
                && self.pages@[i].page_index == i
    }

    /// Cached pages are whole.
    pub proof fn lemma_whole(self)
        requires
            self.wf(),
        ensures
            forall|i: usize| #[trigger] self@.contains_key(i) ==> self@[i].data.len() == PAGE_SIZE,
    {
        assert forall|i: usize| #[trigger] self@.contains_key(i) implies self@[i].data.len()
            == PAGE_SIZE by {
            assert(self.pages@[i].wf());
        }
    }

    /// Only so many pages are cached.
    pub proof fn lemma_finite(self)
        ensures
            self@.dom().finite(),
    {
        broadcast use vstd::std_specs::btree::group_btree_axioms;

        assert(self@.dom() =~= self.pages@.dom());
    }

    pub fn new() -> (r: Self)
        ensures
            r.wf(),
            r@ == Map::<usize, PageModel>::empty(),
    {
        let r = AddressSpace { pages: BTreeMap::new() };
        assert(r@ =~= Map::<usize, PageModel>::empty());
        r
    }

    /// The cached page of this index.
    pub fn get_page_cache(&self, page_index: usize) -> (r: Option<&Page>)
        requires
            self.wf(),
        ensures
            match r {
                Some(p) => self@.contains_key(page_index) && self@[page_index] == p@ && p.wf()
                    && p.page_index == page_index,
                None => !self@.contains_key(page_index),
            },
    {
        broadcast use vstd::std_specs::btree::group_btree_axioms;
        broadcast use vstd::laws_cmp::group_laws_cmp;

        self.pages.get(&page_index)
    }

    /// Whether the page of this index is cached.
    pub fn has_page(&self, page_index: usize) -> (r: bool)
        requires
            self.wf(),
        ensures
            r == self@.contains_key(page_index),
    {
        self.get_page_cache(page_index).is_some()
    }

    /// File a page under its index, in place of the one that was there.
    pub fn insert_page(&mut self, page: Page)
        requires
            old(self).wf(),
            page.wf(),
        ensures
            final(self).wf(),
            final(self)@ == old(self)@.insert(page.page_index, page@),
    {
        broadcast use vstd::std_specs::btree::group_btree_axioms;
        broadcast use vstd::laws_cmp::group_laws_cmp;

        let ghost m = page@;
        let idx: usize = page.page_index;
        self.pages.insert(idx, page);
        assert(self@ =~= old(self)@.insert(idx, m));
    }

    /// Drop the page of this index from the cache.
    pub fn remove_page_cache(&mut self, page_index: usize) -> (r: Option<Page>)
        requires
            old(self).wf(),
        ensures
            final(self).wf(),
            final(self)@ == old(self)@.remove(page_index),
            match r {
                Some(p) => old(self)@.contains_key(page_index) && old(self)@[page_index] == p@
                    && p.wf() && p.page_index == page_index,
                None => !old(self)@.contains_key(page_index),
            },
    {
        broadcast use vstd::std_specs::btree::group_btree_axioms;
        broadcast use vstd::laws_cmp::group_laws_cmp;

        let r = self.pages.remove(&page_index);
        assert(self@ =~= old(self)@.remove(page_index));
        r
    }

    /// The cached pages among the `count` pages from `page_index` on.
    pub fn get_page_caches(&self, page_index: usize, count: usize) -> (r: Vec<&Page>)
        requires
            self.wf(),
            page_index + count <= usize::MAX,
        ensures
            r@.map_values(|p: &Page| (*p)@) == cached_run(self@, page_index as int, count as int),
    {
        let mut result: Vec<&Page> = Vec::new();
        let mut i: usize = 0;
        assert(result@.map_values(|p: &Page| (*p)@) =~= cached_run(self@, page_index as int, 0));
        while i < count
            invariant
                self.wf(),
                i <= count,
                page_index + count <= usize::MAX,
                result@.map_values(|p: &Page| (*p)@) == cached_run(
                    self@,
                    page_index as int,
                    i as int,
                ),
            decreases count - i,
        {
            match self.get_page_cache(page_index + i) {
                Some(page) => {
                    result.push(page);
                },
                None => {},
            }
            assert(result@.map_values(|p: &Page| (*p)@) =~= cached_run(
                self@,
                page_index as int,
                i + 1,
            ));
            i += 1;
        }
        result
    }

    /// Number of cached pages.
    pub fn page_count(&self) -> (r: usize)
        requires
            self.wf(),
        ensures
            r == self@.len(),
    {
        broadcast use vstd::std_specs::btree::group_btree_axioms;
        broadcast use vstd::laws_cmp::group_laws_cmp;

        assert(self@.dom() =~= self.pages@.dom());
        self.pages.len()
    }
}

/// `p` is one of the `count` pages from `first` on.
pub open spec fn stands_among(
    pages: Map<usize, PageModel>,
    first: int,
    count: int,
    p: PageModel,
) -> bool {
    exists|k: int|
        first <= k < first + count && pages.contains_key(#[trigger] (k as usize)) && p
            == pages[k as usize]
}

/// Of a run of pages all that are cached are given, and no others, in order.
pub proof fn law_cached_run(pages: Map<usize, PageModel>, first: int, count: int)
    requires
        0 <= first,
        0 <= count,
        first + count <= usize::MAX,
    ensures
        (forall|k: int| first <= k < first + count ==> pages.contains_key(#[trigger] (k as usize)))
            ==> cached_run(pages, first, count) == Seq::new(
            count as nat,
            |j: int| pages[(first + j) as usize],
        ),
        forall|k: int|
            first <= k < first + count && pages.contains_key(#[trigger] (k as usize))
                ==> cached_run(pages, first, count).contains(pages[k as usize]),
        forall|j: int|
            0 <= j < cached_run(pages, first, count).len() ==> stands_among(
                pages,
                first,
                count,
                #[trigger] cached_run(pages, first, count)[j],
            ),
    decreases count,
{
    let all = cached_run(pages, first, count);
    if count > 0 {
        law_cached_run(pages, first, count - 1);
        let rest = cached_run(pages, first, count - 1);
        let last = first + count - 1;
        assert forall|k: int|
            first <= k < first + count && pages.contains_key(#[trigger] (k as usize)) implies all.contains(
            pages[k as usize],
        ) by {
            if k < last {
                let j = choose|j: int| 0 <= j < rest.len() && rest[j] == pages[k as usize];
                assert(all[j] == rest[j]);
            } else {
                assert(all[all.len() - 1] == pages[last as usize]);
            }
        }
        assert forall|j: int| 0 <= j < all.len() implies stands_among(
            pages,
            first,
            count,
            #[trigger] all[j],
        ) by {
            if j < rest.len() {
                assert(all[j] == rest[j]);
                assert(stands_among(pages, first, count - 1, rest[j]));
                let k = choose|k: int|
                    first <= k < first + count - 1 && pages.contains_key(#[trigger] (k as usize))
                        && rest[j] == pages[k as usize];
                assert(pages.contains_key(k as usize));
            } else {
                assert(pages.contains_key(last as usize));
            }
        }
        if forall|k: int| first <= k < first + count ==> pages.contains_key(#[trigger] (k as usize)) {
            assert(pages.contains_key(last as usize));
            assert(all =~= Seq::new(count as nat, |j: int| pages[(first + j) as usize]));
        }
    } else {
        assert(all =~= Seq::new(count as nat, |j: int| pages[(first + j) as usize]));
    }
}

} // verus!
