//! The pager's side of the page cache: how many pages the file holds, where
//! the block of each lies, and what has to be read or written when a page
//! is fetched, made or given up. The pager decides; whoever holds the file
//! reads and writes as told, and tells the pager what came of it.

use crate::lru::{lemma_victims, pages_of, views, Lru, LruView};
use crate::page::{Page, PageView};
use crate::recency::{
    lemma_filter_keeps_all, lemma_filter_member, lemma_filter_no_duplicates,
    lemma_without_one_more, none_of,
};
use vstd::prelude::*;

verus! {

/// The mathematical value of a pager.
pub struct PagerView {
    /// How many page slots the file holds.
    pub pages: nat,
    /// The pages in memory.
    pub cache: LruView,
}

/// What a fetch comes to.
#[derive(Copy, Clone, Debug, PartialEq, Eq, Structural)]
pub enum Fetch {
    /// The page is in memory.
    Resident,
    /// The page is in the file only: its block starts at `offset`.
    Read { offset: u64 },
    /// The file has no such page.
    Absent,
}

/// A block to be written to the file: the bytes of `page`, at `offset`.
pub struct PageWrite<const SIZE: usize> {
    pub offset: u64,
    pub page: Page<SIZE>,
}

/// The mathematical value of a write.
pub struct PageWriteView {
    pub offset: u64,
    pub page: PageView,
}

impl<const SIZE: usize> View for PageWrite<SIZE> {
    type V = PageWriteView;

    open spec fn view(&self) -> PageWriteView {
        PageWriteView { offset: self.offset, page: self.page@ }
    }
}

/// The write of `page` to its slot, where a slot holds `size` bytes: page
/// `id` lies at the offset `id * size`.
pub open spec fn write_of(page: PageView, size: nat) -> PageWriteView {
    PageWriteView { offset: (page.id * size) as u64, page }
}

/// One write for each of `pages`, in their order.
pub open spec fn writes_for(pages: Seq<PageView>, size: nat) -> Seq<PageWriteView> {
    Seq::new(pages.len(), |i: int| write_of(pages[i], size))
}

/// The dirty ones among `pages`, in their order.
pub open spec fn dirty_pages(pages: Seq<PageView>) -> Seq<PageView> {
    pages.filter(PageView::is_dirty())
}

/// A block of `size` zero bytes.
pub open spec fn blank(size: nat) -> Seq<u8> {
    Seq::new(size, |i: int| 0u8)
}

/// The views of a sequence of writes.
pub open spec fn write_views<const SIZE: usize>(writes: Seq<PageWrite<SIZE>>) -> Seq<
    PageWriteView,
> {
    Seq::new(writes.len(), |i: int| writes[i]@)
}

impl PagerView {
    /// The file's length fits in 64 bits, and each page in memory is a page
    /// of the file, held under its own number.
    pub open spec fn wf(self, size: nat) -> bool {
        &&& size >= 1
        &&& self.pages * size <= u64::MAX
        &&& self.cache.wf()
        &&& forall|id: usize| #[trigger]
            self.cache.pages.contains_key(id) ==> id < self.pages && self.cache.pages[id].id
                == id
    }

    /// What fetching page `id` comes to.
    pub open spec fn fetch(self, id: usize, size: nat) -> Fetch {
        if self.cache.pages.contains_key(id) {
            Fetch::Resident
        } else if id < self.pages {
            Fetch::Read { offset: (id * size) as u64 }
        } else {
            Fetch::Absent
        }
    }

    /// Whether the file can take one more page.
    pub open spec fn can_grow(self, size: nat) -> bool {
        self.pages < usize::MAX && (self.pages + 1) * size <= u64::MAX
    }
}

/// The pager of a file of pages of `SIZE` bytes, without the file.
pub struct Pager<const SIZE: usize> {
    pages: usize,
    cache: Lru<SIZE>,
}

impl<const SIZE: usize> View for Pager<SIZE> {
    type V = PagerView;

    closed spec fn view(&self) -> PagerView {
        PagerView { pages: self.pages as nat, cache: self.cache@ }
    }
}

impl<const SIZE: usize> Pager<SIZE> {
    /// What holds of every pager that `new` made, as long as each page that
    /// was handed out kept its number.
    pub open spec fn wf(&self) -> bool {
        self@.wf(SIZE as nat)
    }

    /// A pager over a file of `file_len` bytes, with an empty cache for
    /// `cache_size` pages (for one page if `cache_size` is 0). The file holds
    /// as many pages as fit in its length.
    pub fn new(file_len: u64, cache_size: usize) -> (pager: Self)
        requires
            SIZE > 0,
            file_len / (SIZE as u64) <= usize::MAX,
        ensures
            pager.wf(),
            pager@.pages == file_len as nat / SIZE as nat,
            pager@.cache.capacity == if cache_size == 0 { 1 } else { cache_size as nat },
            pager@.cache.pages == Map::<usize, PageView>::empty(),
            pager@.cache.order == Seq::<usize>::empty(),
    {
        let pages: usize = (file_len / SIZE as u64) as usize;
        proof {
            let len = file_len as int;
            let size = SIZE as int;
            assert((len / size) * size <= len) by (nonlinear_arith)
                requires
                    len >= 0,
                    size > 0,
            ;
        }
        Self { pages, cache: Lru::new(cache_size) }
    }

    /// How many page slots the file holds.
    pub fn pages(&self) -> (pages: usize)
        ensures
            pages == self@.pages,
    {
        self.pages
    }

    /// Where the block of page `page_id` starts in the file.
    fn offset(&self, page_id: usize) -> (offset: u64)
        requires
            self.wf(),
            page_id <= self@.pages,
        ensures
            offset == page_id * SIZE,
    {
        proof {
            let id = page_id as int;
            let pages = self@.pages as int;
            let size = SIZE as int;
            assert(0 <= id * size <= pages * size) by (nonlinear_arith)
                requires
                    0 <= id <= pages,
                    size >= 1,
            ;
        }
        (page_id as u64) * (SIZE as u64)
    }

    /// What fetching page `page_id` comes to: it is in memory, or its block
    /// is to be read from the file, or the file has no such page. A page
    /// whose number is not below the number of pages is never in the file.
    /// Asking changes nothing: the use counts when the handle is taken with
    /// `page`.
    pub fn get_page(&self, page_id: usize) -> (fetch: Fetch)
        requires
            self.wf(),
        ensures
            fetch == self@.fetch(page_id, SIZE as nat),
            page_id >= self@.pages ==> fetch == Fetch::Absent,
    {
        if self.cache.contains(page_id) {
            Fetch::Resident
        } else if page_id < self.pages {
            Fetch::Read { offset: self.offset(page_id) }
        } else {
            Fetch::Absent
        }
    }

    /// Takes into memory the block `data` that was read for page `page_id`
    /// after `get_page` asked for it, as the most recently used page. Hands
    /// back what has to be written to the file: the pages that left the
    /// cache for it and were dirty, in the order in which they left.
    pub fn load(&mut self, page_id: usize, data: &[u8; SIZE]) -> (writes: Vec<PageWrite<SIZE>>)
        requires
            old(self).wf(),
            !old(self)@.cache.pages.contains_key(page_id),
            page_id < old(self)@.pages,
        ensures
            final(self).wf(),
            final(self)@.pages == old(self)@.pages,
            final(self)@.cache == old(self)@.cache.add(page_id, PageView::fresh(page_id, data@)),
            write_views(writes@) == writes_for(
                dirty_pages(old(self)@.cache.evicted()),
                SIZE as nat,
            ),
    {
        let page = Page::new(page_id, data);
        self.take_in(page_id, page)
    }

    /// The write that makes the next new page, if the file can take one
    /// more: a block of zeros at the end of the file. It is to be written
    /// before `create_page` is called.
    pub fn next_page(&self) -> (write: Option<PageWrite<SIZE>>)
        requires
            self.wf(),
        ensures
            write is Some <==> self@.can_grow(SIZE as nat),
            write is Some ==> write.unwrap()@ == write_of(
                PageView::fresh(self@.pages as usize, blank(SIZE as nat)),
                SIZE as nat,
            ),
    {
        proof {
            let pages = self@.pages as int;
            let size = SIZE as int;
            assert((pages + 1) * size == pages * size + size) by (nonlinear_arith);
        }
        if self.pages == usize::MAX {
            return None;
        }
        let offset: u64 = self.offset(self.pages);
        if u64::MAX - offset < SIZE as u64 {
            return None;
        }
        let zeroed = [0u8; SIZE];
        assert(zeroed@ =~= blank(SIZE as nat));
        Some(PageWrite { offset, page: Page::new(self.pages, &zeroed) })
    }

    /// Counts the page whose block of zeros was just written, and takes it
    /// into memory as the most recently used page: clean, unpinned and
    /// free. Hands back the new page's number, which is the number of pages
    /// that the file held before, and what has to be written to the file:
    /// the pages that left the cache for it and were dirty, in the order in
    /// which they left.
    pub fn create_page(&mut self) -> (created: (usize, Vec<PageWrite<SIZE>>))
        requires
            old(self).wf(),
            old(self)@.can_grow(SIZE as nat),
        ensures
            final(self).wf(),
            created.0 == old(self)@.pages,
            final(self)@.pages == old(self)@.pages + 1,
            final(self)@.cache == old(self)@.cache.add(
                created.0,
                PageView::fresh(created.0, blank(SIZE as nat)),
            ),
            write_views(created.1@) == writes_for(
                dirty_pages(old(self)@.cache.evicted()),
                SIZE as nat,
            ),
    {
        let page_id: usize = self.pages;
        let zeroed = [0u8; SIZE];
        assert(zeroed@ =~= blank(SIZE as nat));
        self.pages += 1;
        let page = Page::new(page_id, &zeroed);
        let writes = self.take_in(page_id, page);
        (page_id, writes)
    }

    /// A handle on the resident page `page_id`, which becomes the most
    /// recently used. The pager stays well formed as long as the caller
    /// leaves the page its number.
    pub fn page(&mut self, page_id: usize) -> (handle: Option<&mut Page<SIZE>>)
        requires
            old(self).wf(),
        ensures
            handle is Some <==> old(self)@.cache.pages.contains_key(page_id),
            handle is Some ==> (*handle.unwrap())@ == old(self)@.cache.pages[page_id],
            handle is Some ==> final(self)@ == (PagerView {
                pages: old(self)@.pages,
                cache: old(self)@.cache.touched(page_id, (*final(handle.unwrap()))@),
            }),
            handle is Some && (*final(handle.unwrap()))@.id == page_id ==> final(self).wf(),
            handle is None ==> final(self)@ == old(self)@,
    {
        self.cache.get(page_id)
    }

    /// Gives up every dirty page: each leaves the cache and comes back as a
    /// write, least recently used first. The clean pages stay. Each write
    /// is to be tried, whatever becomes of the others.
    pub fn shutdown(&mut self) -> (writes: Vec<PageWrite<SIZE>>)
        requires
            old(self).wf(),
        ensures
            final(self).wf(),
            final(self)@.pages == old(self)@.pages,
            final(self)@.cache == old(self)@.cache.drop_all(old(self)@.cache.dirty()),
            write_views(writes@) == writes_for(
                pages_of(old(self)@.cache.pages, old(self)@.cache.dirty()),
                SIZE as nat,
            ),
    {
        let ghost before = self@;
        let ghost dirty = before.cache.dirty();
        let dirty_ids = self.dirty_ids();
        let mut writes: Vec<PageWrite<SIZE>> = Vec::new();
        let mut k: usize = 0;
        proof {
            lemma_filter_no_duplicates(before.cache.order, before.cache.is_dirty());
            lemma_filter_keeps_all(before.cache.order, none_of(dirty.take(0)));
            assert(before.cache.pages.remove_keys(dirty.take(0).to_set()) =~= before.cache.pages);
            assert(write_views(writes@) =~= writes_for(
                pages_of(before.cache.pages, dirty.take(0)),
                SIZE as nat,
            ));
        }
        while k < dirty_ids.len()
            invariant
                before.wf(SIZE as nat),
                self.wf(),
                self@.pages == before.pages,
                dirty == before.cache.dirty(),
                dirty_ids@ == dirty,
                dirty.no_duplicates(),
                k <= dirty.len(),
                self@.cache == before.cache.drop_all(dirty.take(k as int)),
                write_views(writes@) == writes_for(
                    pages_of(before.cache.pages, dirty.take(k as int)),
                    SIZE as nat,
                ),
            decreases dirty.len() - k,
        {
            let page_id: usize = dirty_ids[k];
            let ghost done = dirty.take(k as int);
            proof {
                lemma_filter_member(before.cache.order, before.cache.is_dirty(), page_id);
                assert(dirty[k as int] == page_id);
                if done.contains(page_id) {
                    let j = choose|j: int| 0 <= j < done.len() && done[j] == page_id;
                    assert(dirty[j] == dirty[k as int]);
                }
                assert(dirty.take(k + 1) =~= done.push(page_id));
                lemma_without_one_more(before.cache.order, done, page_id);
                done.lemma_push_to_set_commute(page_id);
                assert(before.cache.pages.remove_keys(done.to_set()).remove(page_id)
                    =~= before.cache.pages.remove_keys(done.push(page_id).to_set()));
                lemma_writes_for_push(
                    pages_of(before.cache.pages, done),
                    before.cache.pages[page_id],
                    SIZE as nat,
                );
                assert(pages_of(before.cache.pages, done.push(page_id)) =~= pages_of(
                    before.cache.pages,
                    done,
                ).push(before.cache.pages[page_id]));
            }
            if let Some(page) = self.cache.remove(page_id) {
                let offset: u64 = self.offset(page_id);
                proof {
                    lemma_write_views_push(writes@, PageWrite { offset, page });
                }
                writes.push(PageWrite { offset, page });
            }
            k += 1;
        }
        proof {
            assert(dirty.take(k as int) =~= dirty);
        }
        writes
    }

    /// The numbers of the dirty pages in memory, least recently used first.
    fn dirty_ids(&self) -> (ids: Vec<usize>)
        requires
            self.wf(),
        ensures
            ids@ == self@.cache.dirty(),
    {
        let ghost cache = self@.cache;
        let mut ids: Vec<usize> = Vec::new();
        let entries = self.cache.iter();
        let mut i: usize = 0;
        proof {
            reveal(Seq::filter);
            assert(cache.order.take(0) =~= Seq::<usize>::empty());
        }
        while i < entries.len()
            invariant
                i <= entries@.len(),
                entries@.len() == cache.order.len(),
                forall|j: int|
                    0 <= j < entries@.len() ==> (#[trigger] entries@[j]).0 == cache.order[j]
                        && entries@[j].1@ == cache.pages[cache.order[j]],
                ids@ == cache.order.take(i as int).filter(cache.is_dirty()),
            decreases entries@.len() - i,
        {
            let (page_id, page) = entries[i];
            proof {
                assert(cache.order.take(i + 1) =~= cache.order.take(i as int).push(page_id));
                Seq::lemma_filter_push(cache.order.take(i as int), page_id, cache.is_dirty());
            }
            if page.is_dirty() {
                ids.push(page_id);
            }
            i += 1;
        }
        proof {
            assert(cache.order.take(i as int) =~= cache.order);
        }
        ids
    }

    /// Takes `page` into the cache under its number and hands back the
    /// writes for the dirty pages that left for it.
    fn take_in(&mut self, page_id: usize, page: Page<SIZE>) -> (writes: Vec<PageWrite<SIZE>>)
        requires
            old(self).wf(),
            !old(self)@.cache.pages.contains_key(page_id),
            page_id < old(self)@.pages,
            page@.id == page_id,
        ensures
            final(self).wf(),
            final(self)@.pages == old(self)@.pages,
            final(self)@.cache == old(self)@.cache.add(page_id, page@),
            write_views(writes@) == writes_for(
                dirty_pages(old(self)@.cache.evicted()),
                SIZE as nat,
            ),
    {
        let ghost before = self@;
        proof {
            lemma_victims(before.cache);
        }
        match self.cache.add(page_id, page) {
            Ok(Some(evicted)) => {
                assert forall|i: int| 0 <= i < evicted@.len() implies (#[trigger] evicted@[i])@.id
                    < self@.pages by {
                    assert(views(evicted@).len() == before.cache.victims().len());
                    assert(views(evicted@)[i] == before.cache.pages[before.cache.victims()[i]]);
                }
                self.write_backs(evicted)
            },
            _ => {
                let writes: Vec<PageWrite<SIZE>> = Vec::new();
                proof {
                    reveal(Seq::filter);
                    assert(before.cache.evicted() =~= Seq::<PageView>::empty());
                    assert(write_views(writes@) =~= writes_for(
                        dirty_pages(before.cache.evicted()),
                        SIZE as nat,
                    ));
                }
                writes
            },
        }
    }

    /// The dirty ones among `pages`, in their order, each with the place of
    /// its block in the file.
    fn write_backs(&self, pages: Vec<Page<SIZE>>) -> (writes: Vec<PageWrite<SIZE>>)
        requires
            self.wf(),
            forall|i: int| 0 <= i < pages@.len() ==> (#[trigger] pages@[i])@.id < self@.pages,
        ensures
            write_views(writes@) == writes_for(dirty_pages(views(pages@)), SIZE as nat),
    {
        let ghost all = pages@;
        let mut writes: Vec<PageWrite<SIZE>> = Vec::new();
        proof {
            reveal(Seq::filter);
            assert(views(all.take(0)) =~= Seq::<PageView>::empty());
            assert(write_views(writes@) =~= writes_for(
                dirty_pages(views(all.take(0))),
                SIZE as nat,
            ));
        }
        for page in it: pages.into_iter()
            invariant
                self.wf(),
                it.seq() == all,
                forall|i: int| 0 <= i < all.len() ==> (#[trigger] all[i])@.id < self@.pages,
                write_views(writes@) == writes_for(
                    dirty_pages(views(all.take(it.index()))),
                    SIZE as nat,
                ),
        {
            let ghost done = views(all.take(it.index()));
            proof {
                assert(all.take(it.index() + 1) =~= all.take(it.index()).push(page));
                assert(views(all.take(it.index() + 1)) =~= done.push(page@));
                Seq::lemma_filter_push(done, page@, PageView::is_dirty());
                lemma_writes_for_push(dirty_pages(done), page@, SIZE as nat);
            }
            if page.is_dirty() {
                let offset: u64 = self.offset(page.id());
                proof {
                    lemma_write_views_push(writes@, PageWrite { offset, page });
                }
                writes.push(PageWrite { offset, page });
            }
        }
        proof {
            assert(all.take(all.len() as int) =~= all);
        }
        writes
    }
}

/// Write-back: of the pages that leave the cache, the dirty ones are
/// written, each to its own slot, and no clean one is.
pub proof fn lemma_dirty_pages_written(pages: Seq<PageView>, size: nat)
    ensures
        writes_for(dirty_pages(pages), size).len() == dirty_pages(pages).len(),
        forall|i: int|
            0 <= i < dirty_pages(pages).len() ==> (#[trigger] writes_for(
                dirty_pages(pages),
                size,
            )[i]) == write_of(dirty_pages(pages)[i], size),
        forall|page: PageView| #[trigger]
            dirty_pages(pages).contains(page) <==> pages.contains(page) && page.dirty,
{
    assert forall|page: PageView| #[trigger]
        dirty_pages(pages).contains(page) <==> pages.contains(page) && page.dirty by {
        lemma_filter_member(pages, PageView::is_dirty(), page);
    }
}

/// The writes for some pages and one more.
proof fn lemma_writes_for_push(pages: Seq<PageView>, page: PageView, size: nat)
    ensures
        writes_for(pages.push(page), size) == writes_for(pages, size).push(write_of(page, size)),
{
    assert(writes_for(pages.push(page), size) =~= writes_for(pages, size).push(
        write_of(page, size),
    ));
}

/// The views of some writes and one more.
proof fn lemma_write_views_push<const SIZE: usize>(
    writes: Seq<PageWrite<SIZE>>,
    write: PageWrite<SIZE>,
)
    ensures
        write_views(writes.push(write)) == write_views(writes).push(write@),
{
    assert(write_views(writes.push(write)) =~= write_views(writes).push(write@));
}

} // verus!
