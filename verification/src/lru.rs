//! A bounded cache of pages that evicts the least recently used page
//! that nobody has pinned.

use crate::page::{Page, PageView};
use crate::recency::{
    lemma_filter_agree, lemma_filter_keeps_all, lemma_filter_member, lemma_filter_no_duplicates,
    lemma_remove_is_without, lemma_without_absent, lemma_without_all_len, none_of, other_than,
    promote, without, without_all,
};
use std::collections::hash_map::Entry;
use std::collections::HashMap;
use vstd::prelude::*;

verus! {

broadcast use vstd::std_specs::hash::group_hash_axioms;

/// The mathematical value of a cache.
pub struct LruView {
    /// How many pages the cache is meant to hold at most; never 0.
    pub capacity: nat,
    /// The resident pages by number.
    pub pages: Map<usize, PageView>,
    /// The numbers of the resident pages, least recently used first.
    pub order: Seq<usize>,
}

impl LruView {
    /// Each resident page has exactly one place in the recency order, and
    /// nothing else has one.
    pub open spec fn wf(self) -> bool {
        &&& self.capacity >= 1
        &&& self.order.no_duplicates()
        &&& forall|id: usize|
            #![trigger self.pages.contains_key(id)]
            #![trigger self.order.contains(id)]
            self.pages.contains_key(id) <==> self.order.contains(id)
    }

    /// The cache after the resident page `id` was handed out and left as `page`.
    pub open spec fn touched(self, id: usize, page: PageView) -> LruView {
        LruView {
            capacity: self.capacity,
            pages: self.pages.insert(id, page),
            order: promote(self.order, id),
        }
    }

    /// The cache without page `id`.
    pub open spec fn remove(self, id: usize) -> LruView {
        LruView {
            capacity: self.capacity,
            pages: self.pages.remove(id),
            order: without(self.order, id),
        }
    }

    /// The test that the numbers of the unpinned pages pass.
    pub open spec fn is_unpinned(self) -> spec_fn(usize) -> bool {
        |id: usize| !self.pages[id].pinned
    }

    /// The test that the numbers of the pinned pages pass.
    pub open spec fn is_pinned(self) -> spec_fn(usize) -> bool {
        |id: usize| self.pages[id].pinned
    }

    /// The resident pages that may be evicted, least recently used first.
    pub open spec fn unpinned(self) -> Seq<usize> {
        self.order.filter(self.is_unpinned())
    }

    /// How many pages have to leave so that one more fits.
    pub open spec fn overflow(self) -> nat {
        if self.order.len() >= self.capacity {
            (self.order.len() + 1 - self.capacity) as nat
        } else {
            0
        }
    }

    /// The pages that leave when one more comes in: the least recently used
    /// unpinned pages, as many as have to leave, or all of them if they are
    /// fewer. The page that comes in is never among them.
    pub open spec fn victims(self) -> Seq<usize> {
        let free = self.unpinned();
        if self.overflow() < free.len() {
            free.take(self.overflow() as int)
        } else {
            free
        }
    }

    /// The pages that leave when one more comes in, as they were, in the
    /// order in which they leave.
    pub open spec fn evicted(self) -> Seq<PageView> {
        pages_of(self.pages, self.victims())
    }

    /// The test that the numbers of the dirty pages pass.
    pub open spec fn is_dirty(self) -> spec_fn(usize) -> bool {
        |id: usize| self.pages[id].dirty
    }

    /// The resident pages that are dirty, least recently used first.
    pub open spec fn dirty(self) -> Seq<usize> {
        self.order.filter(self.is_dirty())
    }

    /// The cache without the pages `ids`; the others keep their order.
    pub open spec fn drop_all(self, ids: Seq<usize>) -> LruView {
        LruView {
            capacity: self.capacity,
            pages: self.pages.remove_keys(ids.to_set()),
            order: without_all(self.order, ids),
        }
    }

    /// The cache with `page` under the number `id` as the most recently used.
    pub open spec fn push(self, id: usize, page: PageView) -> LruView {
        LruView {
            capacity: self.capacity,
            pages: self.pages.insert(id, page),
            order: self.order.push(id),
        }
    }

    /// The cache after `page` came in under the number `id`, which was not
    /// resident: the victims are gone, the rest keep their order, and the
    /// new page is the most recently used.
    pub open spec fn add(self, id: usize, page: PageView) -> LruView {
        self.drop_all(self.victims()).push(id, page)
    }
}

/// The pages that `pages` holds under the numbers `ids`, in their order.
pub open spec fn pages_of(pages: Map<usize, PageView>, ids: Seq<usize>) -> Seq<PageView> {
    Seq::new(ids.len(), |i: int| pages[ids[i]])
}

/// The views of a sequence of pages.
pub open spec fn views<const SIZE: usize>(pages: Seq<Page<SIZE>>) -> Seq<PageView> {
    Seq::new(pages.len(), |i: int| pages[i]@)
}

/// The views of the pages that a map holds, key by key.
pub open spec fn page_views<const SIZE: usize>(pages: Map<usize, Page<SIZE>>) -> Map<
    usize,
    PageView,
> {
    Map::new(|id: usize| pages.contains_key(id), |id: usize| pages[id]@)
}

/// Why the cache refused a page.
#[derive(Debug)]
pub enum LruError {
    /// A page with that number is resident already.
    PageAlreadyExists,
}

/// The cache: the resident pages by number, and their numbers from the
/// least to the most recently used.
pub struct Lru<const SIZE: usize> {
    capacity: usize,
    cache: HashMap<usize, Page<SIZE>>,
    order: Vec<usize>,
}

impl<const SIZE: usize> View for Lru<SIZE> {
    type V = LruView;

    closed spec fn view(&self) -> LruView {
        LruView {
            capacity: self.capacity as nat,
            pages: page_views(self.cache@),
            order: self.order@,
        }
    }
}

/// Where `page_id` stands in `order`, if anywhere.
fn position(order: &Vec<usize>, page_id: usize) -> (found: Option<usize>)
    ensures
        match found {
            Some(i) => i < order.len() && order[i as int] == page_id,
            None => !order@.contains(page_id),
        },
{
    let mut i: usize = 0;
    while i < order.len()
        invariant
            i <= order.len(),
            forall|j: int| 0 <= j < i ==> order[j] != page_id,
        decreases order.len() - i,
    {
        if order[i] == page_id {
            return Some(i);
        }
        i += 1;
    }
    None
}

impl<const SIZE: usize> Lru<SIZE> {
    /// What holds of every cache that `new` made, whatever was done with it
    /// since.
    pub open spec fn wf(&self) -> bool {
        self@.wf()
    }

    /// An empty cache for `capacity` pages, for one page if `capacity` is 0.
    pub fn new(capacity: usize) -> (lru: Self)
        ensures
            lru.wf(),
            lru@.capacity == if capacity == 0 { 1 } else { capacity as nat },
            lru@.pages == Map::<usize, PageView>::empty(),
            lru@.order == Seq::<usize>::empty(),
    {
        let lru = Self {
            capacity: if capacity == 0 { 1 } else { capacity },
            cache: HashMap::<usize, Page<SIZE>>::new(),
            order: Vec::<usize>::new(),
        };
        assert(lru@.pages =~= Map::<usize, PageView>::empty());
        lru
    }

    /// Whether page `page_id` is resident. Does not count as a use.
    pub fn contains(&self, page_id: usize) -> (resident: bool)
        ensures
            resident == self@.pages.contains_key(page_id),
    {
        self.cache.contains_key(&page_id)
    }

    /// The resident page `page_id`, which becomes the most recently used.
    /// What the caller writes through the handle is what the cache holds.
    pub fn get(&mut self, page_id: usize) -> (handle: Option<&mut Page<SIZE>>)
        requires
            old(self).wf(),
        ensures
            handle is Some <==> old(self)@.pages.contains_key(page_id),
            handle is Some ==> (*handle.unwrap())@ == old(self)@.pages[page_id] && final(self)@
                == old(self)@.touched(page_id, (*final(handle.unwrap()))@),
            handle is None ==> final(self)@ == old(self)@,
            final(self).wf(),
    {
        if !self.cache.contains_key(&page_id) {
            return None;
        }
        let ghost before = self@;
        let ghost held = self.cache@;
        if let Some(index) = position(&self.order, page_id) {
            proof {
                lemma_remove_is_without(self.order@, index as int);
            }
            self.order.remove(index);
            self.order.push(page_id);
        }
        proof {
            assert forall|page: Page<SIZE>|
                page_views(#[trigger] held.insert(page_id, page)) == before.pages.insert(
                    page_id,
                    page@,
                ) by {
                lemma_page_views_insert(held, page_id, page);
            }
            assert forall|page: PageView| (#[trigger] before.touched(page_id, page)).wf() by {
                lemma_touched_wf(before, page_id, page);
            }
        }
        match self.cache.entry(page_id) {
            Entry::Occupied(entry) => Some(entry.into_mut()),
            Entry::Vacant(_) => None,
        }
    }

    /// Takes `page` in under the number `page_id` as the most recently used
    /// page, unless that number is resident. If the cache then holds more
    /// than its capacity, the pages before the new one are gone through from
    /// the least recently used on, and each unpinned one leaves until the
    /// cache is back at its capacity or none is left to look at. `Some`
    /// holds the pages that left, in that order; `None` says that there was
    /// room.
    pub fn add(&mut self, page_id: usize, page: Page<SIZE>) -> (result: Result<
        Option<Vec<Page<SIZE>>>,
        LruError,
    >)
        requires
            old(self).wf(),
        ensures
            final(self).wf(),
            result is Err <==> old(self)@.pages.contains_key(page_id),
            result is Err ==> final(self)@ == old(self)@,
            result is Ok ==> final(self)@ == old(self)@.add(page_id, page@),
            result matches Ok(None) ==> old(self)@.overflow() == 0 && final(self)@.pages == old(
                self,
            )@.pages.insert(page_id, page@) && final(self)@.order == old(self)@.order.push(
                page_id,
            ),
            result matches Ok(Some(gone)) ==> old(self)@.overflow() > 0 && views(gone@) == old(
                self,
            )@.evicted(),
    {
        if self.cache.contains_key(&page_id) {
            return Err(LruError::PageAlreadyExists);
        }
        let ghost before = self@;
        let ghost new_page = page@;
        proof {
            lemma_add_wf(before, page_id, new_page);
            lemma_page_views_insert(self.cache@, page_id, page);
        }
        self.cache.insert(page_id, page);
        self.order.push(page_id);
        if self.order.len() > self.capacity {
            let mut gone: Vec<Page<SIZE>> = Vec::new();
            let mut i: usize = 0;
            // How far the scan has come in the order as it was, and which of
            // the pages that it passed stay (the pinned ones) and which have
            // left (the others).
            let ghost mut scanned: int = 0;
            let ghost mut kept: Seq<usize> = Seq::empty();
            let ghost mut left: Seq<usize> = Seq::empty();
            proof {
                reveal(Seq::filter);
                assert(before.order.take(0) =~= Seq::<usize>::empty());
                assert(self.order@ =~= kept + before.order.skip(0).push(page_id));
                assert(before.pages.remove_keys(left.to_set()) =~= before.pages);
                assert(views(gone@) =~= pages_of(before.pages, left));
            }
            while i + 1 < self.order.len() && self.order.len() > self.capacity
                invariant
                    before.wf(),
                    !before.pages.contains_key(page_id),
                    self.capacity == before.capacity,
                    before.overflow() == before.order.len() + 1 - before.capacity,
                    0 <= scanned <= before.order.len(),
                    kept == before.order.take(scanned).filter(before.is_pinned()),
                    left == before.order.take(scanned).filter(before.is_unpinned()),
                    i == kept.len(),
                    i < self.order.len(),
                    self.order@ == kept + before.order.skip(scanned).push(page_id),
                    self.order@.len() + left.len() == before.order.len() + 1,
                    left.len() <= before.overflow(),
                    page_views(self.cache@) == before.pages.remove_keys(left.to_set()).insert(
                        page_id,
                        new_page,
                    ),
                    views(gone@) == pages_of(before.pages, left),
                decreases before.order.len() - scanned,
            {
                let id: usize = self.order[i];
                proof {
                    lemma_scan_step(before, scanned);
                    assert(id == before.order[scanned]);
                    assert(!left.to_set().contains(id));
                    assert(page_views(self.cache@).contains_key(id));
                    assert(page_views(self.cache@)[id] == before.pages[id]);
                }
                let pinned: bool = match self.cache.get(&id) {
                    Some(resident) => resident.is_pinned(),
                    None => true,
                };
                if pinned {
                    proof {
                        kept = kept.push(id);
                        assert(self.order@ =~= kept + before.order.skip(scanned + 1).push(
                            page_id,
                        ));
                    }
                    i += 1;
                } else {
                    proof {
                        lemma_page_views_remove(self.cache@, id);
                        left.lemma_push_to_set_commute(id);
                        lemma_pages_of_push(before.pages, left, id);
                    }
                    self.order.remove(i);
                    if let Some(resident) = self.cache.remove(&id) {
                        proof {
                            lemma_views_push(gone@, resident);
                        }
                        gone.push(resident);
                    }
                    proof {
                        left = left.push(id);
                        assert(self.order@ =~= kept + before.order.skip(scanned + 1).push(
                            page_id,
                        ));
                        assert(page_views(self.cache@) =~= before.pages.remove_keys(
                            left.to_set(),
                        ).insert(page_id, new_page));
                    }
                }
                proof {
                    scanned = scanned + 1;
                }
            }
            proof {
                lemma_scan_done(before, scanned);
                assert(self.order@ =~= (kept + before.order.skip(scanned)).push(page_id));
            }
            Ok(Some(gone))
        } else {
            proof {
                lemma_add_with_room(before, page_id, new_page);
            }
            Ok(None)
        }
    }

    /// Takes page `page_id` out, pinned or not, and hands it over.
    pub fn remove(&mut self, page_id: usize) -> (page: Option<Page<SIZE>>)
        requires
            old(self).wf(),
        ensures
            final(self).wf(),
            final(self)@ == old(self)@.remove(page_id),
            page is Some <==> old(self)@.pages.contains_key(page_id),
            page is Some ==> page.unwrap()@ == old(self)@.pages[page_id],
    {
        let ghost before = self@;
        proof {
            lemma_remove_wf(before, page_id);
        }
        if let Some(index) = position(&self.order, page_id) {
            proof {
                lemma_remove_is_without(self.order@, index as int);
            }
            self.order.remove(index);
        } else {
            proof {
                lemma_without_absent(before.order, page_id);
            }
        }
        let page = self.cache.remove(&page_id);
        assert(page_views(self.cache@) =~= before.pages.remove(page_id));
        page
    }

    /// The resident pages with their numbers, least recently used first.
    /// Does not count as a use.
    pub fn iter(&self) -> (entries: Vec<(usize, &Page<SIZE>)>)
        requires
            self.wf(),
        ensures
            entries@.len() == self@.order.len(),
            forall|i: int|
                0 <= i < entries@.len() ==> (#[trigger] entries@[i]).0 == self@.order[i]
                    && entries@[i].1@ == self@.pages[self@.order[i]],
    {
        let mut entries: Vec<(usize, &Page<SIZE>)> = Vec::new();
        let mut i: usize = 0;
        while i < self.order.len()
            invariant
                self.wf(),
                i <= self.order.len(),
                entries@.len() == i,
                forall|j: int|
                    0 <= j < i ==> (#[trigger] entries@[j]).0 == self@.order[j] && entries@[j].1@
                        == self@.pages[self@.order[j]],
            decreases self.order.len() - i,
        {
            let id: usize = self.order[i];
            assert(self@.order.contains(id));
            assert(self@.pages.contains_key(id));
            if let Some(page) = self.cache.get(&id) {
                entries.push((id, page));
            }
            i += 1;
        }
        entries
    }
}

/// Handing out a resident page keeps the cache well formed, whatever the
/// caller leaves in the page.
pub proof fn lemma_touched_wf(cache: LruView, id: usize, page: PageView)
    requires
        cache.wf(),
        cache.pages.contains_key(id),
    ensures
        cache.touched(id, page).wf(),
{
    let rest = without(cache.order, id);
    let after = cache.touched(id, page);
    lemma_filter_no_duplicates(cache.order, other_than(id));
    assert forall|x: usize| rest.contains(x) <==> cache.order.contains(x) && x != id by {
        lemma_filter_member(cache.order, other_than(id), x);
    }
    assert forall|x: usize| after.order.contains(x) <==> cache.order.contains(x) by {
        if x == id {
            assert(after.order[rest.len() as int] == id);
        } else if rest.contains(x) {
            let j = choose|j: int| 0 <= j < rest.len() && rest[j] == x;
            assert(after.order[j] == x);
        }
    }
}

/// A page that comes in makes the cache one page larger, less the victims.
pub proof fn lemma_add_len(cache: LruView, id: usize, page: PageView)
    requires
        cache.wf(),
    ensures
        cache.add(id, page).order.len() == cache.order.len() + 1 - cache.victims().len(),
{
    lemma_victims(cache);
    lemma_without_all_len(cache.order, cache.victims());
}

/// The capacity bound: with no page pinned, a cache that holds no more than
/// its capacity holds no more than its capacity after a page came in; and
/// if that page is not pinned either, still no page is pinned.
pub proof fn lemma_capacity_kept(cache: LruView, id: usize, page: PageView)
    requires
        cache.wf(),
        cache.order.len() <= cache.capacity,
        forall|k: usize| cache.pages.contains_key(k) ==> !(#[trigger] cache.pages[k]).pinned,
    ensures
        cache.add(id, page).order.len() <= cache.capacity,
        !page.pinned ==> forall|k: usize|
            cache.add(id, page).pages.contains_key(k) ==> !(#[trigger] cache.add(
                id,
                page,
            ).pages[k]).pinned,
{
    lemma_add_len(cache, id, page);
    assert forall|i: int| 0 <= i < cache.order.len() implies cache.is_unpinned()(
        #[trigger] cache.order[i],
    ) by {
        assert(cache.order.contains(cache.order[i]));
    }
    lemma_filter_keeps_all(cache.order, cache.is_unpinned());
}

/// Pin protection: a pinned page stays, as it is, when another comes in.
pub proof fn lemma_pinned_stays(cache: LruView, id: usize, page: PageView, pinned: usize)
    requires
        cache.wf(),
        cache.pages.contains_key(pinned),
        cache.pages[pinned].pinned,
        pinned != id,
    ensures
        cache.add(id, page).pages.contains_key(pinned),
        cache.add(id, page).pages[pinned] == cache.pages[pinned],
        cache.add(id, page).order.contains(pinned),
{
    lemma_victims(cache);
    if cache.victims().contains(pinned) {
        let i = choose|i: int| 0 <= i < cache.victims().len() && cache.victims()[i] == pinned;
        assert(!cache.pages[cache.victims()[i]].pinned);
    }
    lemma_filter_member(cache.order, none_of(cache.victims()), pinned);
    let rest = without_all(cache.order, cache.victims());
    let at = choose|at: int| 0 <= at < rest.len() && rest[at] == pinned;
    assert(rest.push(id)[at] == pinned);
}

/// A page that is not pinned (any longer) may leave: where the cache is
/// full and its least recently used page is unpinned, that page leaves
/// when another comes in.
pub proof fn lemma_unpinned_oldest_leaves(cache: LruView, id: usize, page: PageView)
    requires
        cache.wf(),
        !cache.pages.contains_key(id),
        cache.order.len() >= cache.capacity,
        !cache.pages[cache.order[0]].pinned,
    ensures
        cache.victims().len() >= 1,
        cache.victims()[0] == cache.order[0],
        !cache.add(id, page).pages.contains_key(cache.order[0]),
        !cache.add(id, page).order.contains(cache.order[0]),
{
    let oldest = cache.order[0];
    let first = seq![oldest];
    assert(cache.order.contains(oldest));
    assert(cache.order =~= first + cache.order.skip(1));
    Seq::filter_distributes_over_add(first, cache.order.skip(1), cache.is_unpinned());
    lemma_filter_keeps_all(first, cache.is_unpinned());
    assert(cache.unpinned()[0] == oldest);
    assert(cache.victims()[0] == oldest);
    assert(cache.victims().to_set().contains(oldest));
    lemma_add_wf(cache, id, page);
}

/// One copy: a resident page has one place in the recency order, and who
/// takes it up again finds it as the last holder left it. The other pages
/// are as they were, and no page came or went.
pub proof fn lemma_one_copy(cache: LruView, id: usize, left: PageView)
    requires
        cache.wf(),
        cache.pages.contains_key(id),
    ensures
        forall|i: int, j: int|
            0 <= i < cache.order.len() && 0 <= j < cache.order.len() && cache.order[i] == id
                && cache.order[j] == id ==> i == j,
        cache.touched(id, left).wf(),
        cache.touched(id, left).pages[id] == left,
        cache.touched(id, left).pages.dom() == cache.pages.dom(),
        forall|k: usize|
            cache.pages.contains_key(k) && k != id ==> cache.touched(id, left).pages[k]
                == cache.pages[k],
        cache.touched(id, left).order.len() == cache.order.len(),
        cache.touched(id, left).order.last() == id,
{
    lemma_touched_wf(cache, id, left);
    assert(cache.touched(id, left).pages.dom() =~= cache.pages.dom());
    let at = choose|at: int| 0 <= at < cache.order.len() && cache.order[at] == id;
    lemma_remove_is_without(cache.order, at);
}

/// Taking a page out keeps the cache well formed.
pub proof fn lemma_remove_wf(cache: LruView, id: usize)
    requires
        cache.wf(),
    ensures
        cache.remove(id).wf(),
{
    lemma_filter_no_duplicates(cache.order, other_than(id));
    assert forall|x: usize|
        without(cache.order, id).contains(x) <==> cache.order.contains(x) && x != id by {
        lemma_filter_member(cache.order, other_than(id), x);
    }
}

/// Giving up the dirty pages leaves no dirty page behind, and leaves each
/// clean page as it was.
pub proof fn lemma_dirty_given_up(cache: LruView)
    requires
        cache.wf(),
    ensures
        cache.drop_all(cache.dirty()).wf(),
        forall|k: usize|
            cache.pages.contains_key(k) ==> (cache.dirty().contains(k) <==> (
            #[trigger] cache.pages[k]).dirty),
        forall|k: usize| #[trigger]
            cache.drop_all(cache.dirty()).pages.contains_key(k) <==> cache.pages.contains_key(k)
                && !cache.pages[k].dirty,
        forall|k: usize| #[trigger]
            cache.drop_all(cache.dirty()).pages.contains_key(k) ==> cache.drop_all(
                cache.dirty(),
            ).pages[k] == cache.pages[k],
{
    let gone = cache.dirty();
    assert forall|k: usize| cache.pages.contains_key(k) implies (gone.contains(k) <==> (
    #[trigger] cache.pages[k]).dirty) by {
        lemma_filter_member(cache.order, cache.is_dirty(), k);
    }
    assert forall|k: usize| gone.contains(k) implies cache.pages.contains_key(k) by {
        lemma_filter_member(cache.order, cache.is_dirty(), k);
    }
    lemma_filter_no_duplicates(cache.order, none_of(gone));
    assert forall|x: usize|
        #![trigger cache.drop_all(gone).pages.contains_key(x)]
        #![trigger cache.drop_all(gone).order.contains(x)]
        cache.drop_all(gone).pages.contains_key(x) <==> cache.drop_all(gone).order.contains(
            x,
        ) by {
        lemma_filter_member(cache.order, none_of(gone), x);
    }
}

/// Where there is room, a page comes in and no page leaves.
pub proof fn lemma_add_with_room(cache: LruView, id: usize, page: PageView)
    requires
        cache.overflow() == 0,
    ensures
        cache.victims() == Seq::<usize>::empty(),
        cache.add(id, page).pages == cache.pages.insert(id, page),
        cache.add(id, page).order == cache.order.push(id),
{
    assert(cache.victims() =~= Seq::<usize>::empty());
    lemma_filter_keeps_all(cache.order, none_of(cache.victims()));
    assert(cache.pages.remove_keys(cache.victims().to_set()) =~= cache.pages);
}

/// A new page keeps the cache well formed, whoever leaves for it.
pub proof fn lemma_add_wf(cache: LruView, id: usize, page: PageView)
    requires
        cache.wf(),
        !cache.pages.contains_key(id),
    ensures
        cache.add(id, page).wf(),
{
    let gone = cache.victims();
    let rest = without_all(cache.order, gone);
    let after = cache.add(id, page);
    lemma_filter_no_duplicates(cache.order, none_of(gone));
    assert forall|x: usize| rest.contains(x) <==> cache.order.contains(x) && !gone.contains(
        x,
    ) by {
        lemma_filter_member(cache.order, none_of(gone), x);
    }
    assert forall|x: usize|
        #![trigger after.pages.contains_key(x)]
        #![trigger after.order.contains(x)]
        after.pages.contains_key(x) <==> after.order.contains(x) by {
        if x == id {
            assert(after.order[rest.len() as int] == id);
        } else if rest.contains(x) {
            let j = choose|j: int| 0 <= j < rest.len() && rest[j] == x;
            assert(after.order[j] == x);
        }
    }
}

/// The victims are resident and unpinned, none is named twice, and they are
/// no more than have to leave.
pub proof fn lemma_victims(cache: LruView)
    requires
        cache.wf(),
    ensures
        cache.victims().no_duplicates(),
        cache.victims().len() <= cache.overflow(),
        forall|i: int|
            0 <= i < cache.victims().len() ==> cache.pages.contains_key(
                #[trigger] cache.victims()[i],
            ) && !cache.pages[cache.victims()[i]].pinned,
{
    let free = cache.unpinned();
    lemma_filter_no_duplicates(cache.order, cache.is_unpinned());
    assert forall|i: int| 0 <= i < cache.victims().len() implies cache.pages.contains_key(
        #[trigger] cache.victims()[i],
    ) && !cache.pages[cache.victims()[i]].pinned by {
        let id = cache.victims()[i];
        assert(free[i] == id);
        lemma_filter_member(cache.order, cache.is_unpinned(), id);
    }
}

/// The views of a map of pages after one more page came in.
proof fn lemma_page_views_insert<const SIZE: usize>(
    pages: Map<usize, Page<SIZE>>,
    id: usize,
    page: Page<SIZE>,
)
    ensures
        page_views(pages.insert(id, page)) == page_views(pages).insert(id, page@),
{
    assert(page_views(pages.insert(id, page)) =~= page_views(pages).insert(id, page@));
}

/// The views of a map of pages after one page left.
proof fn lemma_page_views_remove<const SIZE: usize>(pages: Map<usize, Page<SIZE>>, id: usize)
    ensures
        page_views(pages.remove(id)) == page_views(pages).remove(id),
{
    assert(page_views(pages.remove(id)) =~= page_views(pages).remove(id));
}

/// The views of a sequence of pages after one more page.
proof fn lemma_views_push<const SIZE: usize>(pages: Seq<Page<SIZE>>, page: Page<SIZE>)
    ensures
        views(pages.push(page)) == views(pages).push(page@),
{
    assert(views(pages.push(page)) =~= views(pages).push(page@));
}

/// The pages under some numbers and one more.
proof fn lemma_pages_of_push(pages: Map<usize, PageView>, ids: Seq<usize>, id: usize)
    ensures
        pages_of(pages, ids.push(id)) == pages_of(pages, ids).push(pages[id]),
{
    assert(pages_of(pages, ids.push(id)) =~= pages_of(pages, ids).push(pages[id]));
}

/// One step of the scan of the recency order: the page that it comes to is
/// resident, has not left yet, and goes to the pinned pages that stay or to
/// the unpinned ones that leave.
proof fn lemma_scan_step(cache: LruView, scanned: int)
    requires
        cache.wf(),
        0 <= scanned < cache.order.len(),
    ensures
        ({
            let id = cache.order[scanned];
            let head = cache.order.take(scanned);
            let next = cache.order.take(scanned + 1);
            &&& cache.pages.contains_key(id)
            &&& !head.filter(cache.is_unpinned()).contains(id)
            &&& cache.pages[id].pinned ==> next.filter(cache.is_pinned()) == head.filter(
                cache.is_pinned(),
            ).push(id) && next.filter(cache.is_unpinned()) == head.filter(cache.is_unpinned())
            &&& !cache.pages[id].pinned ==> next.filter(cache.is_unpinned()) == head.filter(
                cache.is_unpinned(),
            ).push(id) && next.filter(cache.is_pinned()) == head.filter(cache.is_pinned())
        }),
{
    let id = cache.order[scanned];
    let head = cache.order.take(scanned);
    assert(cache.order.contains(id));
    assert(cache.order.take(scanned + 1) =~= head.push(id));
    Seq::lemma_filter_push(head, id, cache.is_pinned());
    Seq::lemma_filter_push(head, id, cache.is_unpinned());
    lemma_filter_member(head, cache.is_unpinned(), id);
    if head.contains(id) {
        let k = choose|k: int| 0 <= k < scanned && head[k] == id;
        assert(cache.order[k] == cache.order[scanned]);
    }
}

/// Where the scan of the recency order stops, the unpinned pages that it
/// has passed are the victims, and what is left is the order without them.
proof fn lemma_scan_done(cache: LruView, scanned: int)
    requires
        cache.wf(),
        0 <= scanned <= cache.order.len(),
        cache.order.take(scanned).filter(cache.is_unpinned()).len() <= cache.overflow(),
        scanned == cache.order.len() || cache.order.take(scanned).filter(cache.is_unpinned()).len()
            == cache.overflow(),
    ensures
        cache.order.take(scanned).filter(cache.is_unpinned()) == cache.victims(),
        cache.order.take(scanned).filter(cache.is_pinned()) + cache.order.skip(scanned) == without_all(
            cache.order,
            cache.victims(),
        ),
{
    let head = cache.order.take(scanned);
    let tail = cache.order.skip(scanned);
    let left = head.filter(cache.is_unpinned());
    assert(cache.order =~= head + tail);
    Seq::filter_distributes_over_add(head, tail, cache.is_unpinned());
    if scanned == cache.order.len() {
        assert(tail =~= Seq::<usize>::empty());
        reveal(Seq::filter);
        assert(cache.unpinned() =~= left);
    } else {
        assert(cache.unpinned().take(left.len() as int) =~= left);
        if cache.unpinned().len() <= cache.overflow() {
            assert(cache.unpinned() =~= left);
        }
    }
    assert(left == cache.victims());
    Seq::filter_distributes_over_add(head, tail, none_of(left));
    assert forall|i: int| 0 <= i < head.len() implies none_of(left)(#[trigger] head[i])
        == cache.is_pinned()(head[i]) by {
        lemma_filter_member(head, cache.is_unpinned(), head[i]);
    }
    lemma_filter_agree(head, none_of(left), cache.is_pinned());
    assert forall|j: int| 0 <= j < tail.len() implies none_of(left)(#[trigger] tail[j]) by {
        lemma_filter_member(head, cache.is_unpinned(), tail[j]);
        if head.contains(tail[j]) {
            let k = choose|k: int| 0 <= k < head.len() && head[k] == tail[j];
            assert(cache.order[k] == cache.order[scanned + j]);
        }
    }
    lemma_filter_keeps_all(tail, none_of(left));
}

} // verus!
