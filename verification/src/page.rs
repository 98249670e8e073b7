//! A page: one fixed-size block of the backing file, as held in memory.

use vstd::prelude::*;

verus! {

/// What a page holds, as told by the first byte of its block.
#[derive(Copy, Clone, Debug, PartialEq, Eq, Structural)]
pub enum PageType {
    Free,
    Meta,
    IndexInternal,
    IndexLeaf,
    TableInternal,
    TableLeaf,
    Corrupt,
}

impl PageType {
    /// The type that a tag byte stands for: `0x00` to `0x05` name the six
    /// kinds in order, every other byte is `Corrupt`.
    pub open spec fn of_tag(tag: u8) -> PageType {
        if tag == 0x00 {
            PageType::Free
        } else if tag == 0x01 {
            PageType::Meta
        } else if tag == 0x02 {
            PageType::IndexInternal
        } else if tag == 0x03 {
            PageType::IndexLeaf
        } else if tag == 0x04 {
            PageType::TableInternal
        } else if tag == 0x05 {
            PageType::TableLeaf
        } else {
            PageType::Corrupt
        }
    }
}

/// The mathematical value of a page.
pub struct PageView {
    /// The page's number in the file.
    pub id: usize,
    /// The block, byte for byte.
    pub data: Seq<u8>,
    /// The type decoded when the page was made; later writes to `data` leave it.
    pub page_type: PageType,
    /// Whether `data` may differ from what the file holds.
    pub dirty: bool,
    /// Whether the page must stay in memory.
    pub pinned: bool,
}

impl PageView {
    /// The page that the block `data` makes under the number `id`: clean,
    /// unpinned, typed by the block's first byte.
    pub open spec fn fresh(id: usize, data: Seq<u8>) -> PageView {
        PageView { id, data, page_type: PageType::of_tag(data[0]), dirty: false, pinned: false }
    }

    /// The test that dirty pages pass.
    pub open spec fn is_dirty() -> spec_fn(PageView) -> bool {
        |page: PageView| page.dirty
    }
}

/// A block of `SIZE` bytes with its number, its decoded type and two flags.
pub struct Page<const SIZE: usize> {
    id: usize,
    data: Box<[u8; SIZE]>,
    page_type: PageType,
    dirty: bool,
    pinned: bool,
}

impl<const SIZE: usize> View for Page<SIZE> {
    type V = PageView;

    closed spec fn view(&self) -> PageView {
        PageView {
            id: self.id,
            data: self.data@,
            page_type: self.page_type,
            dirty: self.dirty,
            pinned: self.pinned,
        }
    }
}

impl<const SIZE: usize> Page<SIZE> {
    /// Every page holds exactly `SIZE` bytes.
    pub proof fn lemma_data_len(&self)
        ensures
            self@.data.len() == SIZE,
    {
    }

    /// A clean, unpinned page over a copy of `data`, typed by its first byte.
    pub fn new(id: usize, data: &[u8; SIZE]) -> (page: Self)
        requires
            SIZE > 0,
        ensures
            page@ == PageView::fresh(id, data@),
    {
        Self {
            id,
            data: Box::new(*data),
            dirty: false,
            pinned: false,
            page_type: match data[0] {
                0x00 => PageType::Free,
                0x01 => PageType::Meta,
                0x02 => PageType::IndexInternal,
                0x03 => PageType::IndexLeaf,
                0x04 => PageType::TableInternal,
                0x05 => PageType::TableLeaf,
                _ => PageType::Corrupt,
            },
        }
    }

    pub fn mark_dirty(&mut self)
        ensures
            final(self)@ == (PageView { dirty: true, ..old(self)@ }),
    {
        self.dirty = true;
    }

    pub fn mark_clean(&mut self)
        ensures
            final(self)@ == (PageView { dirty: false, ..old(self)@ }),
    {
        self.dirty = false;
    }

    pub fn is_dirty(&self) -> (dirty: bool)
        ensures
            dirty == self@.dirty,
    {
        self.dirty
    }

    pub fn pin(&mut self)
        ensures
            final(self)@ == (PageView { pinned: true, ..old(self)@ }),
    {
        self.pinned = true;
    }

    pub fn unpin(&mut self)
        ensures
            final(self)@ == (PageView { pinned: false, ..old(self)@ }),
    {
        self.pinned = false;
    }

    pub fn is_pinned(&self) -> (pinned: bool)
        ensures
            pinned == self@.pinned,
    {
        self.pinned
    }

    pub fn is_corrupt(&self) -> (corrupt: bool)
        ensures
            corrupt == (self@.page_type == PageType::Corrupt),
    {
        self.page_type == PageType::Corrupt
    }

    pub fn id(&self) -> (id: usize)
        ensures
            id == self@.id,
    {
        self.id
    }

    pub fn page_type(&self) -> (page_type: PageType)
        ensures
            page_type == self@.page_type,
    {
        self.page_type
    }

    pub fn bytes(&self) -> (bytes: &[u8; SIZE])
        ensures
            bytes@ == self@.data,
    {
        &self.data
    }

    /// The block, open for writing in place. Writing through it changes the
    /// bytes and nothing else: the caller marks the page dirty.
    pub fn bytes_mut(&mut self) -> (bytes: &mut [u8; SIZE])
        ensures
            bytes@ == old(self)@.data,
            final(self)@ == (PageView { data: final(bytes)@, ..old(self)@ }),
    {
        &mut self.data
    }
}

} // verus!
