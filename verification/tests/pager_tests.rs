use pager::page::{Page, PageType};
use pager::pager::{Fetch, Pager, PageWrite};

const SIZE: usize = 8;

/// A file in memory.
struct Disk {
    bytes: Vec<u8>,
    writes: Vec<u64>,
}

impl Disk {
    fn new(len: usize) -> Disk {
        Disk { bytes: vec![0xee; len], writes: vec![] }
    }

    fn write(&mut self, offset: u64, block: &[u8; SIZE]) {
        let start = offset as usize;
        if self.bytes.len() < start + SIZE {
            self.bytes.resize(start + SIZE, 0);
        }
        self.bytes[start..start + SIZE].copy_from_slice(block);
        self.writes.push(offset);
    }

    fn read(&self, offset: u64) -> [u8; SIZE] {
        let start = offset as usize;
        let mut block = [0u8; SIZE];
        block.copy_from_slice(&self.bytes[start..start + SIZE]);
        block
    }

    fn write_back(&mut self, writes: Vec<PageWrite<SIZE>>) {
        for write in writes {
            self.write(write.offset, write.page.bytes());
        }
    }
}

fn open(disk: &Disk, cache_size: usize) -> Pager<SIZE> {
    Pager::new(disk.bytes.len() as u64, cache_size)
}

fn create(pager: &mut Pager<SIZE>, disk: &mut Disk) -> usize {
    let blank = pager.next_page().unwrap();
    disk.write(blank.offset, blank.page.bytes());
    let (id, writes) = pager.create_page();
    disk.write_back(writes);
    id
}

fn fetch(pager: &mut Pager<SIZE>, disk: &mut Disk, id: usize) -> bool {
    match pager.get_page(id) {
        Fetch::Resident => true,
        Fetch::Absent => false,
        Fetch::Read { offset } => {
            let block = disk.read(offset);
            let writes = pager.load(id, &block);
            disk.write_back(writes);
            true
        }
    }
}

fn next_offset(pager: &Pager<SIZE>) -> Option<u64> {
    pager.next_page().map(|write| write.offset)
}

fn resident(pager: &Pager<SIZE>, ids: &[usize]) -> Vec<usize> {
    ids.iter().copied().filter(|id| pager.get_page(*id) == Fetch::Resident).collect()
}

#[test]
fn new_counts_the_whole_pages_of_the_file() {
    assert_eq!(Pager::<8>::new(0, 4).pages(), 0);
    assert_eq!(Pager::<8>::new(8, 4).pages(), 1);
    assert_eq!(Pager::<8>::new(24, 4).pages(), 3);
    assert_eq!(Pager::<8>::new(23, 4).pages(), 2);
    assert_eq!(Pager::<4096>::new(4096 * 10, 4).pages(), 10);
    assert_eq!(Pager::<1>::new(5, 4).pages(), 5);
}

#[test]
fn a_new_pager_holds_no_page_in_memory() {
    let mut pager = Pager::<8>::new(24, 2);
    assert_eq!(pager.get_page(0), Fetch::Read { offset: 0 });
    assert!(pager.page(0).is_none());
    assert!(pager.shutdown().is_empty());
}

#[test]
fn cache_size_zero_counts_as_one() {
    let mut disk = Disk::new(0);
    let mut pager = open(&disk, 0);
    let a = create(&mut pager, &mut disk);
    assert_eq!(resident(&pager, &[a]), vec![a]);
    let b = create(&mut pager, &mut disk);
    assert_eq!(resident(&pager, &[a, b]), vec![b]);
}

#[test]
fn a_page_beyond_the_file_is_absent() {
    let mut disk = Disk::new(16);
    let mut pager = open(&disk, 2);
    assert_eq!(pager.get_page(2), Fetch::Absent);
    assert_eq!(pager.get_page(3), Fetch::Absent);
    assert_eq!(pager.get_page(usize::MAX), Fetch::Absent);
    assert!(!fetch(&mut pager, &mut disk, 2));
    assert!(pager.page(2).is_none());
    assert!(disk.writes.is_empty());
    assert_eq!(pager.pages(), 2);
}

#[test]
fn a_page_of_the_file_is_read_at_its_offset() {
    let pager = Pager::<8>::new(32, 2);
    assert_eq!(pager.get_page(0), Fetch::Read { offset: 0 });
    assert_eq!(pager.get_page(1), Fetch::Read { offset: 8 });
    assert_eq!(pager.get_page(3), Fetch::Read { offset: 24 });
    let pager = Pager::<4096>::new(4096 * 3, 2);
    assert_eq!(pager.get_page(2), Fetch::Read { offset: 8192 });
    assert_eq!(pager.get_page(3), Fetch::Absent);
}

#[test]
fn a_page_becomes_absent_no_longer_once_it_is_made() {
    let mut disk = Disk::new(0);
    let mut pager = open(&disk, 1);
    assert_eq!(pager.get_page(0), Fetch::Absent);
    assert_eq!(create(&mut pager, &mut disk), 0);
    assert_eq!(pager.get_page(0), Fetch::Resident);
    assert_eq!(pager.get_page(1), Fetch::Absent);
    assert_eq!(create(&mut pager, &mut disk), 1);
    assert_eq!(pager.get_page(0), Fetch::Read { offset: 0 });
    assert_eq!(pager.get_page(1), Fetch::Resident);
}

#[test]
fn load_takes_the_block_in_as_a_clean_page() {
    let mut disk = Disk::new(16);
    disk.bytes[8..16].copy_from_slice(&[0x03, 9, 9, 9, 9, 9, 9, 1]);
    let mut pager = open(&disk, 2);
    assert!(fetch(&mut pager, &mut disk, 1));
    let page = pager.page(1).unwrap();
    assert_eq!(page.id(), 1);
    assert_eq!(page.page_type(), PageType::IndexLeaf);
    assert_eq!(page.bytes(), &[0x03, 9, 9, 9, 9, 9, 9, 1]);
    assert!(!page.is_dirty());
    assert!(!page.is_pinned());
    assert!(disk.writes.is_empty());
}

#[test]
fn a_block_with_an_unknown_tag_loads_as_corrupt() {
    let mut disk = Disk::new(8);
    let mut pager = open(&disk, 2);
    assert!(fetch(&mut pager, &mut disk, 0));
    let page = pager.page(0).unwrap();
    assert_eq!(page.bytes()[0], 0xee);
    assert!(page.is_corrupt());
}

#[test]
fn create_page_numbers_count_up_from_the_file() {
    let mut disk = Disk::new(16);
    let mut pager = open(&disk, 2);
    assert_eq!(next_offset(&pager), Some(16));
    assert_eq!(create(&mut pager, &mut disk), 2);
    assert_eq!(pager.pages(), 3);
    assert_eq!(next_offset(&pager), Some(24));
    assert_eq!(create(&mut pager, &mut disk), 3);
    assert_eq!(create(&mut pager, &mut disk), 4);
    assert_eq!(pager.pages(), 5);
    assert_eq!(disk.bytes.len(), 40);
    assert_eq!(disk.writes, vec![16, 24, 32]);
}

#[test]
fn next_page_is_a_block_of_zeros_at_the_end_of_the_file() {
    let pager = Pager::<8>::new(16, 2);
    let blank = pager.next_page().unwrap();
    assert_eq!(blank.offset, 16);
    assert_eq!(blank.page.id(), 2);
    assert_eq!(blank.page.bytes(), &[0u8; 8]);
    assert_eq!(blank.page.page_type(), PageType::Free);
    assert!(!blank.page.is_dirty());
    assert!(!blank.page.is_pinned());
}

#[test]
fn next_page_changes_nothing() {
    let pager = Pager::<8>::new(16, 2);
    assert_eq!(next_offset(&pager), Some(16));
    assert_eq!(next_offset(&pager), Some(16));
    assert_eq!(pager.pages(), 2);
    assert_eq!(pager.get_page(2), Fetch::Absent);
}

#[test]
fn a_created_page_is_zero_free_clean_and_on_disk() {
    let mut disk = Disk::new(8);
    let mut pager = open(&disk, 2);
    let id = create(&mut pager, &mut disk);
    assert_eq!(id, 1);
    assert_eq!(&disk.bytes[8..16], &[0u8; 8]);
    let page = pager.page(id).unwrap();
    assert_eq!(page.id(), 1);
    assert_eq!(page.bytes(), &[0u8; 8]);
    assert_eq!(page.page_type(), PageType::Free);
    assert!(!page.is_dirty());
    assert!(!page.is_pinned());
}

#[test]
fn a_file_that_is_full_has_no_next_page() {
    let pager = Pager::<8>::new(u64::MAX - 7, 1);
    assert_eq!(pager.pages() as u64, (u64::MAX - 7) / 8);
    assert!(pager.next_page().is_none());
    let pager = Pager::<8>::new(u64::MAX - 15, 1);
    assert_eq!(next_offset(&pager), Some(u64::MAX - 15));
    let pager = Pager::<8>::new(u64::MAX - 8, 1);
    assert_eq!(next_offset(&pager), Some(u64::MAX - 15));
}

#[test]
fn three_pages_in_a_cache_of_two() {
    let mut disk = Disk::new(0);
    let mut pager = open(&disk, 2);
    let a = create(&mut pager, &mut disk);
    {
        let page = pager.page(a).unwrap();
        page.bytes_mut().copy_from_slice(&[0x01, b'p', b'a', b'g', b'e', b' ', b'A', 0]);
        page.mark_dirty();
    }
    let b = create(&mut pager, &mut disk);
    assert_eq!(&disk.bytes[0..8], &[0u8; 8]);
    assert_eq!(resident(&pager, &[a, b]), vec![a, b]);
    let c = create(&mut pager, &mut disk);
    assert_eq!((a, b, c), (0, 1, 2));
    assert_eq!(resident(&pager, &[a, b, c]), vec![b, c]);
    assert_eq!(&disk.bytes[0..8], &[0x01, b'p', b'a', b'g', b'e', b' ', b'A', 0]);
    assert_eq!(disk.writes, vec![0, 8, 16, 0]);
}

#[test]
fn the_least_recently_touched_page_leaves() {
    let mut disk = Disk::new(0);
    let mut pager = open(&disk, 2);
    let a = create(&mut pager, &mut disk);
    let b = create(&mut pager, &mut disk);
    assert!(pager.page(a).is_some());
    let c = create(&mut pager, &mut disk);
    assert_eq!(resident(&pager, &[a, b, c]), vec![a, c]);
}

#[test]
fn a_pinned_page_stays_until_it_is_unpinned() {
    let mut disk = Disk::new(8);
    let mut pager = open(&disk, 1);
    assert!(fetch(&mut pager, &mut disk, 0));
    pager.page(0).unwrap().pin();
    let b = create(&mut pager, &mut disk);
    assert_eq!(resident(&pager, &[0, b]), vec![0, b]);
    pager.page(0).unwrap().unpin();
    let c = create(&mut pager, &mut disk);
    assert_eq!(resident(&pager, &[0, b, c]), vec![c]);
}

#[test]
fn a_clean_page_leaves_without_a_write() {
    let mut disk = Disk::new(24);
    let mut pager = open(&disk, 1);
    assert!(fetch(&mut pager, &mut disk, 0));
    assert!(fetch(&mut pager, &mut disk, 1));
    assert!(fetch(&mut pager, &mut disk, 2));
    assert!(disk.writes.is_empty());
    assert_eq!(resident(&pager, &[0, 1, 2]), vec![2]);
}

#[test]
fn a_dirty_page_is_written_when_it_leaves_and_not_before() {
    let mut disk = Disk::new(16);
    let mut pager = open(&disk, 1);
    assert!(fetch(&mut pager, &mut disk, 1));
    {
        let page = pager.page(1).unwrap();
        page.bytes_mut()[0] = 0x04;
        page.bytes_mut()[7] = 0x77;
        page.mark_dirty();
    }
    assert!(fetch(&mut pager, &mut disk, 1));
    assert!(pager.page(1).unwrap().is_dirty());
    assert!(disk.writes.is_empty());
    assert_eq!(&disk.bytes[8..16], &[0xee; 8]);
    assert!(fetch(&mut pager, &mut disk, 0));
    assert_eq!(disk.writes, vec![8]);
    assert_eq!(&disk.bytes[8..16], &[0x04, 0xee, 0xee, 0xee, 0xee, 0xee, 0xee, 0x77]);
    assert_eq!(&disk.bytes[0..8], &[0xee; 8]);
}

#[test]
fn a_page_marked_clean_again_is_not_written() {
    let mut disk = Disk::new(16);
    let mut pager = open(&disk, 1);
    assert!(fetch(&mut pager, &mut disk, 0));
    {
        let page = pager.page(0).unwrap();
        page.bytes_mut()[1] = 1;
        page.mark_dirty();
        page.mark_clean();
    }
    assert!(fetch(&mut pager, &mut disk, 1));
    assert!(disk.writes.is_empty());
    assert!(pager.shutdown().is_empty());
}

#[test]
fn load_hands_back_the_dirty_pages_that_left() {
    let mut pager = Pager::<8>::new(40, 2);
    for id in 0..4 {
        assert!(pager.load(id, &[id as u8; 8]).is_empty());
        pager.page(id).unwrap().pin();
    }
    for id in 0..4 {
        let page = pager.page(id).unwrap();
        page.unpin();
        if id != 1 {
            page.mark_dirty();
        }
    }
    let writes = pager.load(4, &[4; 8]);
    assert_eq!(writes.len(), 2);
    assert_eq!(writes[0].offset, 0);
    assert_eq!(writes[0].page.id(), 0);
    assert_eq!(writes[0].page.bytes(), &[0; 8]);
    assert_eq!(writes[1].offset, 16);
    assert_eq!(writes[1].page.id(), 2);
    assert_eq!(writes[1].page.bytes(), &[2; 8]);
    assert_eq!(pager.get_page(1), Fetch::Read { offset: 8 });
    assert_eq!(pager.get_page(3), Fetch::Resident);
    assert_eq!(pager.get_page(4), Fetch::Resident);
}

#[test]
fn shutdown_hands_back_each_dirty_page_once() {
    let mut disk = Disk::new(32);
    let mut pager = open(&disk, 4);
    for id in 0..4 {
        assert!(fetch(&mut pager, &mut disk, id));
    }
    for id in [2, 0] {
        let page = pager.page(id).unwrap();
        page.bytes_mut()[3] = id as u8 + 1;
        page.mark_dirty();
    }
    let writes = pager.shutdown();
    assert_eq!(writes.len(), 2);
    assert_eq!(writes[0].offset, 16);
    assert_eq!(writes[0].page.id(), 2);
    assert_eq!(writes[1].offset, 0);
    assert_eq!(writes[1].page.id(), 0);
    disk.write_back(writes);
    assert_eq!(&disk.bytes[0..8], &[0xee, 0xee, 0xee, 1, 0xee, 0xee, 0xee, 0xee]);
    assert_eq!(&disk.bytes[16..24], &[0xee, 0xee, 0xee, 3, 0xee, 0xee, 0xee, 0xee]);
    assert_eq!(&disk.bytes[8..16], &[0xee; 8]);
    assert_eq!(disk.writes, vec![16, 0]);
    assert_eq!(resident(&pager, &[0, 1, 2, 3]), vec![1, 3]);
    assert!(pager.shutdown().is_empty());
    assert_eq!(pager.pages(), 4);
}

#[test]
fn shutdown_takes_pinned_dirty_pages_too() {
    let mut pager = Pager::<8>::new(8, 1);
    assert!(pager.load(0, &[5; 8]).is_empty());
    {
        let page = pager.page(0).unwrap();
        page.pin();
        page.mark_dirty();
    }
    let writes = pager.shutdown();
    assert_eq!(writes.len(), 1);
    assert_eq!(writes[0].offset, 0);
    assert!(writes[0].page.is_pinned());
    assert_eq!(pager.get_page(0), Fetch::Read { offset: 0 });
}

#[test]
fn what_was_written_back_is_read_again() {
    let mut disk = Disk::new(0);
    let mut pager = open(&disk, 1);
    let a = create(&mut pager, &mut disk);
    {
        let page = pager.page(a).unwrap();
        page.bytes_mut().copy_from_slice(&[0x05, 1, 2, 3, 4, 5, 6, 7]);
        page.mark_dirty();
    }
    let b = create(&mut pager, &mut disk);
    assert_eq!(resident(&pager, &[a, b]), vec![b]);
    assert!(fetch(&mut pager, &mut disk, a));
    let page = pager.page(a).unwrap();
    assert_eq!(page.bytes(), &[0x05, 1, 2, 3, 4, 5, 6, 7]);
    assert_eq!(page.page_type(), PageType::TableLeaf);
    assert!(!page.is_dirty());
}

#[test]
fn without_pins_the_pager_keeps_to_its_cache_size() {
    let mut disk = Disk::new(40);
    let mut pager = open(&disk, 3);
    let all: Vec<usize> = (0..12).collect();
    for step in 0..40 {
        if step % 5 == 4 {
            create(&mut pager, &mut disk);
        } else {
            fetch(&mut pager, &mut disk, (step * 7) % 5);
        }
        assert!(resident(&pager, &all).len() <= 3);
    }
    assert_eq!(pager.pages(), 13);
}

#[test]
fn a_write_carries_the_page() {
    let page = Page::<8>::new(3, &[0x02; 8]);
    let write = PageWrite { offset: 24, page };
    assert_eq!(write.offset, 24);
    assert_eq!(write.page.id(), 3);
    assert_eq!(write.page.page_type(), PageType::IndexInternal);
}
