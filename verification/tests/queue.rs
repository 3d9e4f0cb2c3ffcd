use std::cell::RefCell;
use std::rc::Rc;

use treedb::pager::queue::layout::{ITEMS_START, ITEM_AREA};
use treedb::pager::{FIFOQueue, File, PageCache, PhysicalPageId};
use treedb::Error;

#[derive(Clone, Default)]
struct SharedFile {
    data: Rc<RefCell<Vec<u8>>>,
}

impl File for SharedFile {
    fn len(&self) -> Result<usize, Error> {
        Ok(self.data.borrow().len())
    }

    fn read_at(&self, buf: &mut [u8], offset: u64) -> Result<usize, Error> {
        let data = self.data.borrow();
        let offset = offset as usize;
        if offset >= data.len() {
            return Ok(0);
        }
        let to_read = std::cmp::min(data.len() - offset, buf.len());
        buf[..to_read].copy_from_slice(&data[offset..offset + to_read]);
        Ok(to_read)
    }

    fn write_at(&mut self, buf: &[u8], offset: u64) -> Result<usize, Error> {
        let mut data = self.data.borrow_mut();
        let offset = offset as usize;
        if offset + buf.len() > data.len() {
            data.resize(offset + buf.len(), 0);
        }
        data[offset..offset + buf.len()].copy_from_slice(buf);
        Ok(buf.len())
    }

    fn sync_data(&mut self) -> Result<(), Error> {
        Ok(())
    }
}

fn item(n: u64) -> Vec<u8> {
    n.to_le_bytes().to_vec()
}

#[test]
fn queue_starts_empty() {
    let mut pager: PageCache<SharedFile> = PageCache::new(SharedFile::default());
    let mut queue = FIFOQueue::create(&mut pager, 0, 8).unwrap();
    assert_eq!(queue.item_size(), 8);
    assert_eq!(queue.pop(&mut pager).unwrap(), None);
    assert_eq!(queue.pop(&mut pager).unwrap(), None);
}

#[test]
fn queue_returns_items_in_push_order() {
    let mut pager: PageCache<SharedFile> = PageCache::new(SharedFile::default());
    let mut queue = FIFOQueue::create(&mut pager, 0, 8).unwrap();
    for n in 1..=5 {
        queue.push_back(&mut pager, &item(n)).unwrap();
    }
    for n in 1..=5 {
        assert_eq!(queue.pop(&mut pager).unwrap(), Some(item(n)));
    }
    assert_eq!(queue.pop(&mut pager).unwrap(), None);
}

#[test]
fn queue_runs_over_many_pages() {
    let mut pager: PageCache<SharedFile> = PageCache::new(SharedFile::default());
    let mut queue = FIFOQueue::create(&mut pager, 0, 8).unwrap();
    // 507 items of eight bytes fill one page.
    assert_eq!(ITEM_AREA / 8, 507);
    for n in 0..2000 {
        queue.push_back(&mut pager, &item(n)).unwrap();
    }
    // One page for the queue at the start, three more as it grew.
    assert_eq!(pager.next_page_id(), 5);
    for n in 0..2000 {
        assert_eq!(queue.pop(&mut pager).unwrap(), Some(item(n)));
    }
    assert_eq!(queue.pop(&mut pager).unwrap(), None);
    let state = queue.state(&pager);
    assert_eq!(state.head_page, PhysicalPageId(4));
    assert_eq!(state.tail_page, PhysicalPageId(4));
}

#[test]
fn queue_pushes_and_pops_interleaved() {
    let mut pager: PageCache<SharedFile> = PageCache::new(SharedFile::default());
    let mut queue = FIFOQueue::create(&mut pager, 7, 3).unwrap();
    let mut next_in = 0u32;
    let mut next_out = 0u32;
    let bytes = |n: u32| vec![n as u8, (n >> 8) as u8, (n >> 16) as u8];
    for round in 0..400 {
        for _ in 0..(round % 7) {
            queue.push_back(&mut pager, &bytes(next_in)).unwrap();
            next_in += 1;
        }
        for _ in 0..(round % 5) {
            let popped = queue.pop(&mut pager).unwrap();
            if next_out < next_in {
                assert_eq!(popped, Some(bytes(next_out)));
                next_out += 1;
            } else {
                assert_eq!(popped, None);
            }
        }
    }
    while next_out < next_in {
        assert_eq!(queue.pop(&mut pager).unwrap(), Some(bytes(next_out)));
        next_out += 1;
    }
    assert_eq!(queue.pop(&mut pager).unwrap(), None);
}

#[test]
fn queue_page_has_the_documented_layout() {
    let file = SharedFile::default();
    let probe = file.clone();
    let mut pager: PageCache<SharedFile> = PageCache::new(file);
    let mut queue = FIFOQueue::create(&mut pager, 0, 8).unwrap();
    queue.push_back(&mut pager, &item(0x0102030405060708)).unwrap();
    queue.push_back(&mut pager, &item(0x1112131415161718)).unwrap();
    let bytes = probe.data.borrow();
    let page = &bytes[4096..8192];
    // page header: checksum 0, format 1, type queue, reserved
    assert_eq!(&page[0..8], &[0, 0, 0, 0, 1, 0, 0, 0]);
    // queue header: no next page, next offset 0, end offset 16, capacity 4056
    assert_eq!(&page[8..16], &[0xFF; 8]);
    assert_eq!(&page[16..18], &[0, 0]);
    assert_eq!(&page[18..20], &[16, 0]);
    assert_eq!(&page[20..22], &[0xD8, 0x0F]);
    assert!(page[22..40].iter().all(|b| *b == 0));
    assert_eq!(ITEMS_START, 40);
    assert_eq!(&page[40..48], &[8, 7, 6, 5, 4, 3, 2, 1]);
    assert_eq!(&page[48..56], &[0x18, 0x17, 0x16, 0x15, 0x14, 0x13, 0x12, 0x11]);
}

#[test]
fn full_page_is_linked_to_the_next() {
    let file = SharedFile::default();
    let probe = file.clone();
    let mut pager: PageCache<SharedFile> = PageCache::new(file);
    let mut queue = FIFOQueue::create(&mut pager, 0, 4056).unwrap();
    queue.push_back(&mut pager, &vec![1; 4056]).unwrap();
    queue.push_back(&mut pager, &vec![2; 4056]).unwrap();
    {
        let bytes = probe.data.borrow();
        // page 1 links to page 2; page 2 links nowhere
        assert_eq!(&bytes[4096 + 8..4096 + 16], &[2, 0, 0, 0, 0, 0, 0, 0]);
        assert_eq!(&bytes[8192 + 8..8192 + 16], &[0xFF; 8]);
        assert!(bytes[4096 + 40..8192].iter().all(|b| *b == 1));
        assert!(bytes[8192 + 40..12288].iter().all(|b| *b == 2));
    }
    let state = queue.state(&pager);
    assert_eq!(state.queue_id, 0);
    assert_eq!(state.head_page, PhysicalPageId(1));
    assert_eq!(state.head_offset, 0);
    assert_eq!(state.tail_page, PhysicalPageId(2));
    assert_eq!(queue.pop(&mut pager).unwrap(), Some(vec![1; 4056]));
    assert_eq!(queue.pop(&mut pager).unwrap(), Some(vec![2; 4056]));
    assert_eq!(queue.pop(&mut pager).unwrap(), None);
}

#[test]
fn two_queues_do_not_disturb_each_other() {
    let mut pager: PageCache<SharedFile> = PageCache::new(SharedFile::default());
    let mut a = FIFOQueue::create(&mut pager, 1, 8).unwrap();
    let mut b = FIFOQueue::create(&mut pager, 2, 2).unwrap();
    for n in 0..1000u64 {
        a.push_back(&mut pager, &item(n)).unwrap();
        b.push_back(&mut pager, &[(n % 256) as u8, 0xEE]).unwrap();
    }
    for n in 0..1000u64 {
        assert_eq!(a.pop(&mut pager).unwrap(), Some(item(n)));
        assert_eq!(b.pop(&mut pager).unwrap(), Some(vec![(n % 256) as u8, 0xEE]));
    }
    assert_eq!(a.pop(&mut pager).unwrap(), None);
    assert_eq!(b.pop(&mut pager).unwrap(), None);
}

#[test]
fn queue_is_found_again_from_its_state() {
    let file = SharedFile::default();
    let reopened = file.clone();
    let mut pager: PageCache<SharedFile> = PageCache::new(file);
    let mut queue = FIFOQueue::create(&mut pager, 3, 8).unwrap();
    for n in 0..1200 {
        queue.push_back(&mut pager, &item(n)).unwrap();
    }
    for n in 0..100 {
        assert_eq!(queue.pop(&mut pager).unwrap(), Some(item(n)));
    }
    let state = queue.state(&pager);
    assert_eq!(state.queue_id, 3);
    assert_eq!(state.head_page, PhysicalPageId(1));
    assert_eq!(state.head_offset, 800);
    assert_eq!(state.tail_page, PhysicalPageId(3));
    let next = pager.next_page_id();
    drop(queue);
    drop(pager);

    let mut pager: PageCache<SharedFile> = PageCache::with_next_id(reopened, next);
    let mut queue = FIFOQueue::recover(&mut pager, state, 8).unwrap();
    assert_eq!(queue.state(&pager), state);
    queue.push_back(&mut pager, &item(5000)).unwrap();
    for n in 100..1200 {
        assert_eq!(queue.pop(&mut pager).unwrap(), Some(item(n)));
    }
    assert_eq!(queue.pop(&mut pager).unwrap(), Some(item(5000)));
    assert_eq!(queue.pop(&mut pager).unwrap(), None);
}

#[test]
fn recover_rejects_what_is_no_queue() {
    let mut pager: PageCache<SharedFile> = PageCache::new(SharedFile::default());
    let mut queue = FIFOQueue::create(&mut pager, 0, 8).unwrap();
    for n in 0..600 {
        queue.push_back(&mut pager, &item(n)).unwrap();
    }
    let good = queue.state(&pager);
    assert!(FIFOQueue::recover(&mut pager, good, 8).is_ok());

    let bad_states = [
        // the head is the header page, or was never handed out
        treedb::pager::QueueState { head_page: PhysicalPageId(0), ..good },
        treedb::pager::QueueState { head_page: PhysicalPageId(99), ..good },
        // the chain does not end in this tail
        treedb::pager::QueueState { tail_page: PhysicalPageId(1), ..good },
        treedb::pager::QueueState { tail_page: PhysicalPageId(3), ..good },
        // the head offset is between two items, or behind the last
        treedb::pager::QueueState { head_offset: 3, ..good },
        treedb::pager::QueueState { head_offset: 4064, ..good },
    ];
    for bad in bad_states.iter() {
        assert!(matches!(FIFOQueue::recover(&mut pager, *bad, 8), Err(Error::Serialization)));
    }
    // another item size does not step to the end of the pages
    assert!(matches!(FIFOQueue::recover(&mut pager, good, 7), Err(Error::Serialization)));
    assert!(matches!(FIFOQueue::recover(&mut pager, good, 0), Err(Error::Serialization)));
    assert!(matches!(FIFOQueue::recover(&mut pager, good, 4057), Err(Error::Serialization)));

    // a page that was never written as a queue page
    let blank = pager.new_last_page_id();
    let state = treedb::pager::QueueState { head_page: blank, tail_page: blank, head_offset: 0, queue_id: 0 };
    assert!(matches!(FIFOQueue::recover(&mut pager, state, 8), Err(Error::Serialization)));
}

#[test]
fn a_page_is_opened_only_when_an_item_does_not_fit() {
    let mut pager: PageCache<SharedFile> = PageCache::new(SharedFile::default());
    let mut queue = FIFOQueue::create(&mut pager, 0, 8).unwrap();
    assert_eq!(pager.next_page_id(), 2);
    // 507 items of eight bytes fit in the first page.
    for n in 0..507 {
        queue.push_back(&mut pager, &item(n)).unwrap();
        assert_eq!(pager.next_page_id(), 2);
        assert_eq!(queue.state(&pager).tail_page, PhysicalPageId(1));
    }
    // The next one does not: exactly one page is opened for it.
    queue.push_back(&mut pager, &item(507)).unwrap();
    assert_eq!(pager.next_page_id(), 3);
    assert_eq!(queue.state(&pager).tail_page, PhysicalPageId(2));
    queue.push_back(&mut pager, &item(508)).unwrap();
    assert_eq!(pager.next_page_id(), 3);
    assert_eq!(queue.state(&pager).queue_id, 0);
}

#[test]
fn item_is_stored_at_the_write_offset() {
    let file = SharedFile::default();
    let probe = file.clone();
    let mut pager: PageCache<SharedFile> = PageCache::new(file);
    let mut queue = FIFOQueue::create(&mut pager, 0, 4).unwrap();
    for n in 0..5u8 {
        queue.push_back(&mut pager, &[n, n, n, n]).unwrap();
        let bytes = probe.data.borrow();
        let at = 4096 + 40 + 4 * n as usize;
        assert_eq!(&bytes[at..at + 4], &[n, n, n, n]);
        // end offset in the queue header
        assert_eq!(&bytes[4096 + 18..4096 + 20], &[4 * (n + 1), 0]);
    }
}

/// A file that notes the offset of every write it is asked for.
#[derive(Clone, Default)]
struct NotingFile {
    inner: SharedFile,
    offsets: Rc<RefCell<Vec<u64>>>,
    fail_from: Option<usize>,
}

impl File for NotingFile {
    fn len(&self) -> Result<usize, Error> {
        self.inner.len()
    }

    fn read_at(&self, buf: &mut [u8], offset: u64) -> Result<usize, Error> {
        self.inner.read_at(buf, offset)
    }

    fn write_at(&mut self, buf: &[u8], offset: u64) -> Result<usize, Error> {
        let count = self.offsets.borrow().len();
        self.offsets.borrow_mut().push(offset);
        if matches!(self.fail_from, Some(n) if count >= n) {
            return Err(Error::Io(std::io::Error::from(std::io::ErrorKind::Other)));
        }
        self.inner.write_at(buf, offset)
    }

    fn sync_data(&mut self) -> Result<(), Error> {
        Ok(())
    }
}

#[test]
fn link_is_written_before_the_new_page() {
    let file = NotingFile::default();
    let offsets = file.offsets.clone();
    let mut pager: PageCache<NotingFile> = PageCache::new(file);
    let mut queue = FIFOQueue::create(&mut pager, 0, 4056).unwrap();
    assert_eq!(*offsets.borrow(), vec![4096]);
    queue.push_back(&mut pager, &vec![1; 4056]).unwrap();
    assert_eq!(*offsets.borrow(), vec![4096, 4096]);
    // the next item does not fit: the link in page 1, then page 2,
    // then page 2 with the item
    queue.push_back(&mut pager, &vec![2; 4056]).unwrap();
    assert_eq!(*offsets.borrow(), vec![4096, 4096, 4096, 8192, 8192]);
}

#[test]
fn a_failed_link_write_leaves_the_new_page_unwritten() {
    let mut file = NotingFile::default();
    file.fail_from = Some(2);
    let offsets = file.offsets.clone();
    let bytes = file.inner.clone();
    let mut pager: PageCache<NotingFile> = PageCache::new(file);
    let mut queue = FIFOQueue::create(&mut pager, 0, 4056).unwrap();
    queue.push_back(&mut pager, &vec![1; 4056]).unwrap();
    let r = queue.push_back(&mut pager, &vec![2; 4056]);
    assert!(matches!(r, Err(Error::Io(_))));
    // the write of the link was asked for, and failed; page 2 was
    // never asked for
    assert_eq!(*offsets.borrow(), vec![4096, 4096, 4096]);
    assert_eq!(bytes.data.borrow().len(), 8192);
    assert_eq!(&bytes.data.borrow()[4096 + 8..4096 + 16], &[0xFF; 8]);
}

#[test]
fn pop_moves_the_head_by_one_item() {
    let mut pager: PageCache<SharedFile> = PageCache::new(SharedFile::default());
    let mut queue = FIFOQueue::create(&mut pager, 3, 8).unwrap();
    for n in 0..3u64 {
        queue.push_back(&mut pager, &item(n)).unwrap();
    }
    assert_eq!(queue.state(&pager).head_offset, 0);
    assert_eq!(queue.pop(&mut pager).unwrap(), Some(item(0)));
    let state = queue.state(&pager);
    assert_eq!(state.head_page, PhysicalPageId(1));
    assert_eq!(state.head_offset, 8);
    assert_eq!(queue.pop(&mut pager).unwrap(), Some(item(1)));
    assert_eq!(queue.state(&pager).head_offset, 16);
    assert_eq!(queue.pop(&mut pager).unwrap(), Some(item(2)));
    assert_eq!(queue.state(&pager).head_offset, 24);
    // nothing left: the head stays where it is
    assert_eq!(queue.pop(&mut pager).unwrap(), None);
    let state = queue.state(&pager);
    assert_eq!(state.head_page, PhysicalPageId(1));
    assert_eq!(state.head_offset, 24);
    assert_eq!(state.tail_page, PhysicalPageId(1));
}

#[test]
fn pop_leaves_a_page_that_is_read_to_its_end() {
    let mut pager: PageCache<SharedFile> = PageCache::new(SharedFile::default());
    let mut queue = FIFOQueue::create(&mut pager, 0, 4056).unwrap();
    queue.push_back(&mut pager, &vec![1; 4056]).unwrap();
    queue.push_back(&mut pager, &vec![2; 4056]).unwrap();
    assert_eq!(queue.pop(&mut pager).unwrap(), Some(vec![1; 4056]));
    // the item came from page 1, and the head is still there
    let state = queue.state(&pager);
    assert_eq!(state.head_page, PhysicalPageId(1));
    assert_eq!(state.head_offset, 4056);
    assert_eq!(queue.pop(&mut pager).unwrap(), Some(vec![2; 4056]));
    // page 1 was read to its end: the head is in page 2, one item on
    let state = queue.state(&pager);
    assert_eq!(state.head_page, PhysicalPageId(2));
    assert_eq!(state.head_offset, 4056);
    assert_eq!(queue.pop(&mut pager).unwrap(), None);
    assert_eq!(queue.state(&pager).head_page, PhysicalPageId(2));
}
