use std::cell::RefCell;
use std::rc::Rc;

use treedb::pager::header::Header;
use treedb::pager::records::{DelayedFreePage, RemappedPage, REMAPPED_PAGE_SIZE};
use treedb::pager::{DWALPager, FIFOQueue, File, LogicalPageId, PageCache, PhysicalPageId, Version};
use treedb::Error;

type Pager = DWALPager<MemoryFile>;

// In-memory file: clones share the bytes, as two handles on one file do.
#[derive(Clone, Default)]
struct MemoryFile {
    data: Rc<RefCell<Vec<u8>>>,
}

impl MemoryFile {
    fn with_bytes(bytes: Vec<u8>) -> Self {
        MemoryFile { data: Rc::new(RefCell::new(bytes)) }
    }
}

impl File for MemoryFile {
    fn len(&self) -> Result<usize, Error> {
        Ok(self.data.borrow().len())
    }

    fn read_at(&self, buf: &mut [u8], offset: u64) -> Result<usize, Error> {
        let data = self.data.borrow();
        let offset = offset as usize;

        // If offset is beyond data length, return 0 bytes read
        if offset >= data.len() {
            return Ok(0);
        }

        // Calculate how many bytes we can actually read
        let available = data.len() - offset;
        let to_read = std::cmp::min(available, buf.len());

        // Copy the data
        buf[..to_read].copy_from_slice(&data[offset..offset + to_read]);

        Ok(to_read)
    }

    fn write_at(&mut self, buf: &[u8], offset: u64) -> Result<usize, Error> {
        let mut data = self.data.borrow_mut();
        let offset = offset as usize;

        // Ensure the internal buffer is large enough
        if offset + buf.len() > data.len() {
            data.resize(offset + buf.len(), 0);
        }

        // Write the data
        data[offset..offset + buf.len()].copy_from_slice(buf);

        Ok(buf.len())
    }

    fn sync_data(&mut self) -> Result<(), Error> {
        // No-op for in-memory implementation
        Ok(())
    }
}

// A file that fails every write.
#[derive(Default)]
struct BrokenFile;

impl File for BrokenFile {
    fn len(&self) -> Result<usize, Error> {
        Ok(0)
    }

    fn read_at(&self, _buf: &mut [u8], _offset: u64) -> Result<usize, Error> {
        Ok(0)
    }

    fn write_at(&mut self, _buf: &[u8], _offset: u64) -> Result<usize, Error> {
        Err(Error::Io(std::io::Error::from(std::io::ErrorKind::Other)))
    }

    fn sync_data(&mut self) -> Result<(), Error> {
        Ok(())
    }
}

#[test]
fn update() {
    let file = MemoryFile::default();
    let file2 = file.clone();

    let mut pager = Pager::recover(file).unwrap();

    let page1_id = pager.new_page_id();
    let mut page1 = pager.new_page_buffer().unwrap();

    assert_eq!(page1_id, LogicalPageId(1));

    let page1_buf = page1.buf_mut();
    page1_buf.fill(42);

    pager.update_page(page1_id, page1).unwrap();

    let version = pager.current_version();

    let page1_read = pager.read_at(page1_id, version).unwrap();

    assert!(page1_read.buf().iter().all(|x| *x == 42));

    pager.commit().unwrap();

    drop(pager);

    let mut pager = Pager::recover(file2).unwrap();

    let page1_read2 = pager.read_at(page1_id, version).unwrap();

    assert!(page1_read2.buf().iter().all(|x| *x == 42));
}

#[test]
fn read_dropped_page() {
    let file = MemoryFile::default();

    let mut pager = Pager::recover(file).unwrap();

    let page1_id = pager.new_page_id();
    let mut page1 = pager.new_page_buffer().unwrap();

    assert_eq!(page1_id, LogicalPageId(1));

    let page1_buf = page1.buf_mut();
    page1_buf.fill(42);

    pager.update_page(page1_id, page1).unwrap();

    let version = pager.current_version();

    let page1_read = pager.read_at(page1_id, version).unwrap();

    assert!(page1_read.buf().iter().all(|x| *x == 42));

    pager.commit().unwrap();

    drop(pager);

    assert!(page1_read.buf().iter().all(|x| *x == 42));
}

#[test]
fn multiple_pages() {
    let file = MemoryFile::default();
    let mut pager = Pager::recover(file).unwrap();

    // Create and write multiple pages
    let page_ids: Vec<_> = (0..3)
        .map(|i| {
            let page_id = pager.new_page_id();
            let mut page = pager.new_page_buffer().unwrap();
            page.buf_mut().fill(i as u8);
            let page = page.freeze();
            pager.write_page(PhysicalPageId(page_id.0), &page).unwrap();
            page_id
        })
        .collect();

    let version = pager.current_version();

    // Verify all pages can be read correctly
    for (i, &page_id) in page_ids.iter().enumerate() {
        let page = pager.read_at(page_id, version).unwrap();
        assert!(page.buf().iter().all(|&b| b == i as u8));
    }
}

#[test]
fn page_updates() {
    let file = MemoryFile::default();
    let mut pager = Pager::recover(file).unwrap();

    // Create initial page
    let page_id = pager.new_page_id();
    let mut page = pager.new_page_buffer().unwrap();
    page.buf_mut().fill(1);
    let version1 = pager.current_version();
    pager.update_page(page_id, page).unwrap();

    pager.commit().unwrap();

    // Update the same page
    let mut page = pager.new_page_buffer().unwrap();
    page.buf_mut().fill(2);
    let version2 = pager.current_version();
    pager.atomic_update(page_id, version2, page).unwrap();

    // Verify we can read both versions
    let page_v1 = pager.read_at(page_id, version1).unwrap();
    assert!(page_v1.buf().iter().all(|&b| b == 1));

    let page_v2 = pager.read_at(page_id, version2).unwrap();
    assert!(page_v2.buf().iter().all(|&b| b == 2));
}

#[test]
fn recovery_after_crash() {
    let file = MemoryFile::default();
    let file2 = file.clone();

    // Session 1: Create and commit some pages
    let mut pager = Pager::recover(file).unwrap();
    let page_ids: Vec<_> = (0..3)
        .map(|i| {
            let page_id = pager.new_page_id();
            let mut page = pager.new_page_buffer().unwrap();
            page.buf_mut().fill(i as u8);
            let page = page.freeze();
            pager.write_page(PhysicalPageId(page_id.0), &page).unwrap();
            page_id
        })
        .collect();

    pager.commit().unwrap();
    let version = pager.current_version();
    drop(pager);

    // Session 2: Recover and verify
    let mut pager = Pager::recover(file2).unwrap();
    for (i, &page_id) in page_ids.iter().enumerate() {
        let page = pager.read_at(page_id, version).unwrap();
        assert!(page.buf().iter().all(|&b| b == i as u8));
    }
}

#[test]
fn read_nonexistent_page() {
    let file = MemoryFile::default();
    let mut pager = Pager::recover(file).unwrap();
    let version = pager.current_version();

    // Try reading a page ID that was never created
    let nonexistent_id = LogicalPageId(999);
    let result = pager.read_at(nonexistent_id, version);
    assert!(result.is_err());

    // Create a page, then try reading a different one
    let page_id = pager.new_page_id();
    let page = pager.new_page_buffer().unwrap();
    let page = page.freeze();
    pager.write_page(PhysicalPageId(page_id.0), &page).unwrap();

    let another_nonexistent_id = LogicalPageId(page_id.0 + 1);
    let result = pager.read_at(another_nonexistent_id, version);
    assert!(result.is_err());
}

#[test]
fn read_invalid_version() {
    let file = MemoryFile::default();
    let mut pager = Pager::recover(file).unwrap();

    // Create a page
    let page_id = pager.new_page_id();
    let page = pager.new_page_buffer().unwrap();
    let page = page.freeze();
    pager.write_page(PhysicalPageId(page_id.0), &page).unwrap();
    let current_version = pager.current_version();

    // Try reading with a future version
    let future_version = current_version.0 + 1;
    let result = pager.read_at(page_id, Version(future_version));
    assert!(result.is_err());

    // Try reading with an invalid past version (0 or very old)
    let past_version = 0;
    let result = pager.read_at(page_id, Version(past_version));
    assert!(result.is_err());
}

#[test]
fn fresh_file_gets_the_fresh_header() {
    let file = MemoryFile::default();
    let probe = file.clone();
    let pager = Pager::recover(file).unwrap();
    assert_eq!(pager.committed_version(), Version(1));
    assert_eq!(pager.current_version(), Version(2));
    let bytes = probe.data.borrow();
    assert_eq!(bytes.len(), 4096);
    // format 1, page size 4096, page count 1, committed 1, oldest 1
    assert_eq!(&bytes[0..2], &[1, 0]);
    assert_eq!(&bytes[2..6], &[0, 0x10, 0, 0]);
    assert_eq!(&bytes[6..14], &[1, 0, 0, 0, 0, 0, 0, 0]);
    assert_eq!(&bytes[14..22], &[1, 0, 0, 0, 0, 0, 0, 0]);
    assert_eq!(&bytes[22..30], &[1, 0, 0, 0, 0, 0, 0, 0]);
    assert!(bytes[30..].iter().all(|b| *b == 0));
}

#[test]
fn file_shorter_than_a_page_is_fresh() {
    let file = MemoryFile::with_bytes(vec![7; 4095]);
    let probe = file.clone();
    let mut pager = Pager::recover(file).unwrap();
    assert_eq!(pager.new_page_id(), LogicalPageId(1));
    assert_eq!(&probe.data.borrow()[0..2], &[1, 0]);
    assert_eq!(probe.data.borrow().len(), 4096);
}

#[test]
fn damaged_header_fails_recovery_and_leaves_the_file() {
    let file = MemoryFile::with_bytes(vec![0xAB; 8192]);
    let probe = file.clone();
    match Pager::recover(file) {
        Err(Error::Serialization) => {}
        other => panic!("expected a serialization error, got {:?}", other.map(|_| ())),
    }
    assert!(probe.data.borrow().iter().all(|b| *b == 0xAB));
    assert_eq!(probe.data.borrow().len(), 8192);
}

#[test]
fn wrong_format_version_fails_recovery() {
    let file = MemoryFile::default();
    let probe = file.clone();
    drop(Pager::recover(file).unwrap());
    probe.data.borrow_mut()[0] = 2;
    assert!(matches!(Pager::recover(probe), Err(Error::Serialization)));
}

#[test]
fn commit_advances_the_version_and_persists_the_page_count() {
    let file = MemoryFile::default();
    let probe = file.clone();
    let mut pager = Pager::recover(file).unwrap();
    let a = pager.new_page_id();
    let b = pager.new_page_id();
    assert_eq!((a, b), (LogicalPageId(1), LogicalPageId(2)));
    pager.commit().unwrap();
    assert_eq!(pager.committed_version(), Version(2));
    assert_eq!(&probe.data.borrow()[6..14], &[3, 0, 0, 0, 0, 0, 0, 0]);
    assert_eq!(&probe.data.borrow()[14..22], &[2, 0, 0, 0, 0, 0, 0, 0]);
    drop(pager);

    // The page numbers go on where they stopped.
    let mut pager = Pager::recover(probe).unwrap();
    assert_eq!(pager.committed_version(), Version(2));
    assert_eq!(pager.new_page_id(), LogicalPageId(3));
}

#[test]
fn page_ids_grow_by_one() {
    let mut pager = Pager::recover(MemoryFile::default()).unwrap();
    for expected in 1..50 {
        assert_eq!(pager.new_page_id(), LogicalPageId(expected));
    }
}

#[test]
fn page_is_written_at_its_own_offset() {
    let file = MemoryFile::default();
    let probe = file.clone();
    let mut pager = Pager::recover(file).unwrap();
    for _ in 0..3 {
        pager.new_page_id();
    }
    let mut page = pager.new_page_buffer().unwrap();
    page.as_bytes_mut().fill(9);
    pager.update_page(LogicalPageId(3), page).unwrap();
    let bytes = probe.data.borrow();
    assert_eq!(bytes.len(), 4 * 4096);
    assert!(bytes[3 * 4096..].iter().all(|b| *b == 9));
    assert!(bytes[4096..3 * 4096].iter().all(|b| *b == 0));
}

#[test]
fn page_never_written_reads_as_zeros() {
    let mut pager = Pager::recover(MemoryFile::default()).unwrap();
    let id = pager.new_page_id();
    let page = pager.read_at(id, Version(2)).unwrap();
    assert_eq!(page.as_bytes().len(), 4096);
    assert!(page.as_bytes().iter().all(|b| *b == 0));
}

#[test]
fn atomic_update_scenario_page_five() {
    let mut pager = Pager::recover(MemoryFile::default()).unwrap();
    for _ in 0..5 {
        pager.new_page_id();
    }
    let five = LogicalPageId(5);
    let mut page = pager.new_page_buffer().unwrap();
    page.buf_mut().fill(1);
    assert_eq!(pager.current_version(), Version(2));
    pager.update_page(five, page).unwrap();
    pager.commit().unwrap();

    let mut page = pager.new_page_buffer().unwrap();
    page.buf_mut().fill(2);
    let new_id = pager.atomic_update(five, Version(3), page).unwrap();
    assert_eq!(new_id, LogicalPageId(6));

    assert!(pager.read_at(five, Version(2)).unwrap().buf().iter().all(|b| *b == 1));
    assert!(pager.read_at(five, Version(3)).unwrap().buf().iter().all(|b| *b == 2));
    assert_eq!(pager.get_physical_page_id(five, Version(2)), PhysicalPageId(5));
    assert_eq!(pager.get_physical_page_id(five, Version(3)), PhysicalPageId(6));
    // The copy is a page of its own.
    assert!(pager.read_at(new_id, Version(3)).unwrap().buf().iter().all(|b| *b == 2));
}

#[test]
fn atomic_update_writes_a_version_once() {
    let mut pager = Pager::recover(MemoryFile::default()).unwrap();
    let id = pager.new_page_id();
    let page = pager.new_page_buffer().unwrap();
    let first = pager.atomic_update(id, Version(2), page).unwrap();
    assert_eq!(first, LogicalPageId(2));
    let page = pager.new_page_buffer().unwrap();
    match pager.atomic_update(id, Version(2), page) {
        Err(Error::VersionExists(i, v)) => assert_eq!((i, v), (id, Version(2))),
        other => panic!("expected the version to be taken, got {:?}", other),
    }
    // Nothing was allocated for the refused update.
    assert_eq!(pager.new_page_id(), LogicalPageId(3));
    assert_eq!(pager.get_physical_page_id(id, Version(2)), PhysicalPageId(2));
}

#[test]
fn out_of_bounds_pages_are_refused() {
    let mut pager = Pager::recover(MemoryFile::default()).unwrap();
    let id = pager.new_page_id();
    let beyond = LogicalPageId(id.0 + 1);
    let header_page = LogicalPageId(0);

    let page = pager.new_page_buffer().unwrap();
    assert!(matches!(pager.update_page(beyond, page), Err(Error::IndexOutofBounds(i)) if i == beyond));
    let page = pager.new_page_buffer().unwrap();
    assert!(matches!(pager.update_page(header_page, page), Err(Error::IndexOutofBounds(i)) if i == header_page));
    let page = pager.new_page_buffer().unwrap();
    assert!(matches!(pager.atomic_update(beyond, Version(2), page), Err(Error::IndexOutofBounds(i)) if i == beyond));
    assert!(matches!(pager.read_at(beyond, Version(2)), Err(Error::IndexOutofBounds(i)) if i == beyond));
    assert!(matches!(pager.read_at(header_page, Version(2)), Err(Error::IndexOutofBounds(i)) if i == header_page));
    let page = pager.new_page_buffer().unwrap().freeze();
    assert!(matches!(pager.write_page(PhysicalPageId(beyond.0), &page), Err(Error::IndexOutofBounds(i)) if i == beyond));
}

#[test]
fn versions_outside_the_window_are_refused() {
    let mut pager = Pager::recover(MemoryFile::default()).unwrap();
    let id = pager.new_page_id();
    // committed 1, so versions 1 and 2 can be read
    assert!(pager.read_at(id, Version(1)).is_ok());
    assert!(pager.read_at(id, Version(2)).is_ok());
    assert!(matches!(pager.read_at(id, Version(0)), Err(Error::VersionOutOfRange(Version(0)))));
    assert!(matches!(pager.read_at(id, Version(3)), Err(Error::VersionOutOfRange(Version(3)))));
    // The version is checked before the page number.
    assert!(matches!(pager.read_at(LogicalPageId(77), Version(3)), Err(Error::VersionOutOfRange(Version(3)))));
    pager.commit().unwrap();
    assert!(pager.read_at(id, Version(3)).is_ok());
}

#[test]
fn io_errors_come_back_to_the_caller() {
    assert!(matches!(treedb::pager::Pager::recover(BrokenFile), Err(Error::Io(_))));
}

#[test]
fn cache_is_bounded_and_pages_survive_eviction() {
    let mut pager = Pager::recover(MemoryFile::default()).unwrap();
    let mut ids = Vec::new();
    // More pages than the cache and the arena hold.
    for i in 0..1500usize {
        let id = pager.new_page_id();
        let mut page = pager.new_page_buffer().unwrap();
        page.buf_mut().fill((i % 251) as u8);
        pager.update_page(id, page).unwrap();
        ids.push(id);
    }
    for (i, id) in ids.iter().enumerate() {
        let page = pager.read_at(*id, Version(2)).unwrap();
        assert!(page.buf().iter().all(|b| *b == (i % 251) as u8));
    }
}

#[test]
fn busy_when_every_buffer_is_held_by_a_reader() {
    let mut pager = Pager::recover(MemoryFile::default()).unwrap();
    let mut held = Vec::new();
    // Readers keep every page they read, so no buffer can be used again.
    for _ in 0..1024 {
        let id = pager.new_page_id();
        let page = pager.new_page_buffer().unwrap();
        pager.update_page(id, page).unwrap();
        held.push(pager.read_at(id, Version(2)).unwrap());
    }
    assert!(matches!(pager.new_page_buffer(), Err(Error::Busy)));
    // Once a reader lets go, a buffer can be had again. The busy page
    // became the youngest, so the retry meets the page after it.
    held.remove(1);
    assert!(pager.new_page_buffer().is_ok());
}

#[test]
fn into_file_gives_the_bytes_back() {
    let mut pager = Pager::recover(MemoryFile::default()).unwrap();
    let id = pager.new_page_id();
    let mut page = pager.new_page_buffer().unwrap();
    page.buf_mut().fill(0x5A);
    pager.update_page(id, page).unwrap();
    pager.commit().unwrap();
    let file = pager.into_file();
    assert_eq!(file.data.borrow().len(), 2 * 4096);
    let mut pager = Pager::recover(file).unwrap();
    assert!(pager.read_at(id, Version(2)).unwrap().buf().iter().all(|b| *b == 0x5A));
}

#[test]
fn commit_fails_when_the_version_counter_is_spent() {
    let header = Header {
        commited_version: u64::MAX - 1,
        ..Header::fresh()
    };
    let mut bytes = vec![0u8; 4096];
    header.encode_into(&mut bytes);
    let file = MemoryFile::with_bytes(bytes.clone());
    let probe = file.clone();
    let mut pager = Pager::recover(file).unwrap();
    assert_eq!(pager.committed_version(), Version(u64::MAX - 1));
    assert_eq!(pager.current_version(), Version(u64::MAX));
    assert!(matches!(pager.commit(), Err(Error::VersionOutOfRange(_))));
    assert_eq!(pager.committed_version(), Version(u64::MAX - 1));
    assert_eq!(*probe.data.borrow(), bytes);
}

#[test]
fn clear_cache_keeps_every_page_readable() {
    let mut pager = Pager::recover(MemoryFile::default()).unwrap();
    let mut ids = Vec::new();
    for i in 0..20u8 {
        let id = pager.new_page_id();
        let mut page = pager.new_page_buffer().unwrap();
        page.buf_mut().fill(i);
        pager.update_page(id, page).unwrap();
        ids.push(id);
    }
    pager.clear_cache();
    for (i, id) in ids.iter().enumerate() {
        assert!(pager.read_at(*id, Version(2)).unwrap().buf().iter().all(|b| *b == i as u8));
    }
    assert_eq!(pager.next_page_id(), 21);
}

#[test]
fn remap_records_travel_through_a_queue() {
    let record = RemappedPage {
        version: Version(0x0102030405060708),
        original_page_id: LogicalPageId(5),
        new_page_id: LogicalPageId(6),
    };
    let bytes = record.encode();
    assert_eq!(
        bytes,
        vec![8, 7, 6, 5, 4, 3, 2, 1, 5, 0, 0, 0, 0, 0, 0, 0, 6, 0, 0, 0, 0, 0, 0, 0]
    );
    assert_eq!(RemappedPage::decode(&bytes), Some(record));
    assert_eq!(RemappedPage::decode(&bytes[..23]), None);

    let free = DelayedFreePage { version: Version(9), page_id: LogicalPageId(300) };
    assert_eq!(free.encode(), vec![9, 0, 0, 0, 0, 0, 0, 0, 0x2C, 1, 0, 0, 0, 0, 0, 0]);
    assert_eq!(DelayedFreePage::decode(&free.encode()), Some(free));
    assert_eq!(DelayedFreePage::decode(&[0; 15]), None);

    let mut pager: PageCache<MemoryFile> = PageCache::new(MemoryFile::default());
    let mut queue = FIFOQueue::create(&mut pager, 0, REMAPPED_PAGE_SIZE).unwrap();
    for n in 0..400usize {
        let record = RemappedPage {
            version: Version(n as u64),
            original_page_id: LogicalPageId(n),
            new_page_id: LogicalPageId(n + 1000),
        };
        queue.push_back(&mut pager, &record.encode()).unwrap();
    }
    for n in 0..400usize {
        let item = queue.pop(&mut pager).unwrap().unwrap();
        let record = RemappedPage::decode(&item).unwrap();
        assert_eq!(record.version, Version(n as u64));
        assert_eq!(record.original_page_id, LogicalPageId(n));
        assert_eq!(record.new_page_id, LogicalPageId(n + 1000));
    }
    assert_eq!(queue.pop(&mut pager).unwrap(), None);
}

#[test]
fn pager_alias_names_the_same_pager() {
    let mut pager: treedb::pager::Pager<MemoryFile> = DWALPager::recover(MemoryFile::default()).unwrap();
    assert_eq!(pager.new_page_id(), LogicalPageId(1));
}

#[test]
fn pool_hands_out_every_buffer_once_then_is_busy() {
    let mut pager = Pager::recover(MemoryFile::default()).unwrap();
    let mut held = Vec::new();
    // Nothing is cached, so only the pool can serve: 1024 buffers.
    for _ in 0..1024 {
        held.push(pager.new_page_buffer().unwrap());
    }
    assert!(matches!(pager.new_page_buffer(), Err(Error::Busy)));
    assert!(matches!(pager.new_page_buffer(), Err(Error::Busy)));
    // A buffer that comes back through a written page can be had again.
    let id = pager.new_page_id();
    pager.update_page(id, held.pop().unwrap()).unwrap();
    assert!(pager.new_page_buffer().is_ok());
    assert!(matches!(pager.new_page_buffer(), Err(Error::Busy)));
}

#[test]
fn refused_atomic_update_keeps_the_buffer() {
    let mut pager = Pager::recover(MemoryFile::default()).unwrap();
    let id = pager.new_page_id();
    let mut held = Vec::new();
    for _ in 0..1024 {
        held.push(pager.new_page_buffer().unwrap());
    }
    assert!(matches!(pager.new_page_buffer(), Err(Error::Busy)));
    // A page that was never handed out: the buffer comes back as a free one.
    let refused = pager.atomic_update(LogicalPageId(99), Version(2), held.pop().unwrap());
    assert!(matches!(refused, Err(Error::IndexOutofBounds(LogicalPageId(99)))));
    held.push(pager.new_page_buffer().unwrap());
    assert!(matches!(pager.new_page_buffer(), Err(Error::Busy)));
    // A version that is taken: the same.
    pager.atomic_update(id, Version(2), held.pop().unwrap()).unwrap();
    let refused = pager.atomic_update(id, Version(2), held.pop().unwrap());
    assert!(matches!(refused, Err(Error::VersionExists(_, Version(2)))));
    assert!(pager.new_page_buffer().is_ok());
}

#[test]
fn reads_of_cached_pages_need_no_buffer() {
    let mut pager = Pager::recover(MemoryFile::default()).unwrap();
    let id = pager.new_page_id();
    let mut page = pager.new_page_buffer().unwrap();
    page.buf_mut().fill(5);
    pager.update_page(id, page).unwrap();
    // Every other buffer is held, so nothing is free.
    let mut held = Vec::new();
    for _ in 0..1023 {
        held.push(pager.new_page_buffer().unwrap());
    }
    // The cached page is read all the same, as often as asked.
    for _ in 0..3 {
        assert!(pager.read_at(id, Version(2)).unwrap().buf().iter().all(|b| *b == 5));
    }
    assert_eq!(held.len(), 1023);
}
