//! The pager: fixed-size pages over a flat file, cached and versioned.
//!
//! A page is known by a logical number that never changes. Writing a
//! page in place puts it in the slot of its own number; a
//! copy-on-write update puts the new contents in a fresh slot and
//! records, in the version table, from which version on the page is
//! found there. Older versions stay readable where they were.

pub mod arena;
pub mod cache;
pub mod codec;
pub mod file;
pub mod header;
pub mod ids;
pub mod laws;
pub mod memory;
pub mod page;
pub mod page_cache;
pub mod queue;
pub mod records;
pub mod table;

pub use file::File;
pub use ids::{LogicalPageId, PhysicalPageId, Version};
pub use page::{PageBuf, PageBufMut, PAGE_SIZE, VERSION};
pub use page_cache::PageCache;
pub use queue::{FIFOQueue, QueueState};

use vstd::prelude::*;
use crate::error::Error;
use crate::pager::cache::{Cache, CachePolicy};
use crate::pager::file::{page_at, written};
use crate::pager::header::{addressable, Header};
use crate::pager::page_cache::CACHE_PAGES;
use crate::pager::table::{resolve, PageTable};

verus! {

/// The pager. A page can be written in place, or updated by a copy
/// that leaves the page as older versions see it untouched; the
/// version table says which copy a version sees.
pub struct DWALPager<F: File, C: CachePolicy<PageBuf> = Cache<usize, PageBuf>> {
    header: Header,
    page_table: PageTable,
    page_cache: PageCache<F, C>,
}

/// The pager with the cache that lets pages go in the order they
/// came.
pub type Pager<F> = DWALPager<F>;

impl<F: File, C: CachePolicy<PageBuf>> DWALPager<F, C> {
    /// The header as it stands in memory. Its page count is the one
    /// last committed.
    pub closed spec fn header(&self) -> Header {
        self.header
    }

    /// The bytes of the file.
    pub closed spec fn contents(&self) -> Seq<u8> {
        self.page_cache.contents()
    }

    /// The number of page slots handed out, the header's included:
    /// the number the next new page gets.
    pub closed spec fn page_count(&self) -> usize {
        self.page_cache.next_id()
    }

    /// The bytes of the file that are safe on the device.
    pub closed spec fn durable(&self) -> Seq<u8> {
        self.page_cache.durable()
    }

    /// The slots the file was asked to write, in the order it was
    /// asked, whether or not the write came through. Slot 0 is the
    /// header's.
    pub closed spec fn writes(&self) -> Seq<usize> {
        self.page_cache.writes()
    }

    /// Whether the file can be counted on not to fail.
    pub closed spec fn reliable(&self) -> bool {
        self.page_cache.reliable()
    }

    /// The number of buffers that can be had without taking one from
    /// a cached page.
    pub closed spec fn free_buffers(&self) -> nat {
        self.page_cache.free_buffers()
    }

    /// The number of pages in the cache.
    pub closed spec fn cached_count(&self) -> nat {
        self.page_cache.cached_count()
    }

    /// Whether the buffers stand as they stood in `before`: as many
    /// are free, and the same slots are cached.
    pub open spec fn same_buffers(&self, before: &Self) -> bool {
        &&& self.free_buffers() == before.free_buffers()
        &&& self.cached_count() == before.cached_count()
        &&& forall|slot: usize| self.cached(slot) == before.cached(slot)
    }

    /// Whether slot `slot` is in the cache, so that reading it asks
    /// nothing of the file.
    pub closed spec fn cached(&self, slot: usize) -> bool {
        self.page_cache.cached(slot)
    }

    /// The mappings recorded for page `id`, by version.
    pub closed spec fn versions(&self, id: usize) -> Map<u64, usize> {
        self.page_table.versions(id)
    }

    /// The bytes of page slot `slot`.
    pub open spec fn page(&self, slot: usize) -> Seq<u8> {
        page_at(self.contents(), slot as int)
    }

    /// The slot that holds page `id` at `version`.
    pub open spec fn slot_of(&self, id: usize, version: u64) -> usize {
        resolve(self.versions(id), id, version)
    }

    /// Whether `id` names a page that has been handed out.
    pub open spec fn in_bounds(&self, id: usize) -> bool {
        1 <= id < self.page_count()
    }

    /// The version being built: one past the last committed.
    pub open spec fn spec_current_version(&self) -> u64 {
        (self.header().commited_version + 1) as u64
    }

    /// Whether `version` can be read: not older than the oldest
    /// version kept, not newer than the version being built.
    pub open spec fn readable(&self, version: u64) -> bool {
        self.header().oldest_version <= version <= self.header().commited_version + 1
    }

    /// The state every operation expects and, unless the file fails a
    /// write, leaves behind: the header is valid, the cache agrees
    /// with the file, and every recorded mapping leads to a page that
    /// has been handed out.
    pub closed spec fn inv(&self) -> bool {
        &&& self.structure()
        &&& self.page_cache.inv()
    }

    /// What holds even after the file failed a write.
    pub closed spec fn structure(&self) -> bool {
        &&& self.header.valid()
        &&& self.header.page_count <= self.page_cache.next_id()
        &&& self.page_table.wf()
        &&& self.page_cache.wf()
        &&& forall|id: usize, v: u64| #[trigger]
            self.page_table.versions(id).contains_key(v) ==> 1 <= self.page_table.versions(id)[v]
                < self.page_cache.next_id()
    }

    /// What `inv` says of the header, the page count and the table.
    pub proof fn lemma_inv(&self)
        requires
            self.inv(),
        ensures
            self.header().valid(),
            self.page_count() >= 1,
            self.header().page_count <= self.page_count(),
            addressable(self.page_count() as int),
            forall|id: usize, v: u64| #[trigger]
                self.versions(id).contains_key(v) ==> self.in_bounds(self.versions(id)[v]),
            forall|id: usize, v: u64| self.in_bounds(id) ==> self.in_bounds(self.slot_of(id, v)),
            forall|slot: usize| self.cached(slot) ==> self.in_bounds(slot),
            self.cached_count() <= CACHE_PAGES,
    {
        self.page_cache.lemma_next_id();
    }

    /// Opens the pager on `file`. A file shorter than one page is
    /// new: it gets a fresh header, written and synced at once. Any
    /// other file must begin with a valid header, which is read; a
    /// header that does not decode is an error, and the file is left
    /// as it is. Either way the pager starts with an empty version
    /// table and an empty cache.
    pub fn recover(file: F) -> (r: Result<DWALPager<F, C>, Error>)
        ensures
            file.reliable() ==> r.is_ok() || (file.contents().len() >= PAGE_SIZE
                && !Header::decoding(file.contents()).valid()),
            file.reliable() ==> !(r matches Err(Error::Io(_))),
            r matches Ok(pager) ==> {
                &&& pager.inv()
                &&& pager.reliable() == file.reliable()
                &&& pager.writes() == if file.contents().len() < PAGE_SIZE {
                    seq![0usize]
                } else {
                    Seq::<usize>::empty()
                }
                &&& forall|id: usize| pager.versions(id) == Map::<u64, usize>::empty()
                &&& pager.free_buffers() == CACHE_PAGES
                &&& pager.cached_count() == 0
                &&& if file.contents().len() < PAGE_SIZE {
                    &&& pager.header() == Header::spec_fresh()
                    &&& pager.page_count() == 1
                    &&& pager.contents() == written(
                        file.contents(),
                        0,
                        Header::spec_fresh().page(),
                    )
                    &&& pager.durable() == pager.contents()
                } else {
                    &&& pager.header() == Header::decoding(file.contents())
                    &&& pager.page_count() == pager.header().page_count
                    &&& pager.contents() == file.contents()
                    &&& pager.durable() == file.durable()
                }
            },
            file.contents().len() >= PAGE_SIZE && !Header::decoding(file.contents()).valid()
                ==> r.is_err(),
            r matches Err(e) ==> e is Io || (e is Serialization && file.contents().len()
                >= PAGE_SIZE && !Header::decoding(file.contents()).valid()),
    {
        let file_size: usize = match file.len() {
            Ok(n) => n,
            Err(e) => {
                return Err(e);
            },
        };
        if file_size < PAGE_SIZE {
            let header = Header::fresh();
            let mut page_cache = PageCache::new(file);
            match page_cache.write_header(&header) {
                Ok(()) => {},
                Err(e) => {
                    return Err(e);
                },
            }
            match page_cache.flush() {
                Ok(()) => {},
                Err(e) => {
                    return Err(e);
                },
            }
            let page_table = PageTable::new();
            Ok(DWALPager { header, page_table, page_cache })
        } else {
            let mut header_buf = PageBufMut::new();
            match file.read_at(header_buf.as_bytes_mut(), 0) {
                Ok(_) => {},
                Err(e) => {
                    return Err(e);
                },
            }
            proof {
                assert(header_buf@.subrange(0, 2) =~= file.contents().subrange(0, 2));
                assert(header_buf@.subrange(2, 6) =~= file.contents().subrange(2, 6));
                assert(header_buf@.subrange(6, 14) =~= file.contents().subrange(6, 14));
                assert(header_buf@.subrange(14, 22) =~= file.contents().subrange(14, 22));
                assert(header_buf@.subrange(22, 30) =~= file.contents().subrange(22, 30));
            }
            let header = match Header::decode(header_buf.as_bytes()) {
                Ok(header) => header,
                Err(e) => {
                    return Err(e);
                },
            };
            let page_cache = PageCache::with_next_id(file, header.page_count as usize);
            let page_table = PageTable::new();
            Ok(DWALPager { header, page_table, page_cache })
        }
    }

    /// Closes the pager and gives the file back.
    pub fn into_file(self) -> (file: F)
        ensures
            file.contents() == self.contents(),
            file.durable() == self.durable(),
            file.reliable() == self.reliable(),
    {
        self.page_cache.into_file()
    }

    /// The last version made durable.
    pub fn committed_version(&self) -> (v: Version)
        ensures
            v.0 == self.header().commited_version,
    {
        Version(self.header.commited_version)
    }

    /// The version being built: one past the last committed.
    pub fn current_version(&self) -> (v: Version)
        requires
            self.inv(),
        ensures
            v.0 == self.spec_current_version(),
    {
        Version(self.header.commited_version + 1)
    }

    /// The number the next new page gets.
    pub fn next_page_id(&self) -> (n: usize)
        ensures
            n == self.page_count(),
    {
        self.page_cache.next_page_id()
    }

    /// Whether another page can be handed out.
    pub fn can_allocate(&self) -> (b: bool)
        requires
            self.inv(),
        ensures
            b == addressable(self.page_count() + 1),
    {
        self.page_cache.can_allocate()
    }

    /// Hands out the next page number. Numbers only grow; the first
    /// of a new file is 1, since page 0 holds the header.
    pub fn new_page_id(&mut self) -> (id: LogicalPageId)
        requires
            old(self).inv(),
            addressable(old(self).page_count() + 1),
        ensures
            final(self).inv(),
            id.0 == old(self).page_count(),
            final(self).page_count() == old(self).page_count() + 1,
            final(self).contents() == old(self).contents(),
            final(self).durable() == old(self).durable(),
            final(self).header() == old(self).header(),
            final(self).reliable() == old(self).reliable(),
            final(self).writes() == old(self).writes(),
            forall|other: usize| final(self).versions(other) == old(self).versions(other),
            final(self).same_buffers(old(self)),
    {
        let page_id = self.page_cache.new_last_page_id();
        LogicalPageId(page_id.0)
    }

    /// A page buffer to fill. While a buffer is free, one is handed
    /// out: there is then one free buffer fewer, and the cache is as
    /// it was. When none is free, the cache lets a page go and its
    /// buffer is handed out: the cache then holds one page fewer. If
    /// a reader still holds that page, or the cache holds no page,
    /// nothing changes and the answer is `Busy`.
    pub fn new_page_buffer(&mut self) -> (r: Result<PageBufMut, Error>)
        requires
            old(self).inv(),
        ensures
            final(self).inv(),
            final(self).contents() == old(self).contents(),
            final(self).durable() == old(self).durable(),
            final(self).page_count() == old(self).page_count(),
            final(self).header() == old(self).header(),
            final(self).reliable() == old(self).reliable(),
            final(self).writes() == old(self).writes(),
            forall|other: usize| final(self).versions(other) == old(self).versions(other),
            forall|slot: usize| final(self).cached(slot) ==> old(self).cached(slot),
            old(self).free_buffers() > 0 ==> {
                &&& r.is_ok()
                &&& final(self).free_buffers() == old(self).free_buffers() - 1
                &&& final(self).cached_count() == old(self).cached_count()
                &&& forall|slot: usize| final(self).cached(slot) == old(self).cached(slot)
            },
            old(self).free_buffers() == 0 ==> {
                &&& final(self).free_buffers() == 0
                &&& r.is_ok() ==> old(self).cached_count() > 0 && final(self).cached_count()
                    == old(self).cached_count() - 1
                &&& r.is_err() ==> final(self).cached_count() == old(self).cached_count()
                    && forall|slot: usize| final(self).cached(slot) == old(self).cached(slot)
            },
            old(self).free_buffers() == 0 && old(self).cached_count() == 0 ==> r.is_err(),
            r matches Ok(buf) ==> buf.wf(),
            r matches Err(e) ==> e is Busy,
    {
        self.page_cache.new_page_buffer()
    }

    /// The slot that holds page `id` at `version`.
    pub fn get_physical_page_id(&self, id: LogicalPageId, version: Version) -> (slot:
        PhysicalPageId)
        requires
            self.inv(),
        ensures
            slot.0 == self.slot_of(id.0, version.0),
    {
        self.page_table.get_physical_page_id(id, version)
    }

    /// Reads page `id` as `version` sees it. A version outside the
    /// readable window is refused, then a page that was never handed
    /// out. Otherwise the page comes from the slot the version table
    /// resolves to.
    pub fn read_at(&mut self, id: LogicalPageId, version: Version) -> (r: Result<PageBuf, Error>)
        requires
            old(self).inv(),
        ensures
            final(self).inv(),
            final(self).contents() == old(self).contents(),
            final(self).page_count() == old(self).page_count(),
            final(self).header() == old(self).header(),
            final(self).reliable() == old(self).reliable(),
            final(self).writes() == old(self).writes(),
            forall|other: usize| final(self).versions(other) == old(self).versions(other),
            !old(self).readable(version.0) ==> (r matches Err(Error::VersionOutOfRange(v)) && v
                == version),
            old(self).readable(version.0) && !old(self).in_bounds(id.0) ==> (r matches Err(
                Error::IndexOutofBounds(i),
            ) && i == id),
            r matches Ok(page) ==> {
                &&& old(self).readable(version.0)
                &&& old(self).in_bounds(id.0)
                &&& page.wf()
                &&& page@ == old(self).page(old(self).slot_of(id.0, version.0))
                &&& final(self).cached(old(self).slot_of(id.0, version.0))
            },
            old(self).readable(version.0) && old(self).in_bounds(id.0) && old(self).cached(
                old(self).slot_of(id.0, version.0),
            ) ==> r.is_ok(),
            old(self).readable(version.0) && old(self).in_bounds(id.0) ==> r.is_ok() || (
            r matches Err(e) && (e is Busy || e is Io)),
            old(self).reliable() ==> !(r matches Err(Error::Io(_))),
            final(self).durable() == old(self).durable(),
            !old(self).readable(version.0) || !old(self).in_bounds(id.0) || old(self).cached(
                old(self).slot_of(id.0, version.0),
            ) ==> final(self).same_buffers(old(self)),
            old(self).free_buffers() > 0 ==> !(r matches Err(Error::Busy)),
            (r matches Err(e) && e is Busy) ==> final(self).same_buffers(old(self)),
            r.is_err() && old(self).free_buffers() > 0 ==> final(self).same_buffers(old(self)),
            r.is_ok() && !old(self).cached(old(self).slot_of(id.0, version.0))
                && old(self).free_buffers() > 0 ==> {
                &&& old(self).free_buffers() - 1 <= final(self).free_buffers()
                    <= old(self).free_buffers()
                &&& final(self).cached_count() == if old(self).cached_count() < CACHE_PAGES {
                    old(self).cached_count() + 1
                } else {
                    old(self).cached_count()
                }
            },
            final(self).free_buffers() + 1 >= old(self).free_buffers(),
            final(self).free_buffers() <= old(self).free_buffers() + 1,
            final(self).cached_count() + 1 >= old(self).cached_count(),
            final(self).cached_count() <= old(self).cached_count() + 1,
    {
        if version.0 < self.header.oldest_version || version.0 > self.header.commited_version + 1 {
            return Err(Error::VersionOutOfRange(version));
        }
        if id.0 == 0 || id.0 >= self.page_cache.next_page_id() {
            return Err(Error::IndexOutofBounds(id));
        }
        proof {
            self.lemma_inv();
        }
        let page_id = self.get_physical_page_id(id, version);
        self.page_cache.read_page(page_id)
    }

    /// Writes `page` in place, into the slot of its own number, for
    /// every version that resolves there.
    pub fn update_page(&mut self, page_id: LogicalPageId, page: PageBufMut) -> (r: Result<
        (),
        Error,
    >)
        requires
            old(self).inv(),
            page.wf(),
        ensures
            final(self).structure(),
            final(self).page_count() == old(self).page_count(),
            final(self).header() == old(self).header(),
            final(self).reliable() == old(self).reliable(),
            final(self).writes() == if old(self).in_bounds(page_id.0) {
                old(self).writes().push(page_id.0)
            } else {
                old(self).writes()
            },
            old(self).reliable() && old(self).in_bounds(page_id.0) ==> r.is_ok(),
            forall|other: usize| final(self).versions(other) == old(self).versions(other),
            !old(self).in_bounds(page_id.0) ==> {
                &&& (r matches Err(Error::IndexOutofBounds(id)) && id == page_id)
                &&& final(self).inv()
                &&& final(self).contents() == old(self).contents()
            },
            r.is_ok() ==> {
                &&& old(self).in_bounds(page_id.0)
                &&& final(self).inv()
                &&& final(self).cached(page_id.0)
                &&& final(self).contents() == written(
                    old(self).contents(),
                    page_id.0 * PAGE_SIZE,
                    page@,
                )
            },
            old(self).in_bounds(page_id.0) ==> r.is_ok() || (r matches Err(e) && e is Io),
            !old(self).in_bounds(page_id.0) ==> final(self).free_buffers()
                == old(self).free_buffers() + 1,
            old(self).free_buffers() <= final(self).free_buffers() <= old(self).free_buffers() + 1,
            r.is_err() || old(self).cached(page_id.0) ==> final(self).cached_count()
                == old(self).cached_count()
                && forall|slot: usize| final(self).cached(slot) == old(self).cached(slot),
            r.is_ok() && !old(self).cached(page_id.0) ==> final(self).cached_count()
                == if old(self).cached_count() < CACHE_PAGES {
                old(self).cached_count() + 1
            } else {
                old(self).cached_count()
            },
    {
        self.page_cache.update_page(page_id, page)
    }

    /// Writes a frozen page to `slot`, refreshing the cache if the
    /// slot is cached.
    pub fn write_page(&mut self, slot: PhysicalPageId, page: &PageBuf) -> (r: Result<(), Error>)
        requires
            old(self).inv(),
            page.wf(),
        ensures
            final(self).structure(),
            final(self).page_count() == old(self).page_count(),
            final(self).header() == old(self).header(),
            final(self).reliable() == old(self).reliable(),
            final(self).writes() == if old(self).in_bounds(slot.0) {
                old(self).writes().push(slot.0)
            } else {
                old(self).writes()
            },
            old(self).reliable() && old(self).in_bounds(slot.0) ==> r.is_ok(),
            forall|other: usize| final(self).versions(other) == old(self).versions(other),
            !old(self).in_bounds(slot.0) ==> {
                &&& (r matches Err(Error::IndexOutofBounds(id)) && id.0 == slot.0)
                &&& final(self).inv()
                &&& final(self).contents() == old(self).contents()
            },
            r.is_ok() ==> {
                &&& old(self).in_bounds(slot.0)
                &&& final(self).inv()
                &&& final(self).contents() == written(
                    old(self).contents(),
                    slot.0 * PAGE_SIZE,
                    page@,
                )
            },
            old(self).in_bounds(slot.0) ==> r.is_ok() || (r matches Err(e) && e is Io),
            final(self).cached_count() == old(self).cached_count(),
            forall|k: usize| final(self).cached(k) == old(self).cached(k),
            old(self).free_buffers() <= final(self).free_buffers() <= old(self).free_buffers() + 1,
            r.is_err() || !old(self).cached(slot.0) ==> final(self).free_buffers()
                == old(self).free_buffers(),
    {
        self.page_cache.write_page(slot, page)
    }

    /// Updates page `page_id` without touching what older versions
    /// see: the new contents go to a fresh page, and from `version`
    /// on `page_id` resolves to it. The fresh page's number is the
    /// answer. A page never handed out is refused, then a version
    /// that already has a mapping for the page; in both cases nothing
    /// changes but that the buffer given is kept as a free one.
    pub fn atomic_update(&mut self, page_id: LogicalPageId, version: Version, page: PageBufMut) -> (r:
        Result<LogicalPageId, Error>)
        requires
            old(self).inv(),
            page.wf(),
            addressable(old(self).page_count() + 1),
        ensures
            final(self).structure(),
            final(self).header() == old(self).header(),
            final(self).reliable() == old(self).reliable(),
            final(self).writes() == if old(self).in_bounds(page_id.0) && !old(self).versions(
                page_id.0,
            ).contains_key(version.0) {
                old(self).writes().push(old(self).page_count())
            } else {
                old(self).writes()
            },
            old(self).reliable() && old(self).in_bounds(page_id.0) && !old(self).versions(
                page_id.0,
            ).contains_key(version.0) ==> r.is_ok(),
            forall|other: usize|
                other != page_id.0 ==> final(self).versions(other) == old(self).versions(other),
            !old(self).in_bounds(page_id.0) ==> {
                &&& (r matches Err(Error::IndexOutofBounds(id)) && id == page_id)
                &&& final(self).inv()
                &&& final(self).contents() == old(self).contents()
                &&& final(self).page_count() == old(self).page_count()
                &&& final(self).versions(page_id.0) == old(self).versions(page_id.0)
            },
            old(self).in_bounds(page_id.0) && old(self).versions(page_id.0).contains_key(version.0)
                ==> {
                &&& (r matches Err(Error::VersionExists(id, v)) && id == page_id && v == version)
                &&& final(self).inv()
                &&& final(self).contents() == old(self).contents()
                &&& final(self).page_count() == old(self).page_count()
                &&& final(self).versions(page_id.0) == old(self).versions(page_id.0)
            },
            r matches Ok(new_id) ==> {
                &&& old(self).in_bounds(page_id.0)
                &&& !old(self).versions(page_id.0).contains_key(version.0)
                &&& final(self).inv()
                &&& new_id.0 == old(self).page_count()
                &&& final(self).cached(new_id.0)
                &&& final(self).page_count() == old(self).page_count() + 1
                &&& final(self).contents() == written(
                    old(self).contents(),
                    new_id.0 * PAGE_SIZE,
                    page@,
                )
                &&& final(self).versions(page_id.0) == old(self).versions(page_id.0).insert(
                    version.0,
                    new_id.0,
                )
            },
            r.is_err() ==> final(self).versions(page_id.0) == old(self).versions(page_id.0),
            !old(self).in_bounds(page_id.0) || old(self).versions(page_id.0).contains_key(
                version.0,
            ) ==> final(self).free_buffers() == old(self).free_buffers() + 1,
            old(self).free_buffers() <= final(self).free_buffers() <= old(self).free_buffers() + 1,
            r.is_err() ==> final(self).cached_count() == old(self).cached_count()
                && forall|slot: usize| final(self).cached(slot) == old(self).cached(slot),
            r.is_ok() ==> final(self).cached_count() == if old(self).cached_count() < CACHE_PAGES {
                old(self).cached_count() + 1
            } else {
                old(self).cached_count()
            },
            old(self).in_bounds(page_id.0) && !old(self).versions(page_id.0).contains_key(
                version.0,
            ) ==> r.is_ok() || (r matches Err(e) && e is Io),
    {
        proof {
            self.page_cache.lemma_next_id();
        }
        if page_id.0 == 0 || page_id.0 >= self.page_cache.next_page_id() {
            self.page_cache.give_back(page);
            return Err(Error::IndexOutofBounds(page_id));
        }
        if self.page_table.is_recorded(page_id, version) {
            self.page_cache.give_back(page);
            return Err(Error::VersionExists(page_id, version));
        }
        let new_page_id = LogicalPageId(self.page_cache.new_last_page_id().0);
        match self.page_cache.update_page(new_page_id, page) {
            Ok(()) => {},
            Err(e) => {
                return Err(e);
            },
        }
        let added = self.page_table.record(page_id, version, PhysicalPageId(new_page_id.0));
        Ok(new_page_id)
    }

    /// Empties the cache. After the file failed a write the cache may
    /// hold a page the file does not; with the cache empty the pager
    /// is sound again, and the caller may try again.
    pub fn clear_cache(&mut self)
        requires
            old(self).structure(),
        ensures
            final(self).inv(),
            final(self).contents() == old(self).contents(),
            final(self).page_count() == old(self).page_count(),
            final(self).durable() == old(self).durable(),
            final(self).header() == old(self).header(),
            final(self).reliable() == old(self).reliable(),
            final(self).writes() == old(self).writes(),
            forall|other: usize| final(self).versions(other) == old(self).versions(other),
            forall|slot: usize| !final(self).cached(slot),
            final(self).cached_count() == 0,
            old(self).free_buffers() <= final(self).free_buffers() <= old(self).free_buffers()
                + old(self).cached_count(),
    {
        self.page_cache.clear_cache()
    }

    /// Makes the version being built the committed one: the header,
    /// with the new version and the current page count, is written
    /// and synced. The header in memory moves on only once that has
    /// succeeded. When the version counter has no room left the
    /// answer is `VersionOutOfRange` and nothing changes.
    pub fn commit(&mut self) -> (r: Result<(), Error>)
        requires
            old(self).inv(),
        ensures
            final(self).structure(),
            final(self).page_count() == old(self).page_count(),
            forall|other: usize| final(self).versions(other) == old(self).versions(other),
            final(self).reliable() == old(self).reliable(),
            final(self).writes() == if old(self).header().commited_version + 1 < u64::MAX {
                old(self).writes().push(0)
            } else {
                old(self).writes()
            },
            old(self).reliable() && old(self).header().commited_version + 1 < u64::MAX
                ==> r.is_ok(),
            old(self).header().commited_version + 1 >= u64::MAX ==> {
                &&& r matches Err(Error::VersionOutOfRange(_))
                &&& final(self).inv()
                &&& final(self).header() == old(self).header()
                &&& final(self).contents() == old(self).contents()
            },
            r.is_ok() ==> {
                &&& final(self).inv()
                &&& final(self).header() == (Header {
                    commited_version: (old(self).header().commited_version + 1) as u64,
                    page_count: old(self).page_count() as u64,
                    ..old(self).header()
                })
                &&& final(self).contents() == written(
                    old(self).contents(),
                    0,
                    final(self).header().page(),
                )
                &&& final(self).durable() == final(self).contents()
            },
            r.is_err() ==> final(self).header() == old(self).header(),
            old(self).header().commited_version + 1 < u64::MAX ==> r.is_ok() || (
            r matches Err(e) && e is Io),
            final(self).same_buffers(old(self)),
    {
        proof {
            self.lemma_inv();
        }
        if self.header.commited_version >= u64::MAX - 1 {
            return Err(Error::VersionOutOfRange(Version(self.header.commited_version)));
        }
        let header = Header {
            commited_version: self.header.commited_version + 1,
            page_count: self.page_cache.next_page_id() as u64,
            ..self.header
        };
        match self.page_cache.write_header(&header) {
            Ok(()) => {},
            Err(e) => {
                return Err(e);
            },
        }
        match self.page_cache.flush() {
            Ok(()) => {},
            Err(e) => {
                return Err(e);
            },
        }
        self.header = header;
        Ok(())
    }
}

} // verus!
