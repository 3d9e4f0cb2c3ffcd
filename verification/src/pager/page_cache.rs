//! The page cache: the file, the buffers, and the cached pages
//! between them.
//!
//! Every cached page equals the bytes of its slot in the file, so the
//! cache is invisible: a page read is what the file holds, wherever
//! the bytes come from.

use vstd::arithmetic::power2::is_pow2;
use vstd::pervasive::unreached;
use vstd::prelude::*;
use crate::error::Error;
use crate::pager::arena::Arena;
use crate::pager::cache::{Cache, CachePolicy};
use crate::pager::file::{
    lemma_written_elsewhere, lemma_written_page, page_at, read_count, written, File,
};
use crate::pager::header::{addressable, is_addressable, Header};
use crate::pager::ids::{LogicalPageId, PhysicalPageId};
use crate::pager::page::{zeros, PageBuf, PageBufMut, PAGE_SIZE};

verus! {

/// The number of pages the cache holds, and of buffers the arena has.
pub const CACHE_PAGES: usize = 1024;

/// The file and everything in memory that stands before it. Which
/// page leaves the cache when it is full is up to the cache `C`;
/// unless another is named, pages leave in the order they came.
pub struct PageCache<F: File, C: CachePolicy<PageBuf> = Cache<usize, PageBuf>> {
    file: F,
    next_page_id: usize,
    cache: C,
    page_arena: Arena,
    spare: Vec<PageBufMut>,
    writes: Ghost<Seq<usize>>,
}

impl<F: File, C: CachePolicy<PageBuf>> PageCache<F, C> {
    /// The bytes of the file.
    pub closed spec fn contents(&self) -> Seq<u8> {
        self.file.contents()
    }

    /// The bytes of the file that are safe on the device.
    pub closed spec fn durable(&self) -> Seq<u8> {
        self.file.durable()
    }

    /// The slots the file was asked to write, in the order it was
    /// asked, whether or not the write came through. Slot 0 is the
    /// header's.
    pub closed spec fn writes(&self) -> Seq<usize> {
        self.writes@
    }

    /// Whether the file can be counted on not to fail.
    pub closed spec fn reliable(&self) -> bool {
        self.file.reliable()
    }

    /// The number the next new page gets; every page below it has
    /// been handed out.
    pub closed spec fn next_id(&self) -> usize {
        self.next_page_id
    }

    /// Whether slot `slot` is in the cache.
    pub closed spec fn cached(&self, slot: usize) -> bool {
        self.cache.map().contains_key(slot)
    }

    /// The number of buffers that can be had without evicting a page.
    pub closed spec fn free_buffers(&self) -> nat {
        (self.spare@.len() + self.page_arena.spec_num_pages() - self.page_arena.issued()) as nat
    }

    /// The number of pages in the cache.
    pub closed spec fn cached_count(&self) -> nat {
        self.cache.count()
    }

    /// Whether the buffers stand as they stood in `before`: as many
    /// are free, and the same slots are cached.
    pub open spec fn same_buffers(&self, before: &Self) -> bool {
        &&& self.free_buffers() == before.free_buffers()
        &&& self.cached_count() == before.cached_count()
        &&& forall|k: usize| self.cached(k) == before.cached(k)
    }

    /// The bytes of page slot `slot`.
    pub open spec fn page(&self, slot: usize) -> Seq<u8> {
        page_at(self.contents(), slot as int)
    }

    /// Whether `slot` names a page that has been handed out. Slot 0
    /// holds the file header and is no page.
    pub open spec fn in_bounds(&self, slot: usize) -> bool {
        1 <= slot < self.next_id()
    }

    /// The parts fit together: buffers are whole pages, cached slots
    /// have been handed out, and every slot handed out can be
    /// addressed.
    pub closed spec fn wf(&self) -> bool {
        &&& self.cache.wf()
        &&& self.cache.spec_capacity() == CACHE_PAGES
        &&& self.page_arena.wf()
        &&& self.next_page_id >= 1
        &&& addressable(self.next_page_id as int)
        &&& forall|k: usize| #[trigger]
            self.cache.map().contains_key(k) ==> self.cache.map()[k].wf() && 1 <= k
                < self.next_page_id
        &&& forall|i: int| 0 <= i < self.spare@.len() ==> (#[trigger] self.spare@[i]).wf()
    }

    /// Every cached page equals its slot in the file.
    pub closed spec fn coherent(&self) -> bool {
        forall|k: usize| #[trigger]
            self.cache.map().contains_key(k) ==> self.cache.map()[k]@ == page_at(
                self.file.contents(),
                k as int,
            )
    }

    /// The state every operation expects and, unless the file fails a
    /// write, leaves behind.
    pub open spec fn inv(&self) -> bool {
        self.wf() && self.coherent()
    }

    /// What `wf` says of the next page number and of the cache: only
    /// pages that have been handed out are cached, and no more of
    /// them than the cache was made for.
    pub proof fn lemma_next_id(&self)
        requires
            self.wf(),
        ensures
            self.next_id() >= 1,
            addressable(self.next_id() as int),
            forall|k: usize| self.cached(k) ==> self.in_bounds(k),
            self.cached_count() <= CACHE_PAGES,
    {
        self.cache.lemma_count();
    }

    /// A page cache over `file` whose next new page is `next_page_id`.
    pub fn with_next_id(file: F, next_page_id: usize) -> (pc: PageCache<F, C>)
        requires
            next_page_id >= 1,
            addressable(next_page_id as int),
        ensures
            pc.inv(),
            pc.contents() == file.contents(),
            pc.durable() == file.durable(),
            pc.reliable() == file.reliable(),
            pc.writes() == Seq::<usize>::empty(),
            pc.next_id() == next_page_id,
            pc.free_buffers() == CACHE_PAGES,
            pc.cached_count() == 0,
            forall|k: usize| !pc.cached(k),
    {
        let cache = C::with_capacity(CACHE_PAGES);
        proof {
            reveal_with_fuel(is_pow2, 14);
        }
        let page_arena = match Arena::new(PAGE_SIZE, CACHE_PAGES) {
            Ok(arena) => arena,
            Err(_) => unreached(),
        };
        PageCache {
            file,
            next_page_id,
            cache,
            page_arena,
            spare: Vec::new(),
            writes: Ghost(Seq::empty()),
        }
    }

    /// A page cache over `file`. Page 0 is the header's, so the first
    /// new page is page 1.
    pub fn new(file: F) -> (pc: PageCache<F, C>)
        ensures
            pc.inv(),
            pc.contents() == file.contents(),
            pc.durable() == file.durable(),
            pc.reliable() == file.reliable(),
            pc.writes() == Seq::<usize>::empty(),
            pc.next_id() == 1,
            pc.free_buffers() == CACHE_PAGES,
            pc.cached_count() == 0,
            forall|k: usize| !pc.cached(k),
    {
        PageCache::with_next_id(file, 1)
    }

    /// Gives the file back and forgets everything cached.
    pub fn into_file(self) -> (file: F)
        ensures
            file.contents() == self.contents(),
            file.durable() == self.durable(),
            file.reliable() == self.reliable(),
    {
        self.file
    }

    /// The number the next new page gets.
    pub fn next_page_id(&self) -> (n: usize)
        ensures
            n == self.next_id(),
    {
        self.next_page_id
    }

    /// Whether another page can be handed out: one more slot must
    /// still be addressable.
    pub fn can_allocate(&self) -> (b: bool)
        requires
            self.wf(),
        ensures
            b == addressable(self.next_id() + 1),
    {
        self.next_page_id < usize::MAX - 1 && is_addressable(self.next_page_id as u64 + 1)
    }

    /// Hands out the next page number.
    pub fn new_last_page_id(&mut self) -> (id: PhysicalPageId)
        requires
            old(self).inv(),
            addressable(old(self).next_id() + 1),
        ensures
            final(self).inv(),
            id.0 == old(self).next_id(),
            final(self).next_id() == old(self).next_id() + 1,
            final(self).reliable() == old(self).reliable(),
            final(self).writes() == old(self).writes(),
            final(self).contents() == old(self).contents(),
            final(self).durable() == old(self).durable(),
            final(self).same_buffers(old(self)),
    {
        let page_id = self.next_page_id;
        self.next_page_id = page_id + 1;
        PhysicalPageId(page_id)
    }

    /// Takes a frozen page out of circulation. `taken` is what came
    /// of trying to take the page's buffer back: a buffer that was
    /// taken is kept for the next caller that needs one; a page that
    /// a reader still shares is left to its readers.
    fn reclaim(&mut self, taken: Result<PageBufMut, PageBuf>)
        requires
            old(self).wf(),
            taken matches Ok(buf) ==> buf.wf(),
        ensures
            final(self).wf(),
            final(self).file == old(self).file,
            final(self).cache == old(self).cache,
            final(self).next_page_id == old(self).next_page_id,
            final(self).writes@ == old(self).writes@,
            final(self).page_arena == old(self).page_arena,
            final(self).spare@ == match taken {
                Ok(buf) => old(self).spare@.push(buf),
                Err(_) => old(self).spare@,
            },
            final(self).free_buffers() == old(self).free_buffers() + if taken is Ok {
                1nat
            } else {
                0nat
            },
    {
        proof {
            self.page_arena.lemma_issued_bound();
        }
        match taken {
            Ok(buf) => {
                self.spare.push(buf);
            },
            Err(_) => {},
        }
    }

    /// Takes back a buffer that was handed out and not used.
    pub fn give_back(&mut self, buf: PageBufMut)
        requires
            old(self).wf(),
            buf.wf(),
        ensures
            final(self).wf(),
            old(self).inv() ==> final(self).inv(),
            final(self).contents() == old(self).contents(),
            final(self).durable() == old(self).durable(),
            final(self).next_id() == old(self).next_id(),
            final(self).reliable() == old(self).reliable(),
            final(self).writes() == old(self).writes(),
            final(self).cached_count() == old(self).cached_count(),
            forall|k: usize| final(self).cached(k) == old(self).cached(k),
            final(self).free_buffers() == old(self).free_buffers() + 1,
    {
        self.keep(buf)
    }

    /// Keeps a buffer that is no longer needed for the next caller.
    fn keep(&mut self, buf: PageBufMut)
        requires
            old(self).wf(),
            buf.wf(),
        ensures
            final(self).wf(),
            final(self).file == old(self).file,
            final(self).cache == old(self).cache,
            final(self).next_page_id == old(self).next_page_id,
            final(self).writes@ == old(self).writes@,
            final(self).free_buffers() == old(self).free_buffers() + 1,
    {
        proof {
            self.page_arena.lemma_issued_bound();
        }
        self.spare.push(buf);
    }

    /// A page buffer to fill. It comes from the buffers kept or from
    /// the arena, and then there is one free buffer fewer and the
    /// cache is as it was. When both are spent, the cache lets a page
    /// go and its buffer is used again: the cache then holds one page
    /// fewer. If a reader still shares that page, the page goes back
    /// into the cache, nothing has changed, and the answer is `Busy`;
    /// so it is when the cache has no page to let go.
    pub fn new_page_buffer(&mut self) -> (r: Result<PageBufMut, Error>)
        requires
            old(self).inv(),
        ensures
            final(self).inv(),
            final(self).contents() == old(self).contents(),
            final(self).durable() == old(self).durable(),
            final(self).next_id() == old(self).next_id(),
            final(self).reliable() == old(self).reliable(),
            final(self).writes() == old(self).writes(),
            forall|k: usize| final(self).cached(k) ==> old(self).cached(k),
            old(self).free_buffers() > 0 ==> {
                &&& r.is_ok()
                &&& final(self).free_buffers() == old(self).free_buffers() - 1
                &&& final(self).cached_count() == old(self).cached_count()
                &&& forall|k: usize| final(self).cached(k) == old(self).cached(k)
            },
            old(self).free_buffers() == 0 ==> {
                &&& final(self).free_buffers() == 0
                &&& r.is_ok() ==> old(self).cached_count() > 0 && final(self).cached_count()
                    == old(self).cached_count() - 1
                &&& r.is_err() ==> final(self).cached_count() == old(self).cached_count()
                    && forall|k: usize| final(self).cached(k) == old(self).cached(k)
            },
            old(self).free_buffers() == 0 && old(self).cached_count() == 0 ==> r.is_err(),
            r matches Ok(buf) ==> buf.wf(),
            r matches Err(e) ==> e is Busy,
    {
        proof {
            self.page_arena.lemma_issued_bound();
        }
        if self.spare.len() > 0 {
            match self.spare.pop() {
                Some(buf) => {
                    return Ok(buf);
                },
                None => {},
            }
        }
        match self.page_arena.alloc_slot() {
            Ok(_) => {
                return Ok(PageBufMut::new());
            },
            Err(_) => {},
        }
        proof {
            self.cache.lemma_count();
        }
        match self.cache.evict() {
            None => Err(Error::Busy),
            Some((slot, page)) => {
                match page.try_take() {
                    Ok(buf) => Ok(buf),
                    Err(page) => {
                        // The page is still shared: it goes back into
                        // the cache, which has room for it again.
                        let evicted = self.cache.insert(slot, page);
                        assert(evicted.is_none());
                        assert(self.cache.map() =~= old(self).cache.map().remove(slot).insert(
                            slot,
                            page,
                        ));
                        Err(Error::Busy)
                    },
                }
            },
        }
    }

    /// Reads the bytes of `slot` from the file into `page`, with zeros
    /// where the file does not reach.
    fn read_physical_page(&self, slot: PhysicalPageId, page: &mut PageBufMut) -> (r: Result<
        (),
        Error,
    >)
        requires
            self.wf(),
            self.in_bounds(slot.0),
            old(page).wf(),
        ensures
            final(page).wf(),
            r.is_ok() ==> final(page)@ == self.page(slot.0),
            r matches Err(e) ==> e is Io,
            self.reliable() ==> r.is_ok(),
    {
        assert(slot.0 * PAGE_SIZE <= self.next_page_id * PAGE_SIZE) by (nonlinear_arith)
            requires
                slot.0 <= self.next_page_id,
        ;
        let offset: u64 = slot.0 as u64 * PAGE_SIZE as u64;
        let count: usize = match self.file.read_at(page.as_bytes_mut(), offset) {
            Ok(n) => n,
            Err(e) => {
                return Err(e);
            },
        };
        let ghost contents = self.file.contents();
        let mut i: usize = count;
        let bytes = page.as_bytes_mut();
        while i < PAGE_SIZE
            invariant
                count <= i <= PAGE_SIZE,
                bytes@.len() == PAGE_SIZE,
                count == read_count(contents, offset as int, PAGE_SIZE as int),
                forall|j: int| 0 <= j < count ==> bytes@[j] == contents[offset + j],
                forall|j: int| count <= j < i ==> bytes@[j] == 0,
            decreases PAGE_SIZE - i,
        {
            bytes[i] = 0;
            i = i + 1;
        }
        Ok(())
    }

    /// Writes `bytes` to the file at `slot`. The cache is not told.
    fn write_physical(&mut self, slot: usize, bytes: &[u8]) -> (r: Result<(), Error>)
        requires
            old(self).wf(),
            slot < old(self).next_id(),
            bytes@.len() == PAGE_SIZE,
        ensures
            final(self).wf(),
            final(self).cache == old(self).cache,
            final(self).next_page_id == old(self).next_page_id,
            final(self).writes@ == old(self).writes@.push(slot),
            final(self).reliable() == old(self).reliable(),
            old(self).reliable() ==> r.is_ok(),
            final(self).free_buffers() == old(self).free_buffers(),
            r.is_ok() ==> final(self).contents() == written(
                old(self).contents(),
                slot * PAGE_SIZE,
                bytes@,
            ),
            r matches Err(e) ==> e is Io,
    {
        assert(slot * PAGE_SIZE <= self.next_page_id * PAGE_SIZE) by (nonlinear_arith)
            requires
                slot <= self.next_page_id,
        ;
        let offset: u64 = slot as u64 * PAGE_SIZE as u64;
        self.writes = Ghost(self.writes@.push(slot));
        match self.file.write_at(bytes, offset) {
            Ok(_) => Ok(()),
            Err(e) => Err(e),
        }
    }

    /// After a page was written to `slot`, the cached pages of all
    /// other slots still equal the file.
    proof fn lemma_others_coherent(&self, before: &PageCache<F, C>, slot: usize, page: Seq<u8>)
        requires
            before.inv(),
            self.cache == before.cache,
            page.len() == PAGE_SIZE,
            self.contents() == written(before.contents(), slot * PAGE_SIZE, page),
        ensures
            forall|k: usize| #[trigger]
                self.cache.map().contains_key(k) && k != slot ==> self.cache.map()[k]@ == page_at(
                    self.contents(),
                    k as int,
                ),
            page_at(self.contents(), slot as int) == page,
    {
        assert forall|k: usize| #[trigger]
            self.cache.map().contains_key(k) && k != slot implies self.cache.map()[k]@ == page_at(
            self.contents(),
            k as int,
        ) by {
            lemma_written_elsewhere(before.contents(), slot as int, page, k as int);
        }
        lemma_written_page(before.contents(), slot as int, page);
    }

    /// The page in `slot`: from the cache, or else from the file and
    /// from then on cached. A page that is cached is handed out
    /// without fail, and nothing moves. A page that is not takes a
    /// buffer: `Busy` is the answer only when none is free and the
    /// cache could let none go, and then nothing has changed.
    pub fn read_page(&mut self, slot: PhysicalPageId) -> (r: Result<PageBuf, Error>)
        requires
            old(self).inv(),
        ensures
            final(self).inv(),
            final(self).contents() == old(self).contents(),
            final(self).durable() == old(self).durable(),
            final(self).next_id() == old(self).next_id(),
            final(self).reliable() == old(self).reliable(),
            final(self).writes() == old(self).writes(),
            !old(self).in_bounds(slot.0) ==> (r matches Err(Error::IndexOutofBounds(id)) && id.0
                == slot.0),
            r matches Ok(page) ==> {
                &&& old(self).in_bounds(slot.0)
                &&& page.wf()
                &&& page@ == old(self).page(slot.0)
                &&& final(self).cached(slot.0)
            },
            r matches Err(e) ==> e is IndexOutofBounds || e is Busy || e is Io,
            old(self).reliable() ==> !(r matches Err(Error::Io(_))),
            old(self).in_bounds(slot.0) ==> !(r matches Err(Error::IndexOutofBounds(_))),
            old(self).cached(slot.0) ==> r.is_ok(),
            old(self).cached(slot.0) || !old(self).in_bounds(slot.0) ==> final(self).same_buffers(
                old(self),
            ),
            old(self).free_buffers() > 0 ==> !(r matches Err(Error::Busy)),
            (r matches Err(e) && e is Busy) ==> final(self).same_buffers(old(self)),
            r.is_err() && old(self).free_buffers() > 0 ==> final(self).same_buffers(old(self)),
            r.is_ok() && !old(self).cached(slot.0) && old(self).free_buffers() > 0 ==> {
                &&& old(self).free_buffers() - 1 <= final(self).free_buffers()
                    <= old(self).free_buffers()
                &&& final(self).cached_count() == if old(self).cached_count() < CACHE_PAGES {
                    old(self).cached_count() + 1
                } else {
                    old(self).cached_count()
                }
            },
            final(self).free_buffers() + 1 >= old(self).free_buffers(),
            final(self).free_buffers() <= old(self).free_buffers() + 1,
            final(self).cached_count() + 1 >= old(self).cached_count(),
            final(self).cached_count() <= old(self).cached_count() + 1,
    {
        if slot.0 == 0 || slot.0 >= self.next_page_id {
            return Err(Error::IndexOutofBounds(LogicalPageId(slot.0)));
        }
        if self.cache.contains_key(&slot.0) {
            self.cache.touch(&slot.0);
        }
        match self.cache.get(&slot.0) {
            Some(page) => {
                return Ok(page.clone());
            },
            None => {},
        }
        let mut buf = match self.new_page_buffer() {
            Ok(buf) => buf,
            Err(e) => {
                return Err(e);
            },
        };
        assert(!self.cached(slot.0));
        match self.read_physical_page(slot, &mut buf) {
            Ok(()) => {},
            Err(e) => {
                self.keep(buf);
                return Err(e);
            },
        }
        let page = buf.freeze();
        let ghost mid = *self;
        let evicted = self.cache.insert(slot.0, page.clone());
        match evicted {
            Some((_, old_page)) => {
                self.reclaim(old_page.try_take());
            },
            None => {},
        }
        Ok(page)
    }

    /// A private, writable copy of the page in `slot`. The copy takes
    /// a buffer: while one is free the cache is left as it is; `Busy`
    /// is the answer only when none is free and the cache could let
    /// none go, and then nothing has changed.
    pub fn read_copy(&mut self, slot: PhysicalPageId) -> (r: Result<PageBufMut, Error>)
        requires
            old(self).inv(),
        ensures
            final(self).inv(),
            final(self).contents() == old(self).contents(),
            final(self).durable() == old(self).durable(),
            final(self).next_id() == old(self).next_id(),
            final(self).reliable() == old(self).reliable(),
            final(self).writes() == old(self).writes(),
            !old(self).in_bounds(slot.0) ==> (r matches Err(Error::IndexOutofBounds(id)) && id.0
                == slot.0),
            r matches Ok(page) ==> {
                &&& old(self).in_bounds(slot.0)
                &&& page.wf()
                &&& page@ == old(self).page(slot.0)
            },
            r matches Err(e) ==> e is IndexOutofBounds || e is Busy || e is Io,
            old(self).reliable() ==> !(r matches Err(Error::Io(_))),
            old(self).in_bounds(slot.0) ==> !(r matches Err(Error::IndexOutofBounds(_))),
            !old(self).in_bounds(slot.0) ==> final(self).same_buffers(old(self)),
            old(self).free_buffers() > 0 ==> !(r matches Err(Error::Busy)),
            (r matches Err(e) && e is Busy) ==> final(self).same_buffers(old(self)),
            old(self).free_buffers() > 0 ==> {
                &&& final(self).cached_count() == old(self).cached_count()
                &&& forall|k: usize| final(self).cached(k) == old(self).cached(k)
                &&& final(self).free_buffers() == if r.is_ok() {
                    old(self).free_buffers() - 1
                } else {
                    old(self).free_buffers() as int
                }
            },
            final(self).free_buffers() + 1 >= old(self).free_buffers(),
            final(self).free_buffers() <= old(self).free_buffers() + 1,
            final(self).cached_count() + 1 >= old(self).cached_count(),
            final(self).cached_count() <= old(self).cached_count(),
    {
        if slot.0 == 0 || slot.0 >= self.next_page_id {
            return Err(Error::IndexOutofBounds(LogicalPageId(slot.0)));
        }
        let mut buf = match self.new_page_buffer() {
            Ok(buf) => buf,
            Err(e) => {
                return Err(e);
            },
        };
        match self.cache.get(&slot.0) {
            Some(page) => {
                buf.put(0, page.as_bytes());
                return Ok(buf);
            },
            None => {},
        }
        match self.read_physical_page(slot, &mut buf) {
            Ok(()) => Ok(buf),
            Err(e) => {
                self.keep(buf);
                Err(e)
            },
        }
    }

    /// Puts `page` in the cache under `slot`, in place of what was
    /// cached there, or as a new entry.
    fn cache_page(&mut self, slot: usize, page: PageBuf)
        requires
            old(self).wf(),
            page.wf(),
            old(self).in_bounds(slot),
            forall|k: usize| #[trigger]
                old(self).cache.map().contains_key(k) && k != slot ==> old(self).cache.map()[k]@
                    == page_at(old(self).contents(), k as int),
            page@ == page_at(old(self).contents(), slot as int),
        ensures
            final(self).inv(),
            final(self).file == old(self).file,
            final(self).next_page_id == old(self).next_page_id,
            final(self).writes@ == old(self).writes@,
            final(self).cached(slot),
            old(self).free_buffers() <= final(self).free_buffers() <= old(self).free_buffers() + 1,
            old(self).cached(slot) ==> final(self).cached_count() == old(self).cached_count()
                && forall|k: usize| final(self).cached(k) == old(self).cached(k),
            !old(self).cached(slot) ==> final(self).cached_count() == if old(self).cached_count()
                < CACHE_PAGES {
                old(self).cached_count() + 1
            } else {
                old(self).cached_count()
            },
    {
        let ghost before = *self;
        match self.cache.replace(slot, page) {
            Ok(previous) => {
                self.reclaim(previous.try_take());
            },
            Err(given) => {
                let evicted = self.cache.insert(slot, given);
                match evicted {
                    Some((_, old_page)) => {
                        self.reclaim(old_page.try_take());
                    },
                    None => {},
                }
            },
        }
    }

    /// Writes `page` in place: to the slot of the same number as
    /// `page_id`, and into the cache. A page number that was never
    /// handed out is refused before anything is written.
    pub fn update_page(&mut self, page_id: LogicalPageId, page: PageBufMut) -> (r: Result<
        (),
        Error,
    >)
        requires
            old(self).inv(),
            page.wf(),
        ensures
            final(self).wf(),
            final(self).next_id() == old(self).next_id(),
            final(self).reliable() == old(self).reliable(),
            final(self).writes() == if old(self).in_bounds(page_id.0) {
                old(self).writes().push(page_id.0)
            } else {
                old(self).writes()
            },
            !old(self).in_bounds(page_id.0) ==> {
                &&& (r matches Err(Error::IndexOutofBounds(id)) && id == page_id)
                &&& final(self).inv()
                &&& final(self).contents() == old(self).contents()
            },
            r.is_ok() ==> {
                &&& old(self).in_bounds(page_id.0)
                &&& final(self).inv()
                &&& final(self).cached(page_id.0)
                &&& final(self).contents() == written(
                    old(self).contents(),
                    page_id.0 * PAGE_SIZE,
                    page@,
                )
            },
            r matches Err(e) ==> e is IndexOutofBounds || e is Io,
            old(self).reliable() ==> !(r matches Err(Error::Io(_))),
            old(self).in_bounds(page_id.0) ==> !(r matches Err(Error::IndexOutofBounds(_))),
            !old(self).in_bounds(page_id.0) ==> final(self).free_buffers()
                == old(self).free_buffers() + 1,
            old(self).free_buffers() <= final(self).free_buffers() <= old(self).free_buffers() + 1,
            r.is_err() || old(self).cached(page_id.0) ==> final(self).cached_count()
                == old(self).cached_count() && forall|k: usize| final(self).cached(k)
                == old(self).cached(k),
            r.is_ok() && !old(self).cached(page_id.0) ==> final(self).cached_count()
                == if old(self).cached_count() < CACHE_PAGES {
                old(self).cached_count() + 1
            } else {
                old(self).cached_count()
            },
    {
        if page_id.0 == 0 || page_id.0 >= self.next_page_id {
            self.keep(page);
            return Err(Error::IndexOutofBounds(page_id));
        }
        let page = page.freeze();
        match self.write_physical(page_id.0, page.as_bytes()) {
            Ok(()) => {},
            Err(e) => {
                self.reclaim(page.try_take());
                return Err(e);
            },
        }
        proof {
            self.lemma_others_coherent(old(self), page_id.0, page@);
        }
        self.cache_page(page_id.0, page);
        Ok(())
    }

    /// Writes `page` to `slot`. If the slot is cached, the cached page
    /// is replaced; if it is not, the cache stays as it is.
    pub fn write_page(&mut self, slot: PhysicalPageId, page: &PageBuf) -> (r: Result<(), Error>)
        requires
            old(self).inv(),
            page.wf(),
        ensures
            final(self).wf(),
            final(self).next_id() == old(self).next_id(),
            final(self).reliable() == old(self).reliable(),
            final(self).writes() == if old(self).in_bounds(slot.0) {
                old(self).writes().push(slot.0)
            } else {
                old(self).writes()
            },
            !old(self).in_bounds(slot.0) ==> {
                &&& (r matches Err(Error::IndexOutofBounds(id)) && id.0 == slot.0)
                &&& final(self).inv()
                &&& final(self).contents() == old(self).contents()
            },
            r.is_ok() ==> {
                &&& old(self).in_bounds(slot.0)
                &&& final(self).inv()
                &&& final(self).contents() == written(
                    old(self).contents(),
                    slot.0 * PAGE_SIZE,
                    page@,
                )
            },
            r matches Err(e) ==> e is IndexOutofBounds || e is Io,
            old(self).reliable() ==> !(r matches Err(Error::Io(_))),
            old(self).in_bounds(slot.0) ==> !(r matches Err(Error::IndexOutofBounds(_))),
            final(self).cached_count() == old(self).cached_count(),
            forall|k: usize| final(self).cached(k) == old(self).cached(k),
            old(self).free_buffers() <= final(self).free_buffers() <= old(self).free_buffers() + 1,
            r.is_err() || !old(self).cached(slot.0) ==> final(self).free_buffers()
                == old(self).free_buffers(),
    {
        if slot.0 == 0 || slot.0 >= self.next_page_id {
            return Err(Error::IndexOutofBounds(LogicalPageId(slot.0)));
        }
        match self.write_physical(slot.0, page.as_bytes()) {
            Ok(()) => {},
            Err(e) => {
                return Err(e);
            },
        }
        proof {
            self.lemma_others_coherent(old(self), slot.0, page@);
        }
        if self.cache.contains_key(&slot.0) {
            self.cache_page(slot.0, page.clone());
        }
        Ok(())
    }

    /// Writes `header` to page 0 as a whole page: the header's bytes,
    /// then zeros.
    pub fn write_header(&mut self, header: &Header) -> (r: Result<(), Error>)
        requires
            old(self).inv(),
        ensures
            final(self).wf(),
            final(self).next_id() == old(self).next_id(),
            final(self).reliable() == old(self).reliable(),
            final(self).writes() == old(self).writes().push(0),
            final(self).free_buffers() == old(self).free_buffers(),
            final(self).cached_count() == old(self).cached_count(),
            forall|k: usize| final(self).cached(k) == old(self).cached(k),
            r.is_ok() ==> {
                &&& final(self).inv()
                &&& final(self).contents() == written(old(self).contents(), 0, header.page())
            },
            r matches Err(e) ==> e is Io,
            old(self).reliable() ==> r.is_ok(),
    {
        let mut page = PageBufMut::new();
        header.encode_into(page.as_bytes_mut());
        proof {
            header.lemma_round_trip(Seq::empty());
        }
        let r = self.write_physical(0, page.as_bytes());
        proof {
            if r.is_ok() {
                assert forall|k: usize| #[trigger]
                    self.cache.map().contains_key(k) implies self.cache.map()[k]@ == page_at(
                    self.file.contents(),
                    k as int,
                ) by {
                    lemma_written_elsewhere(old(self).contents(), 0, page@, k as int);
                }
            }
        }
        r
    }

    /// Empties the cache. An empty cache agrees with any file, so
    /// this makes the page cache sound again after a write failed.
    pub fn clear_cache(&mut self)
        requires
            old(self).wf(),
        ensures
            final(self).inv(),
            final(self).contents() == old(self).contents(),
            final(self).durable() == old(self).durable(),
            final(self).next_id() == old(self).next_id(),
            final(self).reliable() == old(self).reliable(),
            final(self).writes() == old(self).writes(),
            forall|k: usize| !final(self).cached(k),
            final(self).cached_count() == 0,
            old(self).free_buffers() <= final(self).free_buffers() <= old(self).free_buffers()
                + old(self).cached_count(),
    {
        while self.cache.len() > 0
            invariant
                self.wf(),
                self.writes@ == old(self).writes@,
                old(self).free_buffers() <= self.free_buffers(),
                self.free_buffers() + self.cache.count()
                    <= old(self).free_buffers() + old(self).cache.count(),
                self.file == old(self).file,
                self.next_page_id == old(self).next_page_id,
            decreases self.cache.count(),
        {
            match self.cache.evict() {
                Some((_, page)) => {
                    self.reclaim(page.try_take());
                },
                None => {},
            }
        }
        proof {
            self.cache.lemma_count();
        }
    }

    /// Forces every write so far down to the device. The file is
    /// asked to sync, and the answer is the file's: when it is `Ok`,
    /// all the bytes of the file are safe on the device. Nothing in
    /// memory changes either way.
    pub fn flush(&mut self) -> (r: Result<(), Error>)
        requires
            old(self).inv(),
        ensures
            final(self).inv(),
            final(self).next_id() == old(self).next_id(),
            final(self).reliable() == old(self).reliable(),
            final(self).writes() == old(self).writes(),
            final(self).contents() == old(self).contents(),
            final(self).free_buffers() == old(self).free_buffers(),
            final(self).cached_count() == old(self).cached_count(),
            forall|k: usize| final(self).cached(k) == old(self).cached(k),
            r.is_ok() ==> final(self).durable() == final(self).contents(),
            r matches Err(e) ==> e is Io,
            old(self).reliable() ==> r.is_ok(),
    {
        self.file.sync_data()
    }
}

} // verus!
