//! The two cursors of a queue: one reads at the head, one writes at
//! the tail.
//!
//! Both work straight on the pages of the pager. The writer writes
//! every item through to the file, so what the reader finds in a page
//! is always what has been pushed.

use vstd::prelude::*;
use crate::error::Error;
use crate::pager::codec::copy_range;
use crate::pager::file::{lemma_written_elsewhere, lemma_written_page, page_at, File};
use crate::pager::ids::{LogicalPageId, PhysicalPageId, INVALID_PAGE};
use crate::pager::cache::CachePolicy;
use crate::pager::page::{PageBuf, QueuePageHeader, QUEUE_HEADER_SIZE};
use crate::pager::page_cache::PageCache;
use crate::pager::queue::layout::{
    appended, chain_items, chain_ok, item_at, items_between, lemma_chain_append,
    lemma_chain_extend, lemma_chain_ok_frame, lemma_chain_rest, lemma_chain_start,
    lemma_header_written, lemma_steps_order, link_of, linked, page_ok, queue_header_of,
    same_items, start_of, ITEMS_START, ITEM_AREA,
};

verus! {

/// Reads items at the head of a queue.
pub struct ReadCursor {
    /// The page being read.
    pub(crate) page_id: PhysicalPageId,
    /// The link of the page being read, as last seen.
    pub(crate) next_page_id: PhysicalPageId,
    /// The link that ends the queue.
    pub(crate) end_page_id: PhysicalPageId,
    /// Where the next item starts in the page being read.
    pub(crate) offset: usize,
    /// The size of every item.
    pub(crate) item_size: usize,
    /// The pages of the queue from the one being read to the last.
    pub(crate) chain: Ghost<Seq<usize>>,
}

/// Writes items at the tail of a queue.
pub struct WriteCursor {
    /// The last page of the queue.
    pub(crate) page_id: PhysicalPageId,
    /// The link of the last page: none.
    pub(crate) next_page_id: PhysicalPageId,
    /// The link that ends the queue.
    pub(crate) end_page_id: PhysicalPageId,
    /// Where the next item goes in the last page.
    pub(crate) offset: usize,
    /// The size of every item.
    pub(crate) item_size: usize,
    /// The pages of the queue from the one being read to the last.
    pub(crate) chain: Ghost<Seq<usize>>,
    /// Where the unread items start in the first of those pages.
    pub(crate) first: Ghost<int>,
}

impl ReadCursor {
    /// The cursor stands on the first page of a sound chain.
    pub open(crate) spec fn wf<F: File, C: CachePolicy<PageBuf>>(
        &self,
        pager: &PageCache<F, C>,
    ) -> bool {
        &&& pager.inv()
        &&& chain_ok(pager.contents(), pager.next_id(), self.chain@, self.offset as int,
            self.item_size as int)
        &&& self.page_id.0 == self.chain@[0]
        &&& self.end_page_id.0 == INVALID_PAGE
    }

    /// The items not yet read, oldest first.
    pub open(crate) spec fn items<F: File, C: CachePolicy<PageBuf>>(
        &self,
        pager: &PageCache<F, C>,
    ) -> Seq<Seq<u8>> {
        chain_items(pager.contents(), self.chain@, self.offset as int, self.item_size as int)
    }

    /// Whether the cursor stands where nothing is to be read: on the
    /// page that ends its queue, or on no page at all.
    pub open(crate) spec fn at_end(&self) -> bool {
        self.page_id.0 == INVALID_PAGE || self.page_id == self.end_page_id
    }

    /// Whether the page the cursor stands on holds an item that has
    /// not been read.
    pub open(crate) spec fn has_item<F: File, C: CachePolicy<PageBuf>>(
        &self,
        pager: &PageCache<F, C>,
    ) -> bool {
        self.offset + self.item_size <= queue_header_of(pager.page(self.page_id.0)).end_offset
    }

    /// Whether every page of the cursor's chain is in the cache.
    pub open(crate) spec fn all_cached<F: File, C: CachePolicy<PageBuf>>(
        &self,
        pager: &PageCache<F, C>,
    ) -> bool {
        forall|k: int| 0 <= k < self.chain@.len() ==> pager.cached(#[trigger] self.chain@[k])
    }

    /// A cursor that reads from the start of `init_page_id` up to
    /// where the chain links to `end_page_id`.
    pub(crate) fn init(
        init_page_id: PhysicalPageId,
        end_page_id: PhysicalPageId,
        item_size: usize,
        chain: Ghost<Seq<usize>>,
    ) -> (cursor: ReadCursor)
        ensures
            cursor.page_id == init_page_id,
            cursor.end_page_id == end_page_id,
            cursor.offset == 0,
            cursor.item_size == item_size,
            cursor.chain@ == chain@,
    {
        ReadCursor {
            page_id: init_page_id,
            next_page_id: PhysicalPageId::invalid(),
            end_page_id,
            offset: 0,
            item_size,
            chain,
        }
    }

    /// Takes the oldest unread item, or `None` when every item has
    /// been read. A page that is read to its end is left for the page
    /// it links to; the last page is never left, since more may be
    /// written to it.
    ///
    /// A cursor that stands on the page that ends its queue, or on no
    /// page, answers `None` at once: nothing is read and nothing
    /// changes. Any other cursor reads its page, and the pages it
    /// moves on to, through the pager. Pages that are cached are read
    /// without fail; each page that is not takes a buffer, and `Busy`
    /// is the answer only when none could be had.
    #[verifier::rlimit(40)]
    pub(crate) fn pop<F: File, C: CachePolicy<PageBuf>>(
        &mut self,
        pager: &mut PageCache<F, C>,
    ) -> (r: Result<Option<Vec<u8>>, Error>)
        requires
            old(pager).inv(),
            old(self).at_end() || old(self).wf(old(pager)),
        ensures
            final(pager).inv(),
            final(pager).contents() == old(pager).contents(),
            final(pager).durable() == old(pager).durable(),
            final(pager).next_id() == old(pager).next_id(),
            final(pager).writes() == old(pager).writes(),
            final(pager).reliable() == old(pager).reliable(),
            old(pager).reliable() ==> !(r matches Err(Error::Io(_))),
            final(self).item_size == old(self).item_size,
            final(self).end_page_id == old(self).end_page_id,
            old(self).at_end() ==> {
                &&& r matches Ok(None)
                &&& *final(self) == *old(self)
                &&& *final(pager) == *old(pager)
            },
            !old(self).at_end() ==> {
                &&& final(self).wf(final(pager))
                &&& final(self).chain@.len() <= old(self).chain@.len()
                &&& final(self).chain@ == old(self).chain@.skip(
                    old(self).chain@.len() - final(self).chain@.len(),
                )
                &&& forall|slot: usize|
                    final(self).chain@.contains(slot) ==> old(self).chain@.contains(slot)
                &&& final(self).offset == if final(self).chain@.len() == old(self).chain@.len() {
                    if r matches Ok(Some(_)) {
                        old(self).offset + old(self).item_size
                    } else {
                        old(self).offset as int
                    }
                } else {
                    if r matches Ok(Some(_)) {
                        old(self).item_size as int
                    } else {
                        0
                    }
                }
                &&& old(self).has_item(old(pager)) ==> final(self).chain@ == old(self).chain@
                &&& forall|j: int|
                    0 <= j < old(self).chain@.len() - final(self).chain@.len() ==> start_of(
                        j,
                        old(self).offset as int,
                    ) + old(self).item_size > queue_header_of(
                        old(pager).page(#[trigger] old(self).chain@[j]),
                    ).end_offset
                &&& r matches Ok(None) ==> final(self).chain@.len() == 1
                &&& match r {
                    Ok(Some(item)) => {
                        &&& old(self).items(old(pager)).len() > 0
                        &&& item@ == old(self).items(old(pager))[0]
                        &&& item@ == item_at(
                            old(pager).page(final(self).page_id.0),
                            final(self).offset - old(self).item_size,
                            old(self).item_size as int,
                        )
                        &&& final(self).items(final(pager)) == old(self).items(
                            old(pager),
                        ).drop_first()
                    },
                    Ok(None) => {
                        &&& old(self).items(old(pager)).len() == 0
                        &&& final(self).items(final(pager)) == old(self).items(old(pager))
                    },
                    Err(e) => {
                        &&& final(self).items(final(pager)) == old(self).items(old(pager))
                        &&& (e is Busy || e is Io)
                    },
                }
                &&& old(self).all_cached(old(pager)) ==> r.is_ok() && final(pager).same_buffers(
                    old(pager),
                )
                &&& old(pager).free_buffers() >= old(self).chain@.len() ==> !(r matches Err(
                    Error::Busy,
                ))
                &&& final(pager).free_buffers() + (old(self).chain@.len()
                    - final(self).chain@.len()) + 1 >= old(pager).free_buffers()
            },
    {
        if self.page_id.is_invalid() || self.page_id == self.end_page_id {
            return Ok(None);
        }
        let ghost items0 = self.items(pager);
        let ghost free0 = pager.free_buffers();
        let ghost cached0 = self.all_cached(pager);
        let ghost contents0 = pager.contents();
        let ghost bound0 = pager.next_id();
        let ghost size0 = self.item_size;
        let ghost last0 = self.chain@.last();
        let ghost chain0 = self.chain@;
        let ghost has0 = self.has_item(pager);
        let ghost page0 = self.page_id;
        let ghost first0 = self.offset as int;
        proof {
            assert(chain0.skip(0) =~= chain0);
        }
        loop
            invariant
                chain0 == old(self).chain@,
                forall|slot: usize| self.chain@.contains(slot) ==> chain0.contains(slot),
                self.chain@ == chain0.skip(chain0.len() - self.chain@.len()),
                has0 == old(self).has_item(old(pager)),
                page0 == old(self).page_id,
                self.chain@.len() == chain0.len() ==> self.page_id == page0,
                has0 ==> self.chain@.len() == chain0.len(),
                first0 == old(self).offset,
                forall|j: int|
                    0 <= j < chain0.len() - self.chain@.len() ==> start_of(j, first0) + size0
                        > queue_header_of(page_at(contents0, #[trigger] chain0[j] as int)).end_offset,
                self.offset == if self.chain@.len() == chain0.len() {
                    old(self).offset
                } else {
                    0
                },
                contents0 == old(pager).contents(),
                pager.writes() == old(pager).writes(),
                pager.reliable() == old(pager).reliable(),
                bound0 == old(pager).next_id(),
                size0 == old(self).item_size,
                last0 == old(self).chain@.last(),
                items0 == old(self).items(old(pager)),
                self.wf(pager),
                pager.contents() == contents0,
                pager.next_id() == bound0,
                pager.durable() == old(pager).durable(),
                self.item_size == size0,
                self.end_page_id == old(self).end_page_id,
                self.chain@.last() == last0,
                self.items(pager) == items0,
                !old(self).at_end(),
                free0 == old(pager).free_buffers(),
                cached0 == old(self).all_cached(old(pager)),
                cached0 ==> self.all_cached(pager) && pager.same_buffers(old(pager)),
                self.chain@.len() <= chain0.len(),
                pager.free_buffers() + (chain0.len() - self.chain@.len()) >= free0,
            decreases self.chain@.len(),
        {
            let ghost chain = self.chain@;
            let ghost first = self.offset as int;
            let ghost size = self.item_size as int;
            let ghost p = page_at(contents0, chain[0] as int);
            let ghost rest_items = chain_items(contents0, chain.drop_first(), 0, size);
            proof {
                lemma_steps_order(first, queue_header_of(p).end_offset as int, size);
            }
            let page = match pager.read_page(self.page_id) {
                Ok(page) => page,
                Err(e) => {
                    return Err(e);
                },
            };
            let header = match page.queue_header() {
                Some(header) => header,
                None => {
                    // A page of a sound chain always has its header.
                    assert(false);
                    return Err(Error::Serialization);
                },
            };
            self.next_page_id = header.next_page_id;
            if self.offset + self.item_size <= header.end_offset as usize {
                let item = copy_range(page.buf(), QUEUE_HEADER_SIZE + self.offset, self.item_size);
                self.offset = self.offset + self.item_size;
                proof {
                    assert forall|k: int| 0 <= k < chain.len() implies page_ok(
                        page_at(contents0, #[trigger] chain[k] as int),
                        start_of(k, first + size),
                        size,
                        link_of(chain, k),
                    ) by {
                        assert(page_ok(
                            page_at(contents0, chain[k] as int),
                            start_of(k, first),
                            size,
                            link_of(chain, k),
                        ));
                    }
                }
                return Ok(Some(item));
            }
            if header.next_page_id.0 == self.end_page_id.0 {
                proof {
                    if chain.len() > 1 {
                        pager.lemma_next_id();
                    }
                }
                return Ok(None);
            }
            proof {
                assert(chain.len() >= 2);
                lemma_chain_rest(contents0, bound0, chain, first, size);
                assert forall|k: int| 0 <= k < chain.drop_first().len() implies chain[k + 1]
                    == #[trigger] chain.drop_first()[k] by {}
                assert(chain.drop_first() =~= chain0.skip(chain0.len() - chain.len() + 1));
            }
            self.page_id = header.next_page_id;
            self.offset = header.next_offset as usize;
            self.chain = Ghost(self.chain@.drop_first());
        }
    }
}

impl WriteCursor {
    /// The cursor stands at the end of the last page of a chain that
    /// is sound among the first `bound` pages.
    pub open(crate) spec fn wf_below<F: File, C: CachePolicy<PageBuf>>(
        &self,
        pager: &PageCache<F, C>,
        bound: usize,
    ) -> bool {
        &&& pager.inv()
        &&& bound <= pager.next_id()
        &&& chain_ok(pager.contents(), bound, self.chain@, self.first@, self.item_size as int)
        &&& self.page_id.0 == self.chain@.last()
        &&& self.offset == queue_header_of(pager.page(self.chain@.last())).end_offset
        &&& self.end_page_id.0 == INVALID_PAGE
    }

    /// The cursor stands at the end of the last page of a sound
    /// chain.
    pub open(crate) spec fn wf<F: File, C: CachePolicy<PageBuf>>(
        &self,
        pager: &PageCache<F, C>,
    ) -> bool {
        self.wf_below(pager, pager.next_id())
    }

    /// The items not yet read, oldest first.
    pub open(crate) spec fn items<F: File, C: CachePolicy<PageBuf>>(
        &self,
        pager: &PageCache<F, C>,
    ) -> Seq<Seq<u8>> {
        chain_items(pager.contents(), self.chain@, self.first@, self.item_size as int)
    }

    /// Whether one more item fits in the page the cursor stands on.
    pub open(crate) spec fn fits(&self) -> bool {
        self.offset + self.item_size <= ITEM_AREA
    }

    /// The header of a queue page that holds nothing and links
    /// nowhere.
    fn empty_header() -> (h: QueuePageHeader)
        ensures
            h == (QueuePageHeader {
                next_page_id: PhysicalPageId(INVALID_PAGE),
                next_offset: 0,
                end_offset: 0,
                item_capacity: ITEM_AREA as u16,
            }),
    {
        QueuePageHeader {
            next_page_id: PhysicalPageId::invalid(),
            next_offset: 0,
            end_offset: 0,
            item_capacity: ITEM_AREA as u16,
        }
    }

    /// Starts a queue in page `init_page_id`: the page is written as
    /// an empty queue page, and the cursor stands at its start.
    pub(crate) fn init<F: File, C: CachePolicy<PageBuf>>(
        pager: &mut PageCache<F, C>,
        init_page_id: PhysicalPageId,
        end_page_id: PhysicalPageId,
        item_size: usize,
    ) -> (r: Result<WriteCursor, Error>)
        requires
            old(pager).inv(),
            old(pager).in_bounds(init_page_id.0),
            end_page_id.0 == INVALID_PAGE,
            1 <= item_size <= ITEM_AREA,
        ensures
            final(pager).wf(),
            final(pager).next_id() == old(pager).next_id(),
            final(pager).reliable() == old(pager).reliable(),
            old(pager).reliable() ==> !(r matches Err(Error::Io(_))),
            final(pager).writes() == if r matches Err(Error::Busy) {
                old(pager).writes()
            } else {
                old(pager).writes().push(init_page_id.0)
            },
            old(pager).free_buffers() > 0 ==> !(r matches Err(Error::Busy)),
            (r matches Err(e) && e is Busy) ==> final(pager).same_buffers(old(pager)),
            final(pager).free_buffers() + 1 >= old(pager).free_buffers(),
            r matches Ok(cursor) ==> {
                &&& cursor.wf(final(pager))
                &&& cursor.page_id == init_page_id
                &&& cursor.offset == 0
                &&& cursor.chain@ == seq![init_page_id.0]
                &&& cursor.first@ == 0
                &&& cursor.item_size == item_size
                &&& cursor.items(final(pager)) == Seq::<Seq<u8>>::empty()
                &&& forall|slot: usize|
                    slot != init_page_id.0 ==> final(pager).page(slot) == old(pager).page(slot)
            },
            r matches Err(e) ==> {
                &&& (e is Busy || e is Io)
                &&& e is Busy ==> final(pager).inv() && final(pager).contents()
                    == old(pager).contents()
            },
    {
        let mut page = match pager.new_page_buffer() {
            Ok(page) => page,
            Err(e) => {
                return Err(e);
            },
        };
        page.init();
        let header = WriteCursor::empty_header();
        let ghost stamped = page@;
        page.set_queue_header(&header);
        let ghost image = page@;
        proof {
            lemma_header_written(stamped, header);
        }
        let ghost before = pager.contents();
        match pager.update_page(LogicalPageId(init_page_id.0), page) {
            Ok(()) => {},
            Err(e) => {
                return Err(e);
            },
        }
        proof {
            lemma_written_page(before, init_page_id.0 as int, image);
            lemma_chain_start(pager.contents(), pager.next_id(), init_page_id.0, item_size as int);
            assert forall|slot: usize| slot != init_page_id.0 implies pager.page(slot) ==
                old(pager).page(slot) by {
                lemma_written_elsewhere(before, init_page_id.0 as int, image, slot as int);
            }
        }
        let ghost pages = seq![init_page_id.0];
        let chain: Ghost<Seq<usize>> = Ghost(pages);
        let first: Ghost<int> = Ghost(0);
        let cursor = WriteCursor {
            page_id: init_page_id,
            next_page_id: PhysicalPageId::invalid(),
            end_page_id,
            offset: 0,
            item_size,
            chain,
            first,
        };
        Ok(cursor)
    }

    /// Continues the queue in page `new_page_id`. Both buffers are
    /// had before anything is written; then the last page is written
    /// back with its link set to the new page, and after it the new
    /// page, empty. The cursor moves to the start of the new page.
    pub(crate) fn add_new_page<F: File, C: CachePolicy<PageBuf>>(
        &mut self,
        pager: &mut PageCache<F, C>,
        new_page_id: PhysicalPageId,
    ) -> (r: Result<(), Error>)
        requires
            old(self).wf_below(old(pager), new_page_id.0),
            old(pager).next_id() == new_page_id.0 + 1,
        ensures
            final(pager).wf(),
            final(pager).next_id() == old(pager).next_id(),
            final(self).item_size == old(self).item_size,
            final(self).first@ == old(self).first@,
            final(pager).reliable() == old(pager).reliable(),
            old(pager).reliable() ==> !(r matches Err(Error::Io(_))),
            // The link is written before the page it leads to: at no
            // time does the file hold the new page without the link.
            ({
                let begun = old(pager).writes().push(old(self).page_id.0);
                ||| final(pager).writes() == old(pager).writes()
                ||| final(pager).writes() == begun
                ||| final(pager).writes() == begun.push(new_page_id.0)
            }),
            r.is_ok() ==> final(pager).writes() == old(pager).writes().push(
                old(self).page_id.0,
            ).push(new_page_id.0),
            r matches Err(Error::Busy) ==> final(pager).writes() == old(pager).writes(),
            old(pager).free_buffers() >= 2 ==> !(r matches Err(Error::Busy)),
            final(pager).free_buffers() + 2 >= old(pager).free_buffers(),
            r.is_err() ==> *final(self) == *old(self),
            r.is_ok() ==> {
                &&& final(self).wf(final(pager))
                &&& final(self).chain@ == old(self).chain@.push(new_page_id.0)
                &&& final(self).page_id == new_page_id
                &&& final(self).offset == 0
                &&& final(self).items(final(pager)) == old(self).items(old(pager))
                &&& forall|slot: usize|
                    slot != new_page_id.0 && !old(self).chain@.contains(slot) ==> final(pager).page(
                        slot,
                    ) == old(pager).page(slot)
            },
            r matches Err(e) ==> {
                &&& (e is Busy || e is Io)
                &&& e is Busy ==> {
                    &&& *final(self) == *old(self)
                    &&& final(pager).inv()
                    &&& final(pager).contents() == old(pager).contents()
                }
            },
    {
        let ghost c1 = pager.contents();
        let ghost chain = self.chain@;
        let ghost first = self.first@;
        let ghost size = self.item_size as int;
        let ghost t = self.page_id.0;
        let ghost n = new_page_id.0;
        let ghost was = page_at(c1, t as int);
        proof {
            pager.lemma_next_id();
        }
        let mut fresh = match pager.new_page_buffer() {
            Ok(page) => page,
            Err(e) => {
                return Err(e);
            },
        };
        fresh.init();
        let empty = WriteCursor::empty_header();
        let ghost stamped = fresh@;
        fresh.set_queue_header(&empty);
        let ghost fresh_image = fresh@;
        proof {
            lemma_header_written(stamped, empty);
        }
        let mut tail = match pager.read_copy(self.page_id) {
            Ok(page) => page,
            Err(e) => {
                pager.give_back(fresh);
                return Err(e);
            },
        };
        let mut header = match tail.queue_header() {
            Some(header) => header,
            None => {
                // A page of a sound chain always has its header.
                assert(false);
                return Err(Error::Serialization);
            },
        };
        header.next_page_id = new_page_id;
        header.next_offset = 0;
        tail.set_queue_header(&header);
        let ghost tail_image = tail@;
        proof {
            lemma_header_written(was, header);
        }
        match pager.update_page(LogicalPageId(self.page_id.0), tail) {
            Ok(()) => {},
            Err(e) => {
                pager.give_back(fresh);
                return Err(e);
            },
        }
        let ghost c_mid = pager.contents();
        match pager.update_page(LogicalPageId(new_page_id.0), fresh) {
            Ok(()) => {},
            Err(e) => {
                return Err(e);
            },
        }
        proof {
            let c2 = pager.contents();
            lemma_written_page(c1, t as int, tail_image);
            lemma_written_page(c_mid, n as int, fresh_image);
            lemma_written_elsewhere(c_mid, n as int, fresh_image, t as int);
            assert forall|k: int| 0 <= k < chain.len() - 1 implies page_at(
                c1,
                #[trigger] chain[k] as int,
            ) == page_at(c2, chain[k] as int) by {
                lemma_written_elsewhere(c1, t as int, tail_image, chain[k] as int);
                lemma_written_elsewhere(c_mid, n as int, fresh_image, chain[k] as int);
            }
            lemma_chain_extend(c1, c2, n, chain, n, first, size);
            assert forall|slot: usize| slot != n && !chain.contains(slot) implies pager.page(slot)
                == old(pager).page(slot) by {
                lemma_written_elsewhere(c1, t as int, tail_image, slot as int);
                lemma_written_elsewhere(c_mid, n as int, fresh_image, slot as int);
            }
        }
        self.page_id = new_page_id;
        self.next_page_id = PhysicalPageId::invalid();
        self.offset = 0;
        self.chain = Ghost(self.chain@.push(new_page_id.0));
        Ok(())
    }

    /// Appends `item` to the queue and writes it through to the file.
    /// An item that does not fit in the last page goes to a new page,
    /// which is linked behind the last page first.
    pub(crate) fn write<F: File, C: CachePolicy<PageBuf>>(
        &mut self,
        pager: &mut PageCache<F, C>,
        item: &[u8],
    ) -> (r: Result<(), Error>)
        requires
            old(self).wf(old(pager)),
            item@.len() == old(self).item_size,
            crate::pager::header::addressable(old(pager).next_id() + 1),
        ensures
            final(pager).wf(),
            final(self).item_size == old(self).item_size,
            final(self).first@ == old(self).first@,
            final(pager).reliable() == old(pager).reliable(),
            old(pager).reliable() ==> !(r matches Err(Error::Io(_))),
            // An item that fits goes into the page the cursor stands
            // on, and no page is opened, whatever comes of the write.
            old(self).fits() ==> {
                &&& final(pager).next_id() == old(pager).next_id()
                &&& (final(pager).writes() == old(pager).writes() || final(pager).writes()
                    == old(pager).writes().push(old(self).page_id.0))
                &&& r.is_ok() ==> final(pager).writes() == old(pager).writes().push(
                    old(self).page_id.0,
                )
                &&& r matches Err(Error::Busy) ==> final(pager).writes() == old(pager).writes()
                &&& final(self).chain@ == old(self).chain@
                &&& final(self).page_id == old(self).page_id
                &&& old(pager).free_buffers() >= 1 ==> !(r matches Err(Error::Busy))
                &&& final(pager).free_buffers() + 1 >= old(pager).free_buffers()
                &&& r.is_ok() ==> final(self).offset == old(self).offset + old(self).item_size
                    && item_at(
                    final(pager).page(old(self).page_id.0),
                    old(self).offset as int,
                    old(self).item_size as int,
                ) == item@
                &&& r.is_err() ==> final(self).offset == old(self).offset
            },
            // An item that does not fit opens exactly one page, the
            // next the pager hands out, and is the first item in it.
            !old(self).fits() ==> {
                &&& final(pager).next_id() == old(pager).next_id() + 1
                // The file is written in this order: the link in the
                // last page, the new page, the new page with the item.
                &&& ({
                    let linked = old(pager).writes().push(old(self).page_id.0);
                    let opened = linked.push(old(pager).next_id());
                    ||| final(pager).writes() == old(pager).writes()
                    ||| final(pager).writes() == linked
                    ||| final(pager).writes() == opened
                    ||| final(pager).writes() == opened.push(old(pager).next_id())
                })
                &&& r.is_ok() ==> final(pager).writes() == old(pager).writes().push(
                    old(self).page_id.0,
                ).push(old(pager).next_id()).push(old(pager).next_id())
                &&& old(pager).free_buffers() >= 3 ==> !(r matches Err(Error::Busy))
                &&& final(pager).free_buffers() + 3 >= old(pager).free_buffers()
                &&& r.is_ok() ==> {
                    &&& final(self).chain@ == old(self).chain@.push(old(pager).next_id())
                    &&& final(self).page_id.0 == old(pager).next_id()
                    &&& final(self).offset == old(self).item_size
                    &&& item_at(
                        final(pager).page(old(pager).next_id()),
                        0,
                        old(self).item_size as int,
                    ) == item@
                }
            },
            r.is_ok() || (r matches Err(e) && e is Busy) ==> {
                &&& final(self).wf(final(pager))
                &&& final(self).chain@[0] == old(self).chain@[0]
                &&& (final(self).chain@ == old(self).chain@ || final(self).chain@ ==
                    old(self).chain@.push(old(pager).next_id()))
                &&& final(self).items(final(pager)) == if r.is_ok() {
                    old(self).items(old(pager)).push(item@)
                } else {
                    old(self).items(old(pager))
                }
                &&& forall|slot: usize|
                    slot < old(pager).next_id() && !old(self).chain@.contains(slot)
                        ==> final(pager).page(slot) == old(pager).page(slot)
            },
            r matches Err(e) ==> e is Busy || e is Io,
    {
        let ghost c0 = pager.contents();
        let ghost chain0 = self.chain@;
        let ghost first = self.first@;
        let ghost size = self.item_size as int;
        proof {
            let last = chain0.len() - 1;
            assert(page_ok(
                page_at(c0, chain0[last] as int),
                start_of(last, first),
                size,
                link_of(chain0, last),
            ));
            assert(page_ok(page_at(c0, chain0[0] as int), start_of(0, first), size, link_of(chain0,
                0)));
        }
        // Check if we need a new page
        if self.offset + self.item_size > ITEM_AREA {
            let new_page_id = pager.new_last_page_id();
            match self.add_new_page(pager, new_page_id) {
                Ok(()) => {},
                Err(e) => {
                    proof {
                        if e is Busy {
                            lemma_chain_ok_frame(
                                c0,
                                pager.contents(),
                                old(pager).next_id(),
                                pager.next_id(),
                                chain0,
                                first,
                                size,
                            );
                        }
                    }
                    return Err(e);
                },
            }
        }
        let ghost c1 = pager.contents();
        let ghost chain = self.chain@;
        let ghost t = self.page_id.0;
        let ghost off = self.offset as int;
        let mut buf = match pager.read_copy(self.page_id) {
            Ok(page) => page,
            Err(e) => {
                return Err(e);
            },
        };
        let mut header = match buf.queue_header() {
            Some(header) => header,
            None => {
                // A page of a sound chain always has its header.
                assert(false);
                return Err(Error::Serialization);
            },
        };
        buf.put(ITEMS_START + self.offset, item);
        let ghost with_item = buf@;
        header.end_offset = (self.offset + self.item_size) as u16;
        buf.set_queue_header(&header);
        let ghost image = buf@;
        proof {
            lemma_header_written(with_item, header);
            assert(item_at(image, off, size) =~= item@);
        }
        match pager.update_page(LogicalPageId(self.page_id.0), buf) {
            Ok(()) => {},
            Err(e) => {
                return Err(e);
            },
        }
        self.offset = self.offset + self.item_size;
        proof {
            let c2 = pager.contents();
            lemma_written_page(c1, t as int, image);
            assert forall|k: int| 0 <= k < chain.len() - 1 implies page_at(
                c1,
                #[trigger] chain[k] as int,
            ) == page_at(c2, chain[k] as int) by {
                lemma_written_elsewhere(c1, t as int, image, chain[k] as int);
            }
            lemma_chain_append(c1, c2, pager.next_id(), chain, first, size, item@);
            assert forall|slot: usize|
                slot < old(pager).next_id() && !chain0.contains(slot) implies pager.page(slot)
                == old(pager).page(slot) by {
                lemma_written_elsewhere(c1, t as int, image, slot as int);
            }
        }
        Ok(())
    }
}

} // verus!
