//! A first-in first-out queue kept in the pages of the pager.
//!
//! The queue is a chain of pages, each linked to the next. Items of
//! one fixed size are appended at the tail and taken at the head.
//! Every push is written through to the file, and the link to a new
//! page is written before the page itself: where the write of the
//! link fails, the new page is not written at all.
//!
//! The queue has one writer, at the tail. Its pages follow one
//! another in the order they were handed out, and every page but the
//! first is read from its start: that is what lets a queue be found
//! again from its state alone, and checked on the way. An item put
//! in front of the head would need a page before the first, or room
//! before the head's offset, which only a pop leaves behind. So
//! nothing is pushed at the head; a record that must be read first
//! is pushed first.

pub mod cursor;
pub mod layout;

use vstd::prelude::*;
use crate::error::Error;
use crate::pager::cache::CachePolicy;
use crate::pager::file::File;
use crate::pager::header::addressable;
use crate::pager::ids::PhysicalPageId;
use crate::pager::page::PageBuf;
use crate::pager::page_cache::PageCache;
use crate::pager::queue::cursor::{ReadCursor, WriteCursor};
use crate::pager::file::page_at;
use crate::pager::queue::layout::{
    chain_ok, item_at, lemma_chain_frame, lemma_chain_ok_frame, lemma_steps_mod, link_of, page_ok,
    queue_header_of, sound_chain, start_of, ITEM_AREA,
};

verus! {

/// Where a queue stands: enough to find it again in the file.
#[derive(Debug, Clone, Copy, PartialEq, Eq, Structural)]
pub struct QueueState {
    /// The number the queue was created under.
    pub queue_id: u64,
    /// The page the next item is read from.
    pub head_page: PhysicalPageId,
    /// Where the next item starts in that page.
    pub head_offset: u16,
    /// The page the next item is written to.
    pub tail_page: PhysicalPageId,
}

/// A queue of fixed-size items, first in, first out.
pub struct FIFOQueue {
    head_reader: ReadCursor,
    tail_writer: WriteCursor,
    queue_id: u64,
}

/// Whether every page of `pages` is in the cache of `pager`.
pub open spec fn pages_cached<F: File, C: CachePolicy<PageBuf>>(
    pager: &PageCache<F, C>,
    pages: Seq<usize>,
) -> bool {
    forall|k: int| 0 <= k < pages.len() ==> pager.cached(#[trigger] pages[k])
}

/// A queue after every item of `items` was pushed, in order.
pub open spec fn after_pushes(queue: Seq<Seq<u8>>, items: Seq<Seq<u8>>) -> Seq<Seq<u8>>
    decreases items.len(),
{
    if items.len() == 0 {
        queue
    } else {
        after_pushes(queue, items.drop_last()).push(items.last())
    }
}

/// What a pop returns from a queue.
pub open spec fn popped_item(queue: Seq<Seq<u8>>) -> Option<Seq<u8>> {
    if queue.len() > 0 {
        Some(queue[0])
    } else {
        None
    }
}

/// A queue after a pop.
pub open spec fn after_pop(queue: Seq<Seq<u8>>) -> Seq<Seq<u8>> {
    if queue.len() > 0 {
        queue.drop_first()
    } else {
        queue
    }
}

/// A queue after `count` pops.
pub open spec fn after_pops(queue: Seq<Seq<u8>>, count: nat) -> Seq<Seq<u8>>
    decreases count,
{
    if count == 0 {
        queue
    } else {
        after_pop(after_pops(queue, (count - 1) as nat))
    }
}

proof fn lemma_after_pushes(queue: Seq<Seq<u8>>, items: Seq<Seq<u8>>)
    ensures
        after_pushes(queue, items) == queue.add(items),
    decreases items.len(),
{
    if items.len() > 0 {
        lemma_after_pushes(queue, items.drop_last());
    }
}

proof fn lemma_after_pops(queue: Seq<Seq<u8>>, count: nat)
    requires
        count <= queue.len(),
    ensures
        after_pops(queue, count) == queue.skip(count as int),
    decreases count,
{
    if count > 0 {
        lemma_after_pops(queue, (count - 1) as nat);
    }
}

/// First in, first out: after `items` were pushed onto an empty queue,
/// the pops return them in the order they were pushed, and the pop
/// after the last of them returns nothing.
pub proof fn lemma_fifo_order(items: Seq<Seq<u8>>)
    ensures
        forall|k: nat|
            k < items.len() ==> #[trigger] popped_item(
                after_pops(after_pushes(Seq::empty(), items), k),
            ) == Some(items[k as int]),
        popped_item(after_pops(after_pushes(Seq::empty(), items), items.len())).is_none(),
{
    let queue = after_pushes(Seq::empty(), items);
    lemma_after_pushes(Seq::empty(), items);
    assert forall|k: nat| k < items.len() implies #[trigger] popped_item(after_pops(queue, k))
        == Some(items[k as int]) by {
        lemma_after_pops(queue, k);
    }
    lemma_after_pops(queue, items.len());
}

impl FIFOQueue {
    /// The queue is whole in the pages of `pager`: its pages are a
    /// sound chain, read at the head and written at the tail.
    pub closed spec fn inv<F: File, C: CachePolicy<PageBuf>>(
        &self,
        pager: &PageCache<F, C>,
    ) -> bool {
        &&& self.head_reader.wf(pager)
        &&& self.tail_writer.wf(pager)
        &&& self.head_reader.chain@ == self.tail_writer.chain@
        &&& self.tail_writer.first@ == self.head_reader.offset
        &&& self.head_reader.item_size == self.tail_writer.item_size
    }

    /// The items in the queue, oldest first.
    pub closed spec fn items<F: File, C: CachePolicy<PageBuf>>(
        &self,
        pager: &PageCache<F, C>,
    ) -> Seq<Seq<u8>> {
        self.head_reader.items(pager)
    }

    /// The size of every item of the queue.
    pub closed spec fn spec_item_size(&self) -> usize {
        self.tail_writer.item_size
    }

    /// The number the queue was created under.
    pub closed spec fn spec_queue_id(&self) -> u64 {
        self.queue_id
    }

    /// Where the next item starts in the first page of the queue.
    pub closed spec fn head_offset(&self) -> int {
        self.head_reader.offset as int
    }

    /// Where the next item goes in the last page of the queue.
    pub closed spec fn tail_offset(&self) -> int {
        self.tail_writer.offset as int
    }

    /// Whether one more item fits in the last page of the queue.
    pub open spec fn fits(&self) -> bool {
        self.tail_offset() + self.spec_item_size() <= ITEM_AREA
    }

    /// Whether the first page of the queue holds an item that has not
    /// been read.
    pub open spec fn head_has_item<F: File, C: CachePolicy<PageBuf>>(
        &self,
        pager: &PageCache<F, C>,
    ) -> bool {
        self.head_offset() + self.spec_item_size() <= queue_header_of(
            pager.page(self.pages()[0]),
        ).end_offset
    }

    /// Whether every page of the queue is in the cache.
    pub open spec fn all_cached<F: File, C: CachePolicy<PageBuf>>(
        &self,
        pager: &PageCache<F, C>,
    ) -> bool {
        pages_cached(pager, self.pages())
    }

    /// The pages the queue lies in, from head to tail.
    pub closed spec fn pages(&self) -> Seq<usize> {
        self.head_reader.chain@
    }

    /// A queue is untouched by whatever leaves its pages alone: if
    /// `after` holds the same bytes as `before` in every page of the
    /// queue and has handed out no fewer pages, the queue is whole in
    /// `after` and holds the same items.
    pub proof fn lemma_frame<F: File, C: CachePolicy<PageBuf>>(
        &self,
        before: &PageCache<F, C>,
        after: &PageCache<F, C>,
    )
        requires
            self.inv(before),
            after.inv(),
            before.next_id() <= after.next_id(),
            forall|k: int|
                0 <= k < self.pages().len() ==> after.page(#[trigger] self.pages()[k])
                    == before.page(self.pages()[k]),
        ensures
            self.inv(after),
            self.items(after) == self.items(before),
    {
        let chain = self.pages();
        lemma_chain_ok_frame(
            before.contents(),
            after.contents(),
            before.next_id(),
            after.next_id(),
            chain,
            self.head_reader.offset as int,
            self.head_reader.item_size as int,
        );
        lemma_chain_frame(
            before.contents(),
            after.contents(),
            chain,
            self.head_reader.offset as int,
            self.head_reader.item_size as int,
        );
    }

    /// A new, empty queue of items of `item_size` bytes. It takes one
    /// new page from the pager and writes it as an empty queue page,
    /// which takes one buffer: `Busy` means none could be had.
    pub fn create<F: File, C: CachePolicy<PageBuf>>(
        pager: &mut PageCache<F, C>,
        queue_id: u8,
        item_size: usize,
    ) -> (r: Result<FIFOQueue, Error>)
        requires
            old(pager).inv(),
            addressable(old(pager).next_id() + 1),
            1 <= item_size <= ITEM_AREA,
        ensures
            final(pager).wf(),
            final(pager).next_id() == old(pager).next_id() + 1,
            final(pager).reliable() == old(pager).reliable(),
            old(pager).reliable() ==> !(r matches Err(Error::Io(_))),
            final(pager).writes() == if r matches Err(Error::Busy) {
                old(pager).writes()
            } else {
                old(pager).writes().push(old(pager).next_id())
            },
            old(pager).free_buffers() > 0 ==> !(r matches Err(Error::Busy)),
            (r matches Err(e) && e is Busy) ==> final(pager).same_buffers(old(pager)),
            final(pager).free_buffers() + 1 >= old(pager).free_buffers(),
            r matches Ok(queue) ==> {
                &&& queue.inv(final(pager))
                &&& queue.items(final(pager)) == Seq::<Seq<u8>>::empty()
                &&& queue.spec_item_size() == item_size
                &&& queue.spec_queue_id() == queue_id
                &&& queue.head_offset() == 0
                &&& queue.tail_offset() == 0
                &&& queue.pages() == seq![old(pager).next_id()]
                &&& forall|slot: usize|
                    slot != old(pager).next_id() ==> final(pager).page(slot) == old(pager).page(
                        slot,
                    )
            },
            r matches Err(e) ==> {
                &&& (e is Busy || e is Io)
                &&& e is Busy ==> final(pager).inv() && final(pager).contents()
                    == old(pager).contents()
            },
    {
        proof {
            pager.lemma_next_id();
        }
        let init_page_id = pager.new_last_page_id();
        let tail_writer = match WriteCursor::init(
            pager,
            init_page_id,
            PhysicalPageId::invalid(),
            item_size,
        ) {
            Ok(cursor) => cursor,
            Err(e) => {
                return Err(e);
            },
        };
        let chain: Ghost<Seq<usize>> = Ghost(tail_writer.chain@);
        let head_reader = ReadCursor::init(
            init_page_id,
            PhysicalPageId::invalid(),
            item_size,
            chain,
        );
        Ok(FIFOQueue { head_reader, tail_writer, queue_id: queue_id as u64 })
    }

    /// Finds a queue again in the file, from where it stood. The
    /// chain is walked from the head page to the tail page, and every
    /// page is checked on the way: nothing is taken on trust from the
    /// file. Where the pages do not form a sound queue from
    /// `state.head_page` to `state.tail_page`, the answer is a
    /// `Serialization` error, and only there. Each page is read once;
    /// a page that is not cached takes a buffer, and `Busy` means one
    /// could not be had.
    pub fn recover<F: File, C: CachePolicy<PageBuf>>(
        pager: &mut PageCache<F, C>,
        state: QueueState,
        item_size: usize,
    ) -> (r: Result<FIFOQueue, Error>)
        requires
            old(pager).inv(),
        ensures
            final(pager).inv(),
            final(pager).contents() == old(pager).contents(),
            final(pager).durable() == old(pager).durable(),
            final(pager).next_id() == old(pager).next_id(),
            final(pager).writes() == old(pager).writes(),
            final(pager).reliable() == old(pager).reliable(),
            old(pager).reliable() ==> !(r matches Err(Error::Io(_))),
            // Where the queue is sound and all its pages are cached,
            // the file is not asked and the queue is found.
            forall|chain: Seq<usize>|
                #![trigger sound_chain(
                    old(pager).contents(),
                    old(pager).next_id(),
                    chain,
                    state.head_page.0,
                    state.head_offset as int,
                    state.tail_page.0,
                    item_size as int,
                )]
                sound_chain(
                    old(pager).contents(),
                    old(pager).next_id(),
                    chain,
                    state.head_page.0,
                    state.head_offset as int,
                    state.tail_page.0,
                    item_size as int,
                ) ==> {
                    &&& pages_cached(old(pager), chain) ==> r.is_ok() && final(pager).same_buffers(
                        old(pager),
                    )
                    &&& old(pager).free_buffers() >= chain.len() ==> !(r matches Err(Error::Busy))
                },
            // Each page read takes at most one buffer, and no page is
            // read twice.
            old(pager).free_buffers() >= old(pager).next_id() ==> !(r matches Err(Error::Busy)),
            r matches Ok(queue) ==> final(pager).free_buffers() + queue.pages().len()
                >= old(pager).free_buffers(),
            r matches Ok(queue) ==> {
                &&& queue.inv(final(pager))
                &&& queue.spec_item_size() == item_size
                &&& queue.spec_queue_id() == state.queue_id
                &&& queue.head_offset() == state.head_offset
                &&& sound_chain(
                    old(pager).contents(),
                    old(pager).next_id(),
                    queue.pages(),
                    state.head_page.0,
                    state.head_offset as int,
                    state.tail_page.0,
                    item_size as int,
                )
            },
            r matches Err(e) ==> e is Serialization || e is Busy || e is Io,
            (r matches Err(e) && e is Serialization) ==> forall|chain: Seq<usize>|
                !sound_chain(
                    old(pager).contents(),
                    old(pager).next_id(),
                    chain,
                    state.head_page.0,
                    state.head_offset as int,
                    state.tail_page.0,
                    item_size as int,
                ),
    {
        let ghost contents = pager.contents();
        let ghost bound = pager.next_id();
        let ghost head = state.head_page.0;
        let ghost tail = state.tail_page.0;
        let ghost first = state.head_offset as int;
        let ghost size = item_size as int;
        proof {
            pager.lemma_next_id();
        }
        if item_size == 0 || item_size > ITEM_AREA || state.head_page.0 == 0 || state.head_page.0
            >= pager.next_page_id() {
            return Err(Error::Serialization);
        }
        let mut cur = state.head_page;
        let mut start: usize = state.head_offset as usize;
        let ghost mut visited: Seq<usize> = seq![head];
        loop
            invariant
                pager.inv(),
                contents == old(pager).contents(),
                pager.contents() == contents,
                bound == old(pager).next_id(),
                pager.next_id() == bound,
                pager.writes() == old(pager).writes(),
                pager.reliable() == old(pager).reliable(),
                bound < usize::MAX,
                head == state.head_page.0,
                tail == state.tail_page.0,
                first == state.head_offset as int,
                size == item_size as int,
                1 <= item_size <= ITEM_AREA,
                visited.len() >= 1,
                visited[0] == head,
                visited.last() == cur.0,
                start == start_of(visited.len() - 1, first),
                forall|k: int| 0 <= k < visited.len() ==> 1 <= #[trigger] visited[k] < bound,
                forall|j: int, k: int|
                    0 <= j < k < visited.len() ==> #[trigger] visited[j] < #[trigger] visited[k],
                forall|k: int|
                    0 <= k < visited.len() - 1 ==> page_ok(
                        page_at(contents, #[trigger] visited[k] as int),
                        start_of(k, first),
                        size,
                        visited[k + 1],
                    ),
                forall|chain: Seq<usize>|
                    #![trigger sound_chain(contents, bound, chain, head, first, tail, size)]
                    sound_chain(contents, bound, chain, head, first, tail, size) ==> chain.len()
                        >= visited.len() && chain.take(visited.len() as int) == visited,
                forall|chain: Seq<usize>|
                    #![trigger sound_chain(contents, bound, chain, head, first, tail, size)]
                    sound_chain(contents, bound, chain, head, first, tail, size) && pages_cached(
                        old(pager),
                        chain,
                    ) ==> pager.same_buffers(old(pager)),
                visited.len() <= cur.0,
                pager.durable() == old(pager).durable(),
                pager.free_buffers() + (visited.len() - 1) >= old(pager).free_buffers(),
            decreases bound - cur.0,
        {
            let ghost at = visited.len() - 1;
            proof {
                assert forall|chain: Seq<usize>|
                    #![trigger sound_chain(contents, bound, chain, head, first, tail, size)]
                    sound_chain(contents, bound, chain, head, first, tail, size) && pages_cached(
                        old(pager),
                        chain,
                    ) implies pager.cached(cur.0) by {
                    assert(chain.take(visited.len() as int)[at] == chain[at]);
                    assert(old(pager).cached(chain[at]));
                }
            }
            let page = match pager.read_page(cur) {
                Ok(page) => page,
                Err(e) => {
                    return Err(e);
                },
            };
            let header = match page.queue_header() {
                Some(header) => header,
                None => {
                    proof {
                        assert forall|chain: Seq<usize>|
                            !sound_chain(contents, bound, chain, head, first, tail, size) by {
                            if sound_chain(contents, bound, chain, head, first, tail, size) {
                                assert(page_ok(
                                    page_at(contents, chain[at] as int),
                                    start_of(at, first),
                                    size,
                                    link_of(chain, at),
                                ));
                            }
                        }
                    }
                    return Err(Error::Serialization);
                },
            };
            proof {
                lemma_steps_mod(start as int, header.end_offset as int, size);
            }
            let at_tail = cur.0 == state.tail_page.0;
            let last = header.next_page_id.is_invalid();
            let sound = header.item_capacity as usize == ITEM_AREA && header.end_offset as usize
                <= ITEM_AREA && start <= header.end_offset as usize && (header.end_offset as usize
                - start) % item_size == 0 && header.next_offset == 0 && at_tail == last && (last || (
                header.next_page_id.0 > cur.0 && header.next_page_id.0 < pager.next_page_id()));
            if !sound {
                proof {
                    assert forall|chain: Seq<usize>|
                        !sound_chain(contents, bound, chain, head, first, tail, size) by {
                        if sound_chain(contents, bound, chain, head, first, tail, size) {
                            assert(page_ok(
                                page_at(contents, chain[at] as int),
                                start_of(at, first),
                                size,
                                link_of(chain, at),
                            ));
                            if at + 1 < chain.len() {
                                assert(chain[at] < chain[chain.len() - 1] || at + 1 == chain.len()
                                    - 1);
                            }
                        }
                    }
                }
                return Err(Error::Serialization);
            }
            if last {
                proof {
                    assert forall|k: int| 0 <= k < visited.len() implies page_ok(
                        page_at(contents, #[trigger] visited[k] as int),
                        start_of(k, first),
                        size,
                        link_of(visited, k),
                    ) by {
                        if k < at {
                            assert(page_ok(
                                page_at(contents, visited[k] as int),
                                start_of(k, first),
                                size,
                                visited[k + 1],
                            ));
                        }
                    }
                }
                let chain: Ghost<Seq<usize>> = Ghost(visited);
                let offset: Ghost<int> = Ghost(first);
                let head_reader = ReadCursor {
                    page_id: state.head_page,
                    next_page_id: PhysicalPageId::invalid(),
                    end_page_id: PhysicalPageId::invalid(),
                    offset: state.head_offset as usize,
                    item_size,
                    chain,
                };
                let tail_writer = WriteCursor {
                    page_id: state.tail_page,
                    next_page_id: PhysicalPageId::invalid(),
                    end_page_id: PhysicalPageId::invalid(),
                    offset: header.end_offset as usize,
                    item_size,
                    chain,
                    first: offset,
                };
                return Ok(FIFOQueue { head_reader, tail_writer, queue_id: state.queue_id });
            }
            proof {
                let next = header.next_page_id.0;
                let longer = visited.push(next);
                assert forall|chain: Seq<usize>|
                    #![trigger sound_chain(contents, bound, chain, head, first, tail, size)]
                    sound_chain(contents, bound, chain, head, first, tail, size) implies chain.len()
                    >= longer.len() && chain.take(longer.len() as int) == longer by {
                    assert(page_ok(
                        page_at(contents, chain[at] as int),
                        start_of(at, first),
                        size,
                        link_of(chain, at),
                    ));
                    assert(chain.take(longer.len() as int) =~= chain.take(
                        visited.len() as int,
                    ).push(chain[at + 1]));
                }
                assert forall|k: int| 0 <= k < longer.len() - 1 implies page_ok(
                    page_at(contents, #[trigger] longer[k] as int),
                    start_of(k, first),
                    size,
                    longer[k + 1],
                ) by {
                    if k < at {
                        assert(page_ok(
                            page_at(contents, visited[k] as int),
                            start_of(k, first),
                            size,
                            visited[k + 1],
                        ));
                    }
                }
                visited = longer;
            }
            cur = header.next_page_id;
            start = 0;
        }
    }

    /// The size of every item of the queue.
    pub fn item_size(&self) -> (n: usize)
        ensures
            n == self.spec_item_size(),
    {
        self.tail_writer.item_size
    }

    /// Appends `value` to the queue. When this returns, the item is
    /// in the file. An item that fits goes into the last page and
    /// takes one buffer on the way; an item that does not opens one
    /// new page behind the last and takes up to three. `Busy` means
    /// a buffer could not be had: nothing was pushed and the queue is
    /// whole. After an I/O error the queue in the file may be torn.
    pub fn push_back<F: File, C: CachePolicy<PageBuf>>(
        &mut self,
        pager: &mut PageCache<F, C>,
        value: &[u8],
    ) -> (r: Result<(), Error>)
        requires
            old(self).inv(old(pager)),
            value@.len() == old(self).spec_item_size(),
            addressable(old(pager).next_id() + 1),
        ensures
            final(pager).wf(),
            final(self).spec_item_size() == old(self).spec_item_size(),
            final(self).spec_queue_id() == old(self).spec_queue_id(),
            final(self).head_offset() == old(self).head_offset(),
            final(pager).reliable() == old(pager).reliable(),
            old(pager).reliable() ==> !(r matches Err(Error::Io(_))),
            r.is_ok() ==> {
                &&& final(self).inv(final(pager))
                &&& final(self).items(final(pager)) == old(self).items(old(pager)).push(value@)
            },
            // An item that fits goes into the last page, behind the
            // items there, and no page is opened, whatever comes of
            // the write.
            old(self).fits() ==> {
                &&& final(pager).next_id() == old(pager).next_id()
                &&& final(self).pages() == old(self).pages()
                &&& (final(pager).writes() == old(pager).writes() || final(pager).writes()
                    == old(pager).writes().push(old(self).pages().last()))
                &&& r.is_ok() ==> final(pager).writes() == old(pager).writes().push(
                    old(self).pages().last(),
                )
                &&& r matches Err(Error::Busy) ==> final(pager).writes() == old(pager).writes()
                &&& old(pager).free_buffers() >= 1 ==> !(r matches Err(Error::Busy))
                &&& final(pager).free_buffers() + 1 >= old(pager).free_buffers()
                &&& r.is_ok() ==> final(self).tail_offset()
                    == old(self).tail_offset() + old(self).spec_item_size() && item_at(
                    final(pager).page(old(self).pages().last()),
                    old(self).tail_offset(),
                    old(self).spec_item_size() as int,
                ) == value@
                &&& r.is_err() ==> final(self).tail_offset() == old(self).tail_offset()
            },
            // An item that does not fit opens exactly one page, the
            // next the pager hands out; the page is linked behind the
            // last, and the item is the first in it.
            !old(self).fits() ==> {
                &&& final(pager).next_id() == old(pager).next_id() + 1
                // The file is written in this order: the link in the
                // last page, the new page, the new page with the item.
                &&& ({
                    let linked = old(pager).writes().push(old(self).pages().last());
                    let opened = linked.push(old(pager).next_id());
                    ||| final(pager).writes() == old(pager).writes()
                    ||| final(pager).writes() == linked
                    ||| final(pager).writes() == opened
                    ||| final(pager).writes() == opened.push(old(pager).next_id())
                })
                &&& r.is_ok() ==> final(pager).writes() == old(pager).writes().push(
                    old(self).pages().last(),
                ).push(old(pager).next_id()).push(old(pager).next_id())
                &&& old(pager).free_buffers() >= 3 ==> !(r matches Err(Error::Busy))
                &&& final(pager).free_buffers() + 3 >= old(pager).free_buffers()
                &&& r.is_ok() ==> {
                    &&& final(self).pages() == old(self).pages().push(old(pager).next_id())
                    &&& final(self).tail_offset() == old(self).spec_item_size()
                    &&& item_at(
                        final(pager).page(old(pager).next_id()),
                        0,
                        old(self).spec_item_size() as int,
                    ) == value@
                }
            },
            r matches Err(e) ==> {
                &&& (e is Busy || e is Io)
                &&& e is Busy ==> {
                    &&& final(self).inv(final(pager))
                    &&& final(self).items(final(pager)) == old(self).items(old(pager))
                }
            },
            old(pager).next_id() <= final(pager).next_id() <= old(pager).next_id() + 1,
            r.is_ok() || (r matches Err(e) && e is Busy) ==> {
                &&& final(self).pages() == old(self).pages() || final(self).pages() ==
                    old(self).pages().push(old(pager).next_id())
                &&& forall|slot: usize|
                    slot < old(pager).next_id() && !old(self).pages().contains(slot)
                        ==> final(pager).page(slot) == old(pager).page(slot)
            },
    {
        let r = self.tail_writer.write(pager, value);
        self.head_reader.chain = Ghost(self.tail_writer.chain@);
        r
    }

    /// Takes the oldest item off the queue; `None` when the queue is
    /// empty. Nothing is written, so the queue stays whole whatever
    /// happens. The head ends just behind the item it took: in the
    /// same page while that page has an item left to take, else in
    /// the first page behind it that has one. Pages read to their end
    /// are left behind, but never the last page of the queue.
    /// While the pages of the queue are cached the answer
    /// never fails; a page that is not cached takes a buffer, and
    /// `Busy` means one could not be had.
    pub fn pop<F: File, C: CachePolicy<PageBuf>>(
        &mut self,
        pager: &mut PageCache<F, C>,
    ) -> (r: Result<Option<Vec<u8>>, Error>)
        requires
            old(self).inv(old(pager)),
        ensures
            final(self).inv(final(pager)),
            final(self).spec_item_size() == old(self).spec_item_size(),
            final(self).spec_queue_id() == old(self).spec_queue_id(),
            final(self).tail_offset() == old(self).tail_offset(),
            final(pager).contents() == old(pager).contents(),
            final(pager).durable() == old(pager).durable(),
            final(pager).next_id() == old(pager).next_id(),
            final(pager).writes() == old(pager).writes(),
            final(pager).reliable() == old(pager).reliable(),
            old(pager).reliable() ==> !(r matches Err(Error::Io(_))),
            // The head leaves the pages that are read to their end,
            // and no others; it never leaves the last page.
            final(self).pages().len() <= old(self).pages().len(),
            final(self).pages() == old(self).pages().skip(
                old(self).pages().len() - final(self).pages().len(),
            ),
            old(self).head_has_item(old(pager)) ==> final(self).pages() == old(self).pages(),
            forall|j: int|
                0 <= j < old(self).pages().len() - final(self).pages().len() ==> start_of(
                    j,
                    old(self).head_offset(),
                ) + old(self).spec_item_size() > queue_header_of(
                    old(pager).page(#[trigger] old(self).pages()[j]),
                ).end_offset,
            r matches Ok(None) ==> final(self).pages().len() == 1,
            final(self).head_offset() == if final(self).pages().len() == old(self).pages().len() {
                if r matches Ok(Some(_)) {
                    old(self).head_offset() + old(self).spec_item_size()
                } else {
                    old(self).head_offset()
                }
            } else {
                if r matches Ok(Some(_)) {
                    old(self).spec_item_size() as int
                } else {
                    0
                }
            },
            forall|slot: usize|
                final(self).pages().contains(slot) ==> old(self).pages().contains(slot),
            old(self).all_cached(old(pager)) ==> r.is_ok() && final(pager).same_buffers(old(pager)),
            old(pager).free_buffers() >= old(self).pages().len() ==> !(r matches Err(Error::Busy)),
            final(pager).free_buffers() + (old(self).pages().len() - final(self).pages().len()) + 1
                >= old(pager).free_buffers(),
            match r {
                Ok(Some(item)) => {
                    &&& popped_item(old(self).items(old(pager))) == Some(item@)
                    // The item stood in the page the head is now in,
                    // just before the head.
                    &&& item@ == item_at(
                        old(pager).page(final(self).pages()[0]),
                        final(self).head_offset() - old(self).spec_item_size(),
                        old(self).spec_item_size() as int,
                    )
                    &&& final(self).items(final(pager)) == after_pop(old(self).items(old(pager)))
                },
                Ok(None) => {
                    &&& popped_item(old(self).items(old(pager))).is_none()
                    &&& final(self).items(final(pager)) == old(self).items(old(pager))
                },
                Err(e) => {
                    &&& final(self).items(final(pager)) == old(self).items(old(pager))
                    &&& (e is Busy || e is Io)
                },
            },
    {
        let r = self.head_reader.pop(pager);
        self.tail_writer.chain = Ghost(self.head_reader.chain@);
        self.tail_writer.first = Ghost(self.head_reader.offset as int);
        r
    }

    /// Where the queue stands: its number, the first and the last of
    /// its pages, and how far the first has been read.
    pub fn state<F: File, C: CachePolicy<PageBuf>>(
        &self,
        pager: &PageCache<F, C>,
    ) -> (state: QueueState)
        requires
            self.inv(pager),
        ensures
            state.queue_id == self.spec_queue_id(),
            state.head_page.0 == self.pages()[0],
            state.head_offset == self.head_offset(),
            state.tail_page.0 == self.pages().last(),
    {
        proof {
            let chain = self.head_reader.chain@;
            let first = self.head_reader.offset as int;
            let size = self.head_reader.item_size as int;
            let page = pager.page(chain[0]);
            assert(crate::pager::queue::layout::page_ok(
                page,
                crate::pager::queue::layout::start_of(0, first),
                size,
                crate::pager::queue::layout::link_of(chain, 0),
            ));
            crate::pager::queue::layout::lemma_steps_order(
                first,
                crate::pager::queue::layout::queue_header_of(page).end_offset as int,
                size,
            );
        }
        QueueState {
            queue_id: self.queue_id as u64,
            head_page: self.head_reader.page_id,
            head_offset: self.head_reader.offset as u16,
            tail_page: self.tail_writer.page_id,
        }
    }
}

} // verus!
