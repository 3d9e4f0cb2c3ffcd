//! How a queue lies in pages, and what it holds.
//!
//! A queue is a chain of pages. Each page carries a queue header and,
//! after it, items of one fixed size, packed from offset 0 up to the
//! header's `end_offset`. The header's link names the page that
//! continues the chain; the last page links to no page.

use vstd::prelude::*;
use crate::pager::file::page_at;
use crate::pager::ids::{PhysicalPageId, INVALID_PAGE};
use crate::pager::page::{QueuePageHeader, PAGE_HEADER_SIZE, PAGE_SIZE};
use crate::pager::codec::splice;

verus! {

/// Where the items start in a queue page.
pub const ITEMS_START: usize = 40;

/// The bytes a queue page has for items.
pub const ITEM_AREA: usize = 4056;

/// The queue header that a page's payload begins with.
pub open spec fn queue_header_of(page: Seq<u8>) -> QueuePageHeader {
    QueuePageHeader::decoding(page.subrange(PAGE_HEADER_SIZE as int, PAGE_SIZE as int))
}

/// Whether a page's payload begins with a queue header.
pub open spec fn queue_header_ok(page: Seq<u8>) -> bool {
    QueuePageHeader::decodable(page.subrange(PAGE_HEADER_SIZE as int, PAGE_SIZE as int))
}

/// The item of `size` bytes at `offset` in a page's item area.
pub open spec fn item_at(page: Seq<u8>, offset: int, size: int) -> Seq<u8> {
    page.subrange(ITEMS_START + offset, ITEMS_START + offset + size)
}

/// Whether steps of `size` lead from `from` exactly to `to`.
pub open spec fn steps(from: int, to: int, size: int) -> bool
    decreases to - from,
{
    if from == to {
        true
    } else if 0 < size && from + size <= to {
        steps(from + size, to, size)
    } else {
        false
    }
}

/// The items of `size` bytes that a page holds from offset `from` up
/// to offset `to`, in order.
pub open spec fn items_between(page: Seq<u8>, from: int, to: int, size: int) -> Seq<Seq<u8>>
    decreases to - from,
{
    if 0 < size && from + size <= to {
        seq![item_at(page, from, size)].add(items_between(page, from + size, to, size))
    } else {
        Seq::empty()
    }
}

/// Whether two pages hold the same bytes in the item area between two
/// offsets.
pub open spec fn same_items(was: Seq<u8>, now: Seq<u8>, from: int, to: int) -> bool {
    forall|i: int| ITEMS_START + from <= i < ITEMS_START + to ==> was[i] == now[i]
}

/// Whether `page` is a sound queue page whose unread items start at
/// `start` and whose link is `next`.
pub open spec fn page_ok(page: Seq<u8>, start: int, size: int, next: usize) -> bool {
    let h = queue_header_of(page);
    &&& page.len() == PAGE_SIZE
    &&& queue_header_ok(page)
    &&& h.item_capacity == ITEM_AREA
    &&& h.end_offset <= ITEM_AREA
    &&& 0 <= start
    &&& steps(start, h.end_offset as int, size)
    &&& h.next_page_id.0 == next
    &&& h.next_offset == 0
}

/// The unread start of the `k`-th page of a chain.
pub open spec fn start_of(k: int, first: int) -> int {
    if k == 0 {
        first
    } else {
        0
    }
}

/// The link the `k`-th page of a chain must carry.
pub open spec fn link_of(chain: Seq<usize>, k: int) -> usize {
    if k + 1 < chain.len() {
        chain[k + 1]
    } else {
        INVALID_PAGE
    }
}

/// Whether `chain` is a sound queue in a file of `contents`: pages
/// that have been handed out, in ascending order, each a sound queue
/// page linked to the next, the unread items of the first starting at
/// `first`.
pub open spec fn chain_ok(contents: Seq<u8>, bound: usize, chain: Seq<usize>, first: int,
    size: int) -> bool {
    &&& 1 <= size <= ITEM_AREA
    &&& chain.len() >= 1
    &&& forall|k: int| 0 <= k < chain.len() ==> 1 <= #[trigger] chain[k] < bound
    &&& forall|j: int, k: int| 0 <= j < k < chain.len() ==> #[trigger] chain[j] < #[trigger] chain[k]
    &&& forall|k: int|
        0 <= k < chain.len() ==> page_ok(
            page_at(contents, #[trigger] chain[k] as int),
            start_of(k, first),
            size,
            link_of(chain, k),
        )
}

/// Whether `chain` is the sound queue that is read from `head` at
/// offset `first` and written at `tail`.
pub open spec fn sound_chain(
    contents: Seq<u8>,
    bound: usize,
    chain: Seq<usize>,
    head: usize,
    first: int,
    tail: usize,
    size: int,
) -> bool {
    &&& chain_ok(contents, bound, chain, first, size)
    &&& chain[0] == head
    &&& chain.last() == tail
}

/// The unread items of a chain, oldest first.
pub open spec fn chain_items(contents: Seq<u8>, chain: Seq<usize>, first: int, size: int)
    -> Seq<Seq<u8>>
    decreases chain.len(),
{
    if chain.len() == 0 {
        Seq::empty()
    } else {
        let page = page_at(contents, chain[0] as int);
        items_between(page, first, queue_header_of(page).end_offset as int, size).add(
            chain_items(contents, chain.drop_first(), 0, size),
        )
    }
}

/// Whether `now` is `was` with `item` appended: the header's end moved
/// on by the item's size, the item behind the old items, and nothing
/// else of the queue changed.
pub open spec fn appended(was: Seq<u8>, now: Seq<u8>, size: int, item: Seq<u8>) -> bool {
    let h1 = queue_header_of(was);
    let h2 = queue_header_of(now);
    &&& was.len() == PAGE_SIZE
    &&& now.len() == PAGE_SIZE
    &&& queue_header_ok(now)
    &&& h1.end_offset + size <= ITEM_AREA
    &&& h2 == (QueuePageHeader { end_offset: (h1.end_offset + size) as u16, ..h1 })
    &&& same_items(was, now, 0, h1.end_offset as int)
    &&& item_at(now, h1.end_offset as int, size) == item
}

/// Whether `now` is `was` with its link set to `next` and nothing else
/// of the queue changed.
pub open spec fn linked(was: Seq<u8>, now: Seq<u8>, next: usize) -> bool {
    let h1 = queue_header_of(was);
    let h2 = queue_header_of(now);
    &&& was.len() == PAGE_SIZE
    &&& now.len() == PAGE_SIZE
    &&& queue_header_ok(now)
    &&& h2 == (QueuePageHeader { next_page_id: PhysicalPageId(next), next_offset: 0, ..h1 })
    &&& same_items(was, now, 0, ITEM_AREA as int)
}

/// Whether `page` is a queue page with no items and no link.
pub open spec fn empty_page(page: Seq<u8>) -> bool {
    &&& page.len() == PAGE_SIZE
    &&& queue_header_ok(page)
    &&& queue_header_of(page) == (QueuePageHeader {
        next_page_id: PhysicalPageId(INVALID_PAGE),
        next_offset: 0,
        end_offset: 0,
        item_capacity: ITEM_AREA as u16,
    })
}

/// Steps never lead backwards.
pub proof fn lemma_steps_order(from: int, to: int, size: int)
    requires
        steps(from, to, size),
    ensures
        from <= to,
    decreases to - from,
{
    if from != to {
        lemma_steps_order(from + size, to, size);
    }
}

/// Steps of `size` lead from `from` to `to` exactly when `to` lies
/// a whole number of steps ahead.
pub proof fn lemma_steps_mod(from: int, to: int, size: int)
    requires
        0 < size,
    ensures
        steps(from, to, size) == (from <= to && (to - from) % size == 0),
    decreases to - from,
{
    if from < to {
        let x = to - from;
        if from + size <= to {
            lemma_steps_mod(from + size, to, size);
            vstd::arithmetic::div_mod::lemma_mod_multiples_vanish(-1, x, size);
        } else {
            vstd::arithmetic::div_mod::lemma_small_mod(x as nat, size as nat);
        }
    } else if from == to {
        vstd::arithmetic::div_mod::lemma_small_mod(0, size as nat);
    }
}

/// Writing a queue header into a page changes the header and nothing
/// else.
pub proof fn lemma_header_written(page: Seq<u8>, h: QueuePageHeader)
    requires
        page.len() == PAGE_SIZE,
    ensures
        ({
            let q = splice(page, PAGE_HEADER_SIZE as int, h.encoding());
            &&& q.len() == PAGE_SIZE
            &&& queue_header_ok(q)
            &&& queue_header_of(q) == h
            &&& forall|i: int| 0 <= i < PAGE_HEADER_SIZE ==> q[i] == page[i]
            &&& forall|i: int| ITEMS_START <= i < PAGE_SIZE ==> q[i] == page[i]
        }),
{
    let q = splice(page, PAGE_HEADER_SIZE as int, h.encoding());
    let rest = page.subrange(ITEMS_START as int, PAGE_SIZE as int);
    h.lemma_round_trip(rest);
    assert(q.subrange(PAGE_HEADER_SIZE as int, PAGE_SIZE as int) =~= h.encoding().add(rest));
}

/// Pages that agree between two offsets hold the same items there.
pub proof fn lemma_items_frame(was: Seq<u8>, now: Seq<u8>, from: int, to: int, size: int)
    requires
        was.len() == PAGE_SIZE,
        now.len() == PAGE_SIZE,
        0 <= from,
        to <= ITEM_AREA,
        same_items(was, now, from, to),
    ensures
        items_between(was, from, to, size) == items_between(now, from, to, size),
    decreases to - from,
{
    if 0 < size && from + size <= to {
        lemma_items_frame(was, now, from + size, to, size);
        assert(item_at(was, from, size) =~= item_at(now, from, size));
    }
}

/// An item written behind the last one is the last item, and the
/// items before it stay.
pub proof fn lemma_items_append(was: Seq<u8>, now: Seq<u8>, from: int, to: int, size: int)
    requires
        was.len() == PAGE_SIZE,
        now.len() == PAGE_SIZE,
        0 < size,
        0 <= from,
        to + size <= ITEM_AREA,
        steps(from, to, size),
        same_items(was, now, from, to),
    ensures
        steps(from, to + size, size),
        items_between(now, from, to + size, size) == items_between(was, from, to, size).push(
            item_at(now, to, size),
        ),
    decreases to - from,
{
    if from == to {
        assert(items_between(now, to + size, to + size, size) =~= Seq::<Seq<u8>>::empty());
        assert(steps(to + size, to + size, size));
        assert(items_between(now, from, to + size, size) =~= items_between(was, from, to, size).push(
            item_at(now, to, size),
        ));
    } else {
        lemma_items_append(was, now, from + size, to, size);
        assert(item_at(was, from, size) =~= item_at(now, from, size));
        assert(items_between(now, from, to + size, size) =~= items_between(was, from, to, size).push(
            item_at(now, to, size),
        ));
    }
}

/// A chain whose pages are the same in two files holds the same items
/// in both.
pub proof fn lemma_chain_frame(c1: Seq<u8>, c2: Seq<u8>, chain: Seq<usize>, first: int, size: int)
    requires
        forall|k: int|
            0 <= k < chain.len() ==> page_at(c1, #[trigger] chain[k] as int) == page_at(
                c2,
                chain[k] as int,
            ),
    ensures
        chain_items(c1, chain, first, size) == chain_items(c2, chain, first, size),
    decreases chain.len(),
{
    if chain.len() > 0 {
        let rest = chain.drop_first();
        lemma_chain_frame(c1, c2, rest, 0, size);
    }
}

/// A sound chain stays sound in a file that has the same pages for it
/// and no fewer pages handed out.
pub proof fn lemma_chain_ok_frame(
    c1: Seq<u8>,
    c2: Seq<u8>,
    b1: usize,
    b2: usize,
    chain: Seq<usize>,
    first: int,
    size: int,
)
    requires
        chain_ok(c1, b1, chain, first, size),
        b1 <= b2,
        forall|k: int|
            0 <= k < chain.len() ==> page_at(c1, #[trigger] chain[k] as int) == page_at(
                c2,
                chain[k] as int,
            ),
    ensures
        chain_ok(c2, b2, chain, first, size),
{
}

/// The chain that remains when its first page is left behind.
pub proof fn lemma_chain_rest(contents: Seq<u8>, bound: usize, chain: Seq<usize>, first: int,
    size: int)
    requires
        chain_ok(contents, bound, chain, first, size),
        chain.len() >= 2,
    ensures
        chain_ok(contents, bound, chain.drop_first(), 0, size),
{
}

proof fn lemma_chain_items_append(
    c1: Seq<u8>,
    c2: Seq<u8>,
    chain: Seq<usize>,
    first: int,
    size: int,
    item: Seq<u8>,
)
    requires
        chain.len() >= 1,
        0 <= first,
        forall|k: int|
            0 <= k < chain.len() - 1 ==> page_at(c1, #[trigger] chain[k] as int) == page_at(
                c2,
                chain[k] as int,
            ),
        appended(page_at(c1, chain.last() as int), page_at(c2, chain.last() as int), size, item),
        0 < size,
        steps(
            start_of(chain.len() - 1, first),
            queue_header_of(page_at(c1, chain.last() as int)).end_offset as int,
            size,
        ),
    ensures
        chain_items(c2, chain, first, size) == chain_items(c1, chain, first, size).push(item),
    decreases chain.len(),
{
    let rest = chain.drop_first();
    if chain.len() == 1 {
        let was = page_at(c1, chain[0] as int);
        let now = page_at(c2, chain[0] as int);
        let end = queue_header_of(was).end_offset as int;
        lemma_steps_order(first, end, size);
        lemma_items_append(was, now, first, end, size);
        assert(chain_items(c1, rest, 0, size) =~= Seq::<Seq<u8>>::empty());
        assert(chain_items(c2, rest, 0, size) =~= Seq::<Seq<u8>>::empty());
        assert(chain_items(c2, chain, first, size) =~= chain_items(c1, chain, first, size).push(
            item,
        ));
    } else {
        lemma_chain_items_append(c1, c2, rest, 0, size, item);
        assert(chain_items(c2, chain, first, size) =~= chain_items(c1, chain, first, size).push(
            item,
        ));
    }
}

/// Appending an item to the last page of a sound chain leaves the
/// chain sound and puts the item behind all the others.
pub proof fn lemma_chain_append(
    c1: Seq<u8>,
    c2: Seq<u8>,
    bound: usize,
    chain: Seq<usize>,
    first: int,
    size: int,
    item: Seq<u8>,
)
    requires
        chain_ok(c1, bound, chain, first, size),
        forall|k: int|
            0 <= k < chain.len() - 1 ==> page_at(c1, #[trigger] chain[k] as int) == page_at(
                c2,
                chain[k] as int,
            ),
        appended(page_at(c1, chain.last() as int), page_at(c2, chain.last() as int), size, item),
    ensures
        chain_ok(c2, bound, chain, first, size),
        chain_items(c2, chain, first, size) == chain_items(c1, chain, first, size).push(item),
{
    let last = chain.len() - 1;
    let was = page_at(c1, chain[last] as int);
    let now = page_at(c2, chain[last] as int);
    let end = queue_header_of(was).end_offset as int;
    lemma_steps_order(start_of(last, first), end, size);
    lemma_items_append(was, now, start_of(last, first), end, size);
    assert(page_ok(page_at(c1, chain[0] as int), start_of(0, first), size, link_of(chain, 0)));
    lemma_chain_items_append(c1, c2, chain, first, size, item);
}

proof fn lemma_chain_items_extend(
    c1: Seq<u8>,
    c2: Seq<u8>,
    chain: Seq<usize>,
    fresh: usize,
    first: int,
    size: int,
)
    requires
        chain.len() >= 1,
        0 <= first,
        forall|k: int|
            0 <= k < chain.len() - 1 ==> page_at(c1, #[trigger] chain[k] as int) == page_at(
                c2,
                chain[k] as int,
            ),
        linked(page_at(c1, chain.last() as int), page_at(c2, chain.last() as int), fresh),
        empty_page(page_at(c2, fresh as int)),
        queue_header_of(page_at(c1, chain.last() as int)).end_offset <= ITEM_AREA,
    ensures
        chain_items(c2, chain.push(fresh), first, size) == chain_items(c1, chain, first, size),
    decreases chain.len(),
{
    let rest = chain.drop_first();
    let longer = chain.push(fresh);
    assert(longer.drop_first() =~= rest.push(fresh));
    if chain.len() == 1 {
        let was = page_at(c1, chain[0] as int);
        let now = page_at(c2, chain[0] as int);
        let end = queue_header_of(was).end_offset as int;
        if first <= end {
            lemma_items_frame(was, now, first, end, size);
        }
        let tail = seq![fresh];
        assert(rest.push(fresh) =~= tail);
        assert(chain_items(c2, tail.drop_first(), 0, size) =~= Seq::<Seq<u8>>::empty());
        assert(chain_items(c2, tail, 0, size) =~= Seq::<Seq<u8>>::empty());
        assert(chain_items(c1, rest, 0, size) =~= Seq::<Seq<u8>>::empty());
    } else {
        lemma_chain_items_extend(c1, c2, rest, fresh, 0, size);
    }
}

/// Linking a fresh empty page behind the last page of a sound chain
/// gives a sound chain, one page longer, that holds the same items.
pub proof fn lemma_chain_extend(
    c1: Seq<u8>,
    c2: Seq<u8>,
    bound: usize,
    chain: Seq<usize>,
    fresh: usize,
    first: int,
    size: int,
)
    requires
        chain_ok(c1, bound, chain, first, size),
        bound <= fresh < usize::MAX,
        forall|k: int|
            0 <= k < chain.len() - 1 ==> page_at(c1, #[trigger] chain[k] as int) == page_at(
                c2,
                chain[k] as int,
            ),
        linked(page_at(c1, chain.last() as int), page_at(c2, chain.last() as int), fresh),
        empty_page(page_at(c2, fresh as int)),
    ensures
        chain_ok(c2, (fresh + 1) as usize, chain.push(fresh), first, size),
        chain_items(c2, chain.push(fresh), first, size) == chain_items(c1, chain, first, size),
{
    let last = chain.len() - 1;
    assert(page_ok(page_at(c1, chain[0] as int), start_of(0, first), size, link_of(chain, 0)));
    lemma_chain_items_extend(c1, c2, chain, fresh, first, size);
}

/// One fresh empty page is a sound chain that holds nothing.
pub proof fn lemma_chain_start(contents: Seq<u8>, bound: usize, fresh: usize, size: int)
    requires
        1 <= size <= ITEM_AREA,
        1 <= fresh < bound,
        empty_page(page_at(contents, fresh as int)),
    ensures
        chain_ok(contents, bound, seq![fresh], 0, size),
        chain_items(contents, seq![fresh], 0, size) == Seq::<Seq<u8>>::empty(),
{
    let chain = seq![fresh];
    assert(chain_items(contents, chain.drop_first(), 0, size) =~= Seq::<Seq<u8>>::empty());
}

} // verus!
