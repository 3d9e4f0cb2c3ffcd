//! What the pager promises across calls.
//!
//! Each law is stated over the same functions the contracts of the
//! pager use: `written` for what a write does to the file, `page_at`
//! for what a slot holds, `resolve` for the slot a version sees.

use vstd::prelude::*;
use crate::pager::file::{lemma_written_elsewhere, lemma_written_page, page_at, written};
use crate::pager::header::Header;
use crate::pager::page::PAGE_SIZE;
use crate::pager::table::{lemma_resolve_between, lemma_resolve_identity, resolve};

verus! {

/// The file after the pages of `writes` were written, each to its
/// slot, in order.
pub open spec fn after_writes(contents: Seq<u8>, writes: Seq<(usize, Seq<u8>)>) -> Seq<u8>
    decreases writes.len(),
{
    if writes.len() == 0 {
        contents
    } else {
        written(
            after_writes(contents, writes.drop_last()),
            writes.last().0 * PAGE_SIZE,
            writes.last().1,
        )
    }
}

/// A slot holds what was last written to it.
pub proof fn lemma_last_write_wins(contents: Seq<u8>, writes: Seq<(usize, Seq<u8>)>, k: int)
    requires
        0 <= k < writes.len(),
        forall|i: int| 0 <= i < writes.len() ==> (#[trigger] writes[i]).1.len() == PAGE_SIZE,
        forall|j: int| k < j < writes.len() ==> (#[trigger] writes[j]).0 != writes[k].0,
    ensures
        page_at(after_writes(contents, writes), writes[k].0 as int) == writes[k].1,
    decreases writes.len(),
{
    let earlier = writes.drop_last();
    let last = writes.last();
    if k == writes.len() - 1 {
        lemma_written_page(after_writes(contents, earlier), last.0 as int, last.1);
    } else {
        lemma_last_write_wins(contents, earlier, k);
        lemma_written_elsewhere(
            after_writes(contents, earlier),
            last.0 as int,
            last.1,
            writes[k].0 as int,
        );
    }
}

/// Round-trip durability. Pages are written, in place or as
/// copy-on-write updates, each to the slot it was written under; then
/// the header is committed. A pager recovered from that file starts
/// with an empty version table, so at every version it reads each
/// page from the page's own slot, and finds there, byte for byte,
/// what was last written to it.
pub proof fn lemma_round_trip_durability(
    contents: Seq<u8>,
    writes: Seq<(usize, Seq<u8>)>,
    header: Header,
    k: int,
    version: u64,
)
    requires
        0 <= k < writes.len(),
        forall|i: int|
            0 <= i < writes.len() ==> (#[trigger] writes[i]).1.len() == PAGE_SIZE && writes[i].0
                >= 1,
        forall|j: int| k < j < writes.len() ==> (#[trigger] writes[j]).0 != writes[k].0,
    ensures
        page_at(
            written(after_writes(contents, writes), 0, header.page()),
            resolve(Map::<u64, usize>::empty(), writes[k].0, version) as int,
        ) == writes[k].1,
{
    lemma_last_write_wins(contents, writes, k);
    lemma_resolve_identity(Map::<u64, usize>::empty(), writes[k].0, version);
    header.lemma_round_trip(Seq::empty());
    lemma_written_elsewhere(after_writes(contents, writes), 0, header.page(), writes[k].0 as int);
}

/// Copy-on-write isolation. Page `id`, which has no mapping at or
/// before `v1`, is written in place with `first`; later it is updated
/// at `v2` with `second`, which goes to the fresh page `fresh`. Then a
/// read at `v1` still finds `first`, and a read at `v2` finds
/// `second`.
pub proof fn lemma_cow_isolation(
    contents: Seq<u8>,
    versions: Map<u64, usize>,
    id: usize,
    fresh: usize,
    v1: u64,
    v2: u64,
    first: Seq<u8>,
    second: Seq<u8>,
)
    requires
        v1 < v2,
        id != fresh,
        first.len() == PAGE_SIZE,
        second.len() == PAGE_SIZE,
        forall|x: u64| versions.contains_key(x) ==> x > v1,
    ensures
        ({
            let in_place = written(contents, id * PAGE_SIZE, first);
            let updated = written(in_place, fresh * PAGE_SIZE, second);
            let mapped = versions.insert(v2, fresh);
            &&& page_at(updated, resolve(mapped, id, v1) as int) == first
            &&& page_at(updated, resolve(mapped, id, v2) as int) == second
        }),
{
    let in_place = written(contents, id * PAGE_SIZE, first);
    let updated = written(in_place, fresh * PAGE_SIZE, second);
    let mapped = versions.insert(v2, fresh);
    lemma_resolve_identity(mapped, id, v1);
    lemma_resolve_between(mapped, id, v2, v2);
    lemma_written_page(contents, id as int, first);
    lemma_written_elsewhere(in_place, fresh as int, second, id as int);
    lemma_written_page(in_place, fresh as int, second);
}

} // verus!
