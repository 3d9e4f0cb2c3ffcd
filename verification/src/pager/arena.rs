//! The buffer arena: a fixed pool of page-sized slots, handed out one
//! after another and never taken back one by one.
//!
//! The arena decides which slot comes next and when the pool is
//! spent. Slots are named by their byte offset into the pool.

use vstd::arithmetic::power2::is_pow2;
use vstd::prelude::*;

verus! {

/// The one alignment the arena serves.
pub const ARENA_ALIGN: usize = 8;

/// Why the arena refused.
#[derive(Debug, Clone, Copy, PartialEq, Eq, Structural)]
pub enum ArenaError {
    /// The page size or the page count is not a power of two, or the
    /// pool they ask for is larger than an allocation can be.
    InvalidConfig,
    /// Every slot has been handed out.
    Exhausted,
    /// A size or an alignment other than the arena's own was asked for.
    BadLayout,
}

/// A pool of `num_pages` slots of `page_size` bytes each.
#[derive(Debug)]
pub struct Arena {
    page_size: usize,
    num_pages: usize,
    len: usize,
}

/// Whether `n` is a power of two.
pub fn is_power_of_two(n: usize) -> (b: bool)
    ensures
        b == is_pow2(n as int),
{
    let mut m: usize = n;
    while m > 1 && m % 2 == 0
        invariant
            is_pow2(m as int) == is_pow2(n as int),
        decreases m,
    {
        proof {
            reveal(is_pow2);
        }
        m = m / 2;
    }
    proof {
        reveal(is_pow2);
    }
    m == 1
}

impl Arena {
    /// The size of each slot in bytes.
    pub closed spec fn spec_page_size(&self) -> nat {
        self.page_size as nat
    }

    /// The number of slots in the pool.
    pub closed spec fn spec_num_pages(&self) -> nat {
        self.num_pages as nat
    }

    /// The number of slots handed out so far.
    pub closed spec fn issued(&self) -> nat {
        self.len as nat
    }

    /// The pool fits in memory and no more slots are out than it has.
    pub closed spec fn wf(&self) -> bool {
        &&& is_pow2(self.page_size as int)
        &&& is_pow2(self.num_pages as int)
        &&& self.page_size * self.num_pages <= isize::MAX
        &&& self.len <= self.num_pages
    }

    /// A pool is valid when both numbers are powers of two and the
    /// pool is no larger than an allocation can be.
    pub open spec fn valid_config(page_size: usize, num_pages: usize) -> bool {
        &&& is_pow2(page_size as int)
        &&& is_pow2(num_pages as int)
        &&& page_size * num_pages <= isize::MAX
    }

    /// No more slots are out than the pool has.
    pub proof fn lemma_issued_bound(&self)
        requires
            self.wf(),
        ensures
            self.issued() <= self.spec_num_pages(),
    {
    }

    /// A pool with every slot free, or `InvalidConfig`.
    pub fn new(page_size: usize, num_pages: usize) -> (r: Result<Arena, ArenaError>)
        ensures
            r.is_ok() == Arena::valid_config(page_size, num_pages),
            r matches Ok(arena) ==> {
                &&& arena.wf()
                &&& arena.spec_page_size() == page_size
                &&& arena.spec_num_pages() == num_pages
                &&& arena.issued() == 0
            },
            r matches Err(e) ==> e == ArenaError::InvalidConfig,
    {
        if !is_power_of_two(page_size) || !is_power_of_two(num_pages) {
            return Err(ArenaError::InvalidConfig);
        }
        match page_size.checked_mul(num_pages) {
            Some(size) => {
                if size > isize::MAX as usize {
                    Err(ArenaError::InvalidConfig)
                } else {
                    Ok(Arena { page_size, num_pages, len: 0 })
                }
            },
            None => Err(ArenaError::InvalidConfig),
        }
    }

    /// The size of each slot in bytes.
    pub fn page_size(&self) -> (n: usize)
        ensures
            n == self.spec_page_size(),
    {
        self.page_size
    }

    /// The number of slots in the pool.
    pub fn num_pages(&self) -> (n: usize)
        ensures
            n == self.spec_num_pages(),
    {
        self.num_pages
    }

    /// The number of slots handed out so far.
    pub fn len(&self) -> (n: usize)
        ensures
            n == self.issued(),
    {
        self.len
    }

    /// Hands out the next slot, named by its byte offset into the
    /// pool, or `Exhausted` once every slot is out.
    pub fn alloc_slot(&mut self) -> (r: Result<usize, ArenaError>)
        requires
            old(self).wf(),
        ensures
            final(self).wf(),
            final(self).spec_page_size() == old(self).spec_page_size(),
            final(self).spec_num_pages() == old(self).spec_num_pages(),
            r.is_ok() == (old(self).issued() < old(self).spec_num_pages()),
            r matches Ok(offset) ==> {
                &&& offset == old(self).issued() * old(self).spec_page_size()
                &&& final(self).issued() == old(self).issued() + 1
            },
            r matches Err(e) ==> e == ArenaError::Exhausted && final(self).issued() == old(
                self,
            ).issued(),
    {
        let len: usize = self.len;
        if len >= self.num_pages {
            return Err(ArenaError::Exhausted);
        }
        assert(len * self.page_size <= self.num_pages * self.page_size) by (nonlinear_arith)
            requires
                len <= self.num_pages,
        ;
        assert(self.num_pages * self.page_size == self.page_size * self.num_pages)
            by (nonlinear_arith);
        let offset: usize = len * self.page_size;
        self.len = len + 1;
        Ok(offset)
    }

    /// The arena seen as a general allocator: serves a request for
    /// exactly one slot at the arena's alignment, and no other. On
    /// success gives the slot's byte offset and its size.
    pub fn allocate(&mut self, size: usize, align: usize) -> (r: Result<(usize, usize), ArenaError>)
        requires
            old(self).wf(),
        ensures
            final(self).wf(),
            final(self).spec_page_size() == old(self).spec_page_size(),
            final(self).spec_num_pages() == old(self).spec_num_pages(),
            r.is_ok() == (size == old(self).spec_page_size() && align == ARENA_ALIGN && old(
                self,
            ).issued() < old(self).spec_num_pages()),
            r matches Ok(slot) ==> {
                &&& slot.0 == old(self).issued() * old(self).spec_page_size()
                &&& slot.1 == old(self).spec_page_size()
                &&& final(self).issued() == old(self).issued() + 1
            },
            r matches Err(e) ==> {
                &&& final(self).issued() == old(self).issued()
                &&& e == if size == old(self).spec_page_size() && align == ARENA_ALIGN {
                    ArenaError::Exhausted
                } else {
                    ArenaError::BadLayout
                }
            },
    {
        if size != self.page_size || align != ARENA_ALIGN {
            return Err(ArenaError::BadLayout);
        }
        match self.alloc_slot() {
            Ok(offset) => Ok((offset, self.page_size)),
            Err(e) => Err(e),
        }
    }
}

/// Running the pool dry: a pool that has handed out as many slots as
/// it holds refuses the next request, and one that has handed out
/// fewer serves it. So after exactly `num_pages` successful calls of
/// `alloc_slot` on a new pool the next call fails.
pub proof fn lemma_arena_exhaustion(states: Seq<Arena>)
    requires
        states.len() > 0,
        states[0].issued() == 0,
        forall|i: int|
            0 <= i < states.len() - 1 ==> #[trigger] states[i + 1].issued() == states[i].issued()
                + 1,
        forall|i: int|
            0 <= i < states.len() ==> #[trigger] states[i].spec_num_pages()
                == states[0].spec_num_pages(),
    ensures
        forall|i: int| 0 <= i < states.len() ==> #[trigger] states[i].issued() == i,
        states.len() - 1 == states[0].spec_num_pages() ==> !(states.last().issued()
            < states.last().spec_num_pages()),
        states.len() - 1 < states[0].spec_num_pages() ==> states.last().issued()
            < states.last().spec_num_pages(),
{
    assert forall|i: int| 0 <= i < states.len() implies #[trigger] states[i].issued() == i by {
        lemma_issued_counts(states, i);
    }
}

proof fn lemma_issued_counts(states: Seq<Arena>, i: int)
    requires
        0 <= i < states.len(),
        states[0].issued() == 0,
        forall|j: int|
            0 <= j < states.len() - 1 ==> #[trigger] states[j + 1].issued() == states[j].issued()
                + 1,
    ensures
        states[i].issued() == i,
    decreases i,
{
    if i > 0 {
        lemma_issued_counts(states, i - 1);
        assert(states[(i - 1) + 1].issued() == states[i - 1].issued() + 1);
    }
}

} // verus!
