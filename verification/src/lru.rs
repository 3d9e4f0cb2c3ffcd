//! A map from page numbers to buffer indices that remembers which
//! entry was used least recently.
//!
//! The bookkeeping is done by the `lru` crate's `LruCache`. What this
//! module proves rests on the contracts stated here for its methods.

use vstd::prelude::*;

verus! {

/// `lru::LruCache`, whose insides Verus does not look at.
#[verifier::external_type_specification]
#[verifier::external_body]
#[verifier::reject_recursive_types(K)]
#[verifier::reject_recursive_types(V)]
#[verifier::reject_recursive_types(S)]
pub struct ExLruCache<K, V, S>(::lru::LruCache<K, V, S>);

/// `lru::DefaultHasher`, the hasher an `LruCache` is built with when
/// none is named. It is only carried along.
#[verifier::external_type_specification]
#[verifier::external_body]
pub struct ExLruHasher(::lru::DefaultHasher);

/// The entries of an `LruCache`, the least recently used first.
pub uninterp spec fn lru_entries(cache: ::lru::LruCache<usize, usize>) -> Seq<(usize, usize)>;

/// The number of entries an `LruCache` was made to hold.
pub uninterp spec fn lru_cap(cache: ::lru::LruCache<usize, usize>) -> nat;

/// Whether some entry of `s` has the key `key`.
pub open spec fn has_key(s: Seq<(usize, usize)>, key: usize) -> bool {
    exists|i: int| 0 <= i < s.len() && (#[trigger] s[i]).0 == key
}

/// The place of an entry of `s` with the key `key`.
pub open spec fn index_of_key(s: Seq<(usize, usize)>, key: usize) -> int {
    choose|i: int| 0 <= i < s.len() && (#[trigger] s[i]).0 == key
}

/// The value `s` holds under `key`.
pub open spec fn value_of(s: Seq<(usize, usize)>, key: usize) -> usize {
    s[index_of_key(s, key)].1
}

/// Whether no two entries of `s` have the same key.
pub open spec fn distinct_keys(s: Seq<(usize, usize)>) -> bool {
    forall|i: int, j: int| 0 <= i < j < s.len() ==> (#[trigger] s[i]).0 != (#[trigger] s[j]).0
}

/// `s` after the entry under `key` was used and given `value`: it is
/// now the most recently used.
pub open spec fn touched(s: Seq<(usize, usize)>, key: usize, value: usize) -> Seq<(usize, usize)> {
    s.remove(index_of_key(s, key)).push((key, value))
}

/// `s` after a lookup of `key`: an entry that is found becomes the
/// most recently used.
pub open spec fn after_get(s: Seq<(usize, usize)>, key: usize) -> Seq<(usize, usize)> {
    if has_key(s, key) {
        touched(s, key, value_of(s, key))
    } else {
        s
    }
}

/// `s` after `key` was put with `value` into a cache made for `cap`
/// entries: an entry under `key` is updated and used; a new entry
/// takes the place of the least recently used when the cache is
/// full, and is dropped when the cache holds nothing at all.
pub open spec fn after_put(s: Seq<(usize, usize)>, cap: nat, key: usize, value: usize) -> Seq<
    (usize, usize),
> {
    if has_key(s, key) {
        touched(s, key, value)
    } else if cap == 0 {
        s
    } else if s.len() == cap {
        s.drop_first().push((key, value))
    } else {
        s.push((key, value))
    }
}

/// `s` after its least recently used entry was taken out.
pub open spec fn after_pop(s: Seq<(usize, usize)>) -> Seq<(usize, usize)> {
    if s.len() > 0 {
        s.drop_first()
    } else {
        s
    }
}

/// The most entries a cache can be made for: a table for more could
/// not be laid out in memory.
pub const MAX_ENTRIES: usize = usize::MAX / 64;

/// `LruCache::new`: an empty cache made for `cap` entries. It lays
/// out a table for that many entries at once, and panics where the
/// size of the table in bytes cannot be counted on the machine; up
/// to `MAX_ENTRIES` it can. Whether the machine has the memory is not
/// the contract's to say.
#[verifier::external_body]
fn lru_new(cap: usize) -> (cache: ::lru::LruCache<usize, usize>)
    requires
        cap <= MAX_ENTRIES,
    ensures
        lru_entries(cache) == Seq::<(usize, usize)>::empty(),
        lru_cap(cache) == cap,
{
    ::lru::LruCache::new(cap)
}

/// `LruCache::len`: the number of entries held.
#[verifier::external_body]
fn lru_len(cache: &::lru::LruCache<usize, usize>) -> (n: usize)
    ensures
        n == lru_entries(*cache).len(),
{
    cache.len()
}

/// `LruCache::cap`: the number of entries the cache was made for.
#[verifier::external_body]
fn lru_capacity(cache: &::lru::LruCache<usize, usize>) -> (n: usize)
    ensures
        n == lru_cap(*cache),
{
    cache.cap()
}

/// `LruCache::get`: the value under `key`, if there is one; the entry
/// found becomes the most recently used, and nothing else changes.
#[verifier::external_body]
fn lru_get(cache: &mut ::lru::LruCache<usize, usize>, key: &usize) -> (r: Option<usize>)
    ensures
        r == if has_key(lru_entries(*old(cache)), *key) {
            Some(value_of(lru_entries(*old(cache)), *key))
        } else {
            None
        },
        lru_entries(*final(cache)) == after_get(lru_entries(*old(cache)), *key),
        lru_cap(*final(cache)) == lru_cap(*old(cache)),
{
    cache.get(key).copied()
}

/// `LruCache::put`: puts `value` under `key` and makes the entry the
/// most recently used. Returns the value that was under `key`
/// before. A new key in a full cache takes the place of the least
/// recently used entry.
#[verifier::external_body]
fn lru_put(cache: &mut ::lru::LruCache<usize, usize>, key: usize, value: usize) -> (r: Option<
    usize,
>)
    ensures
        r == if has_key(lru_entries(*old(cache)), key) {
            Some(value_of(lru_entries(*old(cache)), key))
        } else {
            None
        },
        lru_entries(*final(cache)) == after_put(
            lru_entries(*old(cache)),
            lru_cap(*old(cache)),
            key,
            value,
        ),
        lru_cap(*final(cache)) == lru_cap(*old(cache)),
{
    cache.put(key, value)
}

/// `LruCache::pop_lru`: takes out the least recently used entry and
/// returns it, or returns `None` from an empty cache.
#[verifier::external_body]
fn lru_pop(cache: &mut ::lru::LruCache<usize, usize>) -> (r: Option<(usize, usize)>)
    ensures
        r == if lru_entries(*old(cache)).len() > 0 {
            Some(lru_entries(*old(cache))[0])
        } else {
            None
        },
        lru_entries(*final(cache)) == after_pop(lru_entries(*old(cache))),
        lru_cap(*final(cache)) == lru_cap(*old(cache)),
{
    cache.pop_lru()
}

/// Which buffer index each page number has, least recently used
/// first.
pub struct Lru {
    inner: ::lru::LruCache<usize, usize>,
}

impl Lru {
    /// The entries, each a key and its index, the least recently used
    /// first.
    pub closed spec fn entries(&self) -> Seq<(usize, usize)> {
        lru_entries(self.inner)
    }

    /// The number of entries the cache was made for.
    pub closed spec fn capacity(&self) -> nat {
        lru_cap(self.inner)
    }

    /// An empty cache made for `cap` entries. The table for the
    /// entries is laid out at once, so `cap` is held to what the
    /// machine can lay out.
    pub fn new(cap: usize) -> (lru: Lru)
        requires
            cap <= MAX_ENTRIES,
        ensures
            lru.entries() == Seq::<(usize, usize)>::empty(),
            lru.capacity() == cap,
    {
        Lru { inner: lru_new(cap) }
    }

    /// The number of entries held.
    pub fn len(&self) -> (n: usize)
        ensures
            n == self.entries().len(),
    {
        lru_len(&self.inner)
    }

    /// Marks `key` as just used. A key that is not held changes
    /// nothing.
    pub fn bump(&mut self, key: &usize)
        ensures
            final(self).entries() == after_get(old(self).entries(), *key),
            final(self).capacity() == old(self).capacity(),
    {
        let _ = lru_get(&mut self.inner, key);
    }

    /// Insert a new key and its index, if the cache is full this will
    /// return the least recently used index.
    ///
    /// A full cache first gives up its least recently used entry,
    /// whatever the key; then the key is put with its index.
    pub fn insert(&mut self, key: usize, index: usize) -> (least_used: Option<usize>)
        ensures
            final(self).capacity() == old(self).capacity(),
            ({
                let before = old(self).entries();
                let full = before.len() == old(self).capacity();
                &&& least_used == if full && before.len() > 0 {
                    Some(before[0].1)
                } else {
                    None
                }
                &&& final(self).entries() == after_put(
                    if full {
                        after_pop(before)
                    } else {
                        before
                    },
                    old(self).capacity(),
                    key,
                    index,
                )
            }),
    {
        let least_used_item = if lru_len(&self.inner) == lru_capacity(&self.inner) {
            lru_pop(&mut self.inner)
        } else {
            None
        };
        let _ = lru_put(&mut self.inner, key, index);
        match least_used_item {
            Some((_, index)) => Some(index),
            None => None,
        }
    }

    /// Pop the least recently used item
    pub fn pop_lru(&mut self) -> (r: Option<(usize, usize)>)
        ensures
            final(self).capacity() == old(self).capacity(),
            r == if old(self).entries().len() > 0 {
                Some(old(self).entries()[0])
            } else {
                None
            },
            final(self).entries() == after_pop(old(self).entries()),
    {
        lru_pop(&mut self.inner)
    }
}

} // verus!
