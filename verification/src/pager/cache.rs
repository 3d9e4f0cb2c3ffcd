//! A bounded first-in first-out cache, and what the pager asks of
//! any cache.
//!
//! The cache keeps its entries in the order they were inserted. When
//! it is full, inserting hands the oldest entry back to the caller, so
//! that whatever the entry owns can be used again. The pager knows a
//! cache only by the trait `CachePolicy`: which entry leaves is the
//! cache's own affair.

use std::collections::hash_map::Entry;
use std::collections::HashMap;
use std::collections::VecDeque;
use std::hash::Hash;
use vstd::prelude::*;
use vstd::std_specs::hash::{group_hash_axioms, obeys_key_model};

verus! {

/// What the pager asks of a cache of pages, whatever its policy of
/// replacement: to hold at most as many entries as it was made for,
/// and to hand back what it lets go.
pub trait CachePolicy<V>: Sized {
    /// The value held under each key.
    spec fn map(&self) -> Map<usize, V>;

    /// The number of entries held.
    spec fn count(&self) -> nat;

    /// The most entries the cache will hold.
    spec fn spec_capacity(&self) -> nat;

    /// The cache is sound.
    spec fn wf(&self) -> bool;

    /// A sound cache holds no more than its capacity, and counts no
    /// entries exactly when it holds none.
    proof fn lemma_count(&self)
        requires
            self.wf(),
        ensures
            self.count() <= self.spec_capacity(),
            self.count() == 0 <==> (forall|k: usize| !self.map().contains_key(k)),
    ;

    /// An empty cache that will hold up to `capacity` entries.
    fn with_capacity(capacity: usize) -> (cache: Self)
        ensures
            cache.wf(),
            cache.count() == 0,
            cache.spec_capacity() == capacity,
            cache.map() == Map::<usize, V>::empty(),
    ;

    /// The number of entries held.
    fn len(&self) -> (n: usize)
        requires
            self.wf(),
        ensures
            n == self.count(),
    ;

    /// Whether `key` is held.
    fn contains_key(&self, key: &usize) -> (b: bool)
        requires
            self.wf(),
        ensures
            b == self.map().contains_key(*key),
    ;

    /// Tells the cache that the entry under `key` was used. Nothing
    /// held changes; the cache may take note for its choice of what
    /// to evict.
    fn touch(&mut self, key: &usize)
        requires
            old(self).wf(),
        ensures
            final(self).wf(),
            final(self).map() == old(self).map(),
            final(self).count() == old(self).count(),
            final(self).spec_capacity() == old(self).spec_capacity(),
    ;

    /// The value held under `key`, if any.
    fn get(&self, key: &usize) -> (r: Option<&V>)
        requires
            self.wf(),
        ensures
            r.is_some() == self.map().contains_key(*key),
            r matches Some(v) ==> *v == self.map()[*key],
    ;

    /// Puts `val` in place of the value held under `key` and returns
    /// the old value. A key that is not held is left out, and `val`
    /// comes back.
    fn replace(&mut self, key: usize, val: V) -> (r: Result<V, V>)
        requires
            old(self).wf(),
        ensures
            final(self).wf(),
            final(self).count() == old(self).count(),
            final(self).spec_capacity() == old(self).spec_capacity(),
            match r {
                Ok(previous) => {
                    &&& old(self).map().contains_key(key)
                    &&& previous == old(self).map()[key]
                    &&& final(self).map() == old(self).map().insert(key, val)
                },
                Err(given) => {
                    &&& !old(self).map().contains_key(key)
                    &&& given == val
                    &&& final(self).map() == old(self).map()
                },
            },
    ;

    /// Inserts a new entry. A cache that is full lets one entry go
    /// and hands it back; unless the cache was made to hold nothing,
    /// that is never the entry just inserted.
    fn insert(&mut self, key: usize, val: V) -> (evicted: Option<(usize, V)>)
        requires
            old(self).wf(),
            !old(self).map().contains_key(key),
        ensures
            final(self).wf(),
            final(self).spec_capacity() == old(self).spec_capacity(),
            match evicted {
                Some((k, v)) => {
                    &&& old(self).count() >= old(self).spec_capacity()
                    &&& old(self).spec_capacity() > 0 ==> k != key
                    &&& old(self).map().insert(key, val).contains_key(k)
                    &&& v == old(self).map().insert(key, val)[k]
                    &&& final(self).map() == old(self).map().insert(key, val).remove(k)
                    &&& final(self).count() == old(self).count()
                },
                None => {
                    &&& old(self).count() < old(self).spec_capacity()
                    &&& final(self).map() == old(self).map().insert(key, val)
                    &&& final(self).count() == old(self).count() + 1
                },
            },
    ;

    /// Lets one entry go and hands it back; `None` when the cache is
    /// empty.
    fn evict(&mut self) -> (evicted: Option<(usize, V)>)
        requires
            old(self).wf(),
        ensures
            final(self).wf(),
            final(self).spec_capacity() == old(self).spec_capacity(),
            match evicted {
                Some((k, v)) => {
                    &&& old(self).map().contains_key(k)
                    &&& v == old(self).map()[k]
                    &&& final(self).map() == old(self).map().remove(k)
                    &&& final(self).count() == old(self).count() - 1
                },
                None => {
                    &&& old(self).count() == 0
                    &&& final(self).map() == old(self).map()
                    &&& final(self).count() == 0
                },
            },
    ;
}

/// A cache of at most `capacity` entries, evicted oldest first.
pub struct Cache<K: Hash + Eq + Copy, V> {
    index: HashMap<K, V>,
    order: VecDeque<K>,
    capacity: usize,
}

impl<K: Hash + Eq + Copy, V> Cache<K, V> {
    /// The keys held, oldest first.
    pub closed spec fn keys(&self) -> Seq<K> {
        self.order@
    }

    /// The value held under each key.
    pub closed spec fn map(&self) -> Map<K, V> {
        self.index@
    }

    /// The most entries the cache will hold.
    pub closed spec fn spec_capacity(&self) -> nat {
        self.capacity as nat
    }

    /// The entries held, oldest first.
    pub open spec fn entries(&self) -> Seq<(K, V)> {
        Seq::new(self.keys().len(), |i: int| (self.keys()[i], self.map()[self.keys()[i]]))
    }

    /// No key is held twice, the keys are exactly those that have a
    /// value, and the cache holds no more than its capacity.
    pub closed spec fn wf(&self) -> bool {
        &&& obeys_key_model::<K>()
        &&& self.order@.no_duplicates()
        &&& forall|k: K| self.index@.contains_key(k) <==> self.order@.contains(k)
        &&& self.order@.len() <= self.capacity
    }

    /// What `wf` says of the keys and the capacity.
    pub proof fn lemma_wf(&self)
        requires
            self.wf(),
        ensures
            self.keys().no_duplicates(),
            forall|k: K| self.map().contains_key(k) <==> self.keys().contains(k),
            self.keys().len() <= self.spec_capacity(),
            self.entries().len() == self.keys().len(),
    {
    }

    /// An empty cache that will hold up to `capacity` entries.
    pub fn new(capacity: usize) -> (cache: Cache<K, V>)
        requires
            obeys_key_model::<K>(),
        ensures
            cache.wf(),
            cache.keys() == Seq::<K>::empty(),
            cache.map() == Map::<K, V>::empty(),
            cache.spec_capacity() == capacity,
    {
        Cache { index: HashMap::new(), order: VecDeque::new(), capacity }
    }

    /// The most entries the cache will hold.
    pub fn capacity(&self) -> (n: usize)
        ensures
            n == self.spec_capacity(),
    {
        self.capacity
    }

    /// The number of entries held.
    pub fn len(&self) -> (n: usize)
        ensures
            n == self.keys().len(),
    {
        self.order.len()
    }

    /// Whether `key` is held.
    pub fn contains_key(&self, key: &K) -> (b: bool)
        requires
            self.wf(),
        ensures
            b == self.map().contains_key(*key),
    {
        broadcast use group_hash_axioms;

        self.index.contains_key(key)
    }

    /// The value held under `key`, if any.
    pub fn get(&self, key: &K) -> (r: Option<&V>)
        requires
            self.wf(),
        ensures
            r.is_some() == self.map().contains_key(*key),
            r matches Some(v) ==> *v == self.map()[*key],
    {
        broadcast use group_hash_axioms;

        self.index.get(key)
    }

    /// A writable reference to the value held under `key`, if any.
    /// The entry keeps its place in the eviction order.
    pub fn get_mut(&mut self, key: &K) -> (r: Option<&mut V>)
        requires
            old(self).wf(),
        ensures
            final(self).wf(),
            final(self).keys() == old(self).keys(),
            final(self).spec_capacity() == old(self).spec_capacity(),
            r.is_some() == old(self).map().contains_key(*key),
            r.is_some() ==> *r.unwrap() == old(self).map()[*key] && final(self).map() ==
                old(self).map().insert(*key, *final(r.unwrap())),
            r.is_none() ==> final(self).map() == old(self).map(),
    {
        broadcast use group_hash_axioms;

        match self.index.entry(*key) {
            Entry::Occupied(held) => Some(held.into_mut()),
            Entry::Vacant(_) => None,
        }
    }

    /// Puts `val` in place of the value held under `key` and returns
    /// the old value. The entry keeps its place in the eviction order.
    /// A key that is not held is left out, and `val` comes back.
    pub fn replace(&mut self, key: K, val: V) -> (r: Result<V, V>)
        requires
            old(self).wf(),
        ensures
            final(self).wf(),
            final(self).keys() == old(self).keys(),
            final(self).spec_capacity() == old(self).spec_capacity(),
            match r {
                Ok(previous) => {
                    &&& old(self).map().contains_key(key)
                    &&& previous == old(self).map()[key]
                    &&& final(self).map() == old(self).map().insert(key, val)
                },
                Err(given) => {
                    &&& !old(self).map().contains_key(key)
                    &&& given == val
                    &&& final(self).map() == old(self).map()
                },
            },
    {
        broadcast use group_hash_axioms;

        match self.index.remove(&key) {
            Some(previous) => {
                self.index.insert(key, val);
                Ok(previous)
            },
            None => {
                Err(val)
            },
        }
    }

    /// Inserts a new entry as the youngest. If that overfills the
    /// cache, the oldest entry is removed and handed back.
    pub fn insert(&mut self, key: K, val: V) -> (evicted: Option<(K, V)>)
        requires
            old(self).wf(),
            !old(self).map().contains_key(key),
        ensures
            final(self).wf(),
            final(self).spec_capacity() == old(self).spec_capacity(),
            ({
                let keys = old(self).keys().push(key);
                let map = old(self).map().insert(key, val);
                if keys.len() > old(self).spec_capacity() {
                    &&& evicted == Some((keys[0], map[keys[0]]))
                    &&& final(self).keys() == keys.drop_first()
                    &&& final(self).map() == map.remove(keys[0])
                } else {
                    &&& evicted.is_none()
                    &&& final(self).keys() == keys
                    &&& final(self).map() == map
                }
            }),
    {
        broadcast use group_hash_axioms;

        self.order.push_back(key);
        self.index.insert(key, val);
        proof {
            let keys = self.order@;
            assert(keys.drop_last() =~= old(self).order@);
            assert(keys.no_duplicates()) by {
                assert forall|i: int, j: int| 0 <= i < keys.len() && 0 <= j < keys.len() && i != j
                    implies keys[i] != keys[j] by {
                    if i == keys.len() - 1 {
                        assert(old(self).order@.contains(keys[j]));
                    } else if j == keys.len() - 1 {
                        assert(old(self).order@.contains(keys[i]));
                    }
                }
            }
            assert forall|k: K| self.index@.contains_key(k) <==> keys.contains(k) by {
                if k == key {
                    assert(keys[keys.len() - 1] == key);
                } else {
                    if old(self).order@.contains(k) {
                        let i = choose|i: int|
                            0 <= i < old(self).order@.len() && old(self).order@[i] == k;
                        assert(keys[i] == k);
                    }
                }
            }
        }
        if self.order.len() > self.capacity {
            let evicted = self.take_oldest();
            evicted
        } else {
            None
        }
    }

    /// Removes the oldest entry and returns it; `None` when the cache
    /// is empty.
    pub fn evict(&mut self) -> (evicted: Option<(K, V)>)
        requires
            old(self).wf(),
        ensures
            final(self).wf(),
            final(self).spec_capacity() == old(self).spec_capacity(),
            old(self).keys().len() == 0 ==> evicted.is_none() && final(self).keys() ==
                old(self).keys() && final(self).map() == old(self).map(),
            old(self).keys().len() > 0 ==> {
                &&& evicted == Some((old(self).keys()[0], old(self).map()[old(self).keys()[0]]))
                &&& final(self).keys() == old(self).keys().drop_first()
                &&& final(self).map() == old(self).map().remove(old(self).keys()[0])
            },
    {
        self.take_oldest()
    }

    /// `evict`, for a cache that may hold one entry more than its
    /// capacity.
    fn take_oldest(&mut self) -> (evicted: Option<(K, V)>)
        requires
            obeys_key_model::<K>(),
            old(self).order@.no_duplicates(),
            forall|k: K| old(self).index@.contains_key(k) <==> old(self).order@.contains(k),
            old(self).order@.len() <= old(self).capacity + 1,
        ensures
            final(self).capacity == old(self).capacity,
            old(self).order@.len() == 0 ==> evicted.is_none() && final(self).order@ ==
                old(self).order@ && final(self).index@ == old(self).index@,
            old(self).order@.len() > 0 ==> {
                &&& evicted == Some((old(self).order@[0], old(self).index@[old(self).order@[0]]))
                &&& final(self).order@ == old(self).order@.drop_first()
                &&& final(self).index@ == old(self).index@.remove(old(self).order@[0])
                &&& final(self).wf()
            },
            old(self).order@.len() <= old(self).capacity ==> final(self).wf(),
    {
        broadcast use group_hash_axioms;

        match self.order.pop_front() {
            None => None,
            Some(key) => {
                let ghost before = old(self).order@;
                assert(before.contains(key));
                let removed = self.index.remove(&key);
                proof {
                    let keys = self.order@;
                    assert(keys.no_duplicates());
                    assert forall|k: K| self.index@.contains_key(k) <==> keys.contains(k) by {
                        if keys.contains(k) {
                            let i = choose|i: int| 0 <= i < keys.len() && keys[i] == k;
                            assert(before[i + 1] == k);
                            assert(before.contains(k));
                        }
                        if self.index@.contains_key(k) {
                            assert(before.contains(k));
                            let i = choose|i: int| 0 <= i < before.len() && before[i] == k;
                            assert(keys[i - 1] == k);
                        }
                    }
                }
                match removed {
                    Some(val) => Some((key, val)),
                    None => None,
                }
            },
        }
    }
}

/// The first-in first-out cache is a cache the pager can use: what it
/// lets go is always its oldest entry.
impl<V> CachePolicy<V> for Cache<usize, V> {
    closed spec fn map(&self) -> Map<usize, V> {
        self.index@
    }

    closed spec fn count(&self) -> nat {
        self.order@.len()
    }

    closed spec fn spec_capacity(&self) -> nat {
        self.capacity as nat
    }

    closed spec fn wf(&self) -> bool {
        Cache::wf(self)
    }

    proof fn lemma_count(&self) {
        if self.order@.len() > 0 {
            assert(self.order@.contains(self.order@[0]));
            assert(self.index@.contains_key(self.order@[0]));
            assert(CachePolicy::map(self).contains_key(self.order@[0]));
        }
        assert forall|k: usize| self.index@.contains_key(k) implies self.order@.len() > 0 by {
            assert(self.order@.contains(k));
        }
    }

    fn with_capacity(capacity: usize) -> (cache: Self) {
        broadcast use group_hash_axioms;

        Cache::new(capacity)
    }

    fn len(&self) -> (n: usize) {
        Cache::len(self)
    }

    fn contains_key(&self, key: &usize) -> (b: bool) {
        Cache::contains_key(self, key)
    }

    fn touch(&mut self, key: &usize) {
    }

    fn get(&self, key: &usize) -> (r: Option<&V>) {
        Cache::get(self, key)
    }

    fn replace(&mut self, key: usize, val: V) -> (r: Result<V, V>) {
        Cache::replace(self, key, val)
    }

    fn insert(&mut self, key: usize, val: V) -> (evicted: Option<(usize, V)>) {
        let ghost keys = self.order@.push(key);
        proof {
            if self.order@.len() > 0 {
                assert(self.order@.contains(self.order@[0]));
                assert(keys[0] == self.order@[0]);
            }
        }
        Cache::insert(self, key, val)
    }

    fn evict(&mut self) -> (evicted: Option<(usize, V)>) {
        proof {
            if self.order@.len() > 0 {
                assert(self.order@.contains(self.order@[0]));
            }
        }
        Cache::evict(self)
    }
}

} // verus!
