//! The version table: for each logical page, which physical page holds
//! it from which version on.
//!
//! A page that was never remapped lives in the slot of its own number.
//! Each copy-on-write update records, under the version it was made
//! for, the slot that holds the new contents. Reading a page at a
//! version takes the newest mapping that is not newer than the
//! version.

use std::collections::HashMap;
use vstd::prelude::*;
use vstd::std_specs::hash::group_hash_axioms;
use crate::pager::ids::{LogicalPageId, PhysicalPageId, Version};

verus! {

/// Whether `w` is the newest version recorded in `m` that is not newer
/// than `version`.
pub open spec fn is_floor(m: Map<u64, usize>, version: u64, w: u64) -> bool {
    &&& m.contains_key(w)
    &&& w <= version
    &&& forall|x: u64| m.contains_key(x) && x <= version ==> x <= w
}

/// The slot that holds page `id` at `version`, given the mappings `m`
/// recorded for the page: the slot recorded under the newest version
/// not newer than `version`, and the page's own number when there is
/// none.
pub open spec fn resolve(m: Map<u64, usize>, id: usize, version: u64) -> usize {
    if exists|w: u64| is_floor(m, version, w) {
        m[choose|w: u64| is_floor(m, version, w)]
    } else {
        id
    }
}

/// A version has at most one floor.
pub proof fn lemma_floor_unique(m: Map<u64, usize>, version: u64, w1: u64, w2: u64)
    requires
        is_floor(m, version, w1),
        is_floor(m, version, w2),
    ensures
        w1 == w2,
{
}

/// Resolution between two recorded versions: if `recorded` has a
/// mapping and no newer mapping exists up to `version`, then every
/// read at `version` sees the slot recorded under `recorded`.
pub proof fn lemma_resolve_between(m: Map<u64, usize>, id: usize, recorded: u64, version: u64)
    requires
        m.contains_key(recorded),
        recorded <= version,
        forall|x: u64| m.contains_key(x) && x <= version ==> x <= recorded,
    ensures
        resolve(m, id, version) == m[recorded],
{
    assert(is_floor(m, version, recorded));
    let w = choose|w: u64| is_floor(m, version, w);
    lemma_floor_unique(m, version, w, recorded);
}

/// Resolution before the first recorded version: a read older than
/// every mapping sees the page's own slot.
pub proof fn lemma_resolve_identity(m: Map<u64, usize>, id: usize, version: u64)
    requires
        forall|x: u64| m.contains_key(x) ==> x > version,
    ensures
        resolve(m, id, version) == id,
{
}

/// Recording a mapping at `added` leaves every read at an older
/// version as it was.
pub proof fn lemma_resolve_older(
    m: Map<u64, usize>,
    id: usize,
    added: u64,
    slot: usize,
    version: u64,
)
    requires
        version < added,
    ensures
        resolve(m.insert(added, slot), id, version) == resolve(m, id, version),
{
    let n = m.insert(added, slot);
    assert forall|w: u64| is_floor(n, version, w) <==> is_floor(m, version, w) by {
        if is_floor(n, version, w) {
            assert forall|x: u64| m.contains_key(x) && x <= version implies x <= w by {
                assert(n.contains_key(x));
            }
        }
    }
    if exists|w: u64| is_floor(m, version, w) {
        let w = choose|w: u64| is_floor(m, version, w);
        let w2 = choose|w: u64| is_floor(n, version, w);
        lemma_floor_unique(n, version, w, w2);
    }
}

/// The mappings that a sorted list of `(version, slot)` pairs spells.
pub open spec fn pairs_map(s: Seq<(u64, usize)>) -> Map<u64, usize> {
    Map::new(
        |v: u64| exists|i: int| 0 <= i < s.len() && #[trigger] s[i].0 == v,
        |v: u64| s[choose|i: int| 0 <= i < s.len() && #[trigger] s[i].0 == v].1,
    )
}

/// Whether the pairs are in strictly ascending order of version.
pub open spec fn ascending(s: Seq<(u64, usize)>) -> bool {
    forall|i: int, j: int| 0 <= i < j < s.len() ==> #[trigger] s[i].0 < #[trigger] s[j].0
}

proof fn lemma_pairs_map_at(s: Seq<(u64, usize)>, i: int)
    requires
        ascending(s),
        0 <= i < s.len(),
    ensures
        pairs_map(s).contains_key(s[i].0),
        pairs_map(s)[s[i].0] == s[i].1,
{
}

proof fn lemma_pairs_map_insert(s: Seq<(u64, usize)>, at: int, version: u64, slot: usize)
    requires
        ascending(s),
        0 <= at <= s.len(),
        forall|i: int| 0 <= i < at ==> #[trigger] s[i].0 < version,
        forall|i: int| at <= i < s.len() ==> #[trigger] s[i].0 > version,
    ensures
        ascending(s.insert(at, (version, slot))),
        pairs_map(s.insert(at, (version, slot))) == pairs_map(s).insert(version, slot),
{
    let t = s.insert(at, (version, slot));
    assert(ascending(t));
    let a = pairs_map(t);
    let b = pairs_map(s).insert(version, slot);
    assert forall|v: u64| a.contains_key(v) <==> b.contains_key(v) by {
        if b.contains_key(v) && v != version {
            let i = choose|i: int| 0 <= i < s.len() && #[trigger] s[i].0 == v;
            if i < at {
                assert(t[i].0 == v);
            } else {
                assert(t[i + 1].0 == v);
            }
        }
        if v == version {
            assert(t[at].0 == v);
        }
    }
    assert forall|v: u64| a.contains_key(v) implies a[v] == b[v] by {
        let i = choose|i: int| 0 <= i < t.len() && #[trigger] t[i].0 == v;
        lemma_pairs_map_at(t, i);
        if i < at {
            lemma_pairs_map_at(s, i);
        } else if i > at {
            lemma_pairs_map_at(s, i - 1);
        }
    }
}

/// The mappings recorded for one logical page, by version.
#[derive(Debug)]
pub struct VersionMap {
    entries: Vec<(u64, usize)>,
}

impl VersionMap {
    /// The slot recorded under each version.
    pub closed spec fn view(&self) -> Map<u64, usize> {
        pairs_map(self.entries@)
    }

    /// The mappings are kept in ascending order of version.
    pub closed spec fn wf(&self) -> bool {
        ascending(self.entries@)
    }

    /// No mappings.
    pub fn new() -> (m: VersionMap)
        ensures
            m.wf(),
            m@ == Map::<u64, usize>::empty(),
    {
        let m = VersionMap { entries: Vec::new() };
        m
    }

    /// How many of the mappings are at `version` or older. The list is
    /// halved at each step.
    fn upper_bound(&self, version: u64) -> (n: usize)
        requires
            self.wf(),
        ensures
            n <= self.entries@.len(),
            forall|i: int| 0 <= i < n ==> (#[trigger] self.entries@[i]).0 <= version,
            forall|i: int| n <= i < self.entries@.len() ==> (#[trigger] self.entries@[i]).0 > version,
    {
        let mut lo: usize = 0;
        let mut hi: usize = self.entries.len();
        while lo < hi
            invariant
                self.wf(),
                lo <= hi <= self.entries@.len(),
                forall|i: int| 0 <= i < lo ==> (#[trigger] self.entries@[i]).0 <= version,
                forall|i: int|
                    hi <= i < self.entries@.len() ==> (#[trigger] self.entries@[i]).0 > version,
            decreases hi - lo,
        {
            let mid: usize = lo + (hi - lo) / 2;
            if self.entries[mid].0 <= version {
                lo = mid + 1;
            } else {
                hi = mid;
            }
        }
        lo
    }

    /// The slot that holds page `id` at `version`.
    pub fn resolve(&self, id: usize, version: u64) -> (slot: usize)
        requires
            self.wf(),
        ensures
            slot == resolve(self@, id, version),
    {
        let n: usize = self.upper_bound(version);
        if n == 0 {
            id
        } else {
            let found: (u64, usize) = self.entries[n - 1];
            proof {
                lemma_pairs_map_at(self.entries@, n - 1);
                lemma_resolve_between(self@, id, found.0, version);
            }
            found.1
        }
    }

    /// Records that from `version` on the page lives in `slot`. A
    /// version that already has a mapping keeps it: nothing changes
    /// and the answer is `false`.
    pub fn insert(&mut self, version: u64, slot: usize) -> (added: bool)
        requires
            old(self).wf(),
        ensures
            final(self).wf(),
            added == !old(self)@.contains_key(version),
            added ==> final(self)@ == old(self)@.insert(version, slot),
            !added ==> final(self)@ == old(self)@,
    {
        let n: usize = self.upper_bound(version);
        if n > 0 && self.entries[n - 1].0 == version {
            proof {
                lemma_pairs_map_at(self.entries@, n - 1);
            }
            return false;
        }
        proof {
            let s = self.entries@;
            assert(!self@.contains_key(version));
            lemma_pairs_map_insert(s, n as int, version, slot);
        }
        self.entries.insert(n, (version, slot));
        true
    }
}

/// The version table of a pager.
pub struct PageTable {
    maps: HashMap<usize, VersionMap>,
}

impl PageTable {
    /// The mappings recorded for page `id`, by version; none for a
    /// page that was never remapped.
    pub closed spec fn versions(&self, id: usize) -> Map<u64, usize> {
        if self.maps@.contains_key(id) {
            self.maps@[id]@
        } else {
            Map::empty()
        }
    }

    /// Every page's mappings are in order.
    pub closed spec fn wf(&self) -> bool {
        forall|id: usize| self.maps@.contains_key(id) ==> (#[trigger] self.maps@[id]).wf()
    }

    /// The slot that holds page `id` at `version`.
    pub open spec fn slot_of(&self, id: usize, version: u64) -> usize {
        resolve(self.versions(id), id, version)
    }

    /// A table with no mappings: every page lives in its own slot.
    pub fn new() -> (table: PageTable)
        ensures
            table.wf(),
            forall|id: usize| table.versions(id) == Map::<u64, usize>::empty(),
    {
        PageTable { maps: HashMap::new() }
    }

    /// The slot that holds page `id` at `version`: the slot recorded
    /// under the newest version not newer than `version`, and the
    /// page's own number when there is none.
    pub fn get_physical_page_id(&self, id: LogicalPageId, version: Version) -> (slot:
        PhysicalPageId)
        requires
            self.wf(),
        ensures
            slot.0 == self.slot_of(id.0, version.0),
    {
        broadcast use group_hash_axioms;

        match self.maps.get(&id.0) {
            Some(versions) => PhysicalPageId(versions.resolve(id.0, version.0)),
            None => PhysicalPageId(id.0),
        }
    }

    /// Whether page `id` has a mapping recorded at `version`.
    pub fn is_recorded(&self, id: LogicalPageId, version: Version) -> (b: bool)
        requires
            self.wf(),
        ensures
            b == self.versions(id.0).contains_key(version.0),
    {
        broadcast use group_hash_axioms;

        match self.maps.get(&id.0) {
            Some(versions) => {
                let n: usize = versions.upper_bound(version.0);
                if n > 0 && versions.entries[n - 1].0 == version.0 {
                    proof {
                        lemma_pairs_map_at(versions.entries@, n - 1);
                    }
                    true
                } else {
                    false
                }
            },
            None => false,
        }
    }

    /// Records that from `version` on page `id` lives in `slot`. A
    /// mapping is written once: if `id` already has one at `version`,
    /// nothing changes and the answer is `false`.
    pub fn record(&mut self, id: LogicalPageId, version: Version, slot: PhysicalPageId) -> (added:
        bool)
        requires
            old(self).wf(),
        ensures
            final(self).wf(),
            added == !old(self).versions(id.0).contains_key(version.0),
            added ==> final(self).versions(id.0) == old(self).versions(id.0).insert(
                version.0,
                slot.0,
            ),
            !added ==> final(self).versions(id.0) == old(self).versions(id.0),
            forall|other: usize|
                other != id.0 ==> final(self).versions(other) == old(self).versions(other),
    {
        broadcast use group_hash_axioms;

        let mut versions = match self.maps.remove(&id.0) {
            Some(versions) => versions,
            None => VersionMap::new(),
        };
        let added = versions.insert(version.0, slot.0);
        self.maps.insert(id.0, versions);
        added
    }
}

} // verus!
