//! The pages a tree is stored in.

use vstd::prelude::*;

verus! {

/// The number of a page of the tree.
#[derive(Debug, Clone, Copy, PartialEq, Eq, Structural, Hash)]
pub struct PageId(pub u64);

/// A page of the tree in memory.
#[derive(Debug)]
pub struct Page {
    pub id: PageId,
    pub data: Vec<u8>,
    /// Whether the page has changed since it was last written out.
    pub dirty: bool,
}

/// What a node says of itself.
#[derive(Debug, Clone, Copy)]
pub struct NodeMetadata {
    pub is_leaf: bool,
    /// The number of keys the node holds.
    pub num_keys: u16,
    /// The page of the leaf that follows, for a leaf.
    pub next_leaf_pos: PageId,
}

/// A node of the tree in memory: keys in order and, in a leaf, the
/// value of each; in an inner node, the pages of the children between
/// the keys.
#[derive(Debug)]
pub struct Node<V> {
    pub metadata: NodeMetadata,
    pub keys: Vec<u64>,
    pub values: Vec<Option<V>>,
    pub children: Vec<PageId>,
}

/// Whether `keys` are in order, equal keys side by side.
pub open spec fn ordered(keys: Seq<u64>) -> bool {
    forall|i: int, j: int| 0 <= i < j < keys.len() ==> keys[i] <= keys[j]
}

/// Whether `at` is where the keys not below `key` begin.
pub open spec fn is_lower_rank(keys: Seq<u64>, key: u64, at: int) -> bool {
    &&& 0 <= at <= keys.len()
    &&& forall|i: int| 0 <= i < at ==> keys[i] < key
    &&& forall|i: int| at <= i < keys.len() ==> keys[i] >= key
}

/// Whether `at` is where the keys above `key` begin.
pub open spec fn is_upper_rank(keys: Seq<u64>, key: u64, at: int) -> bool {
    &&& 0 <= at <= keys.len()
    &&& forall|i: int| 0 <= i < at ==> keys[i] <= key
    &&& forall|i: int| at <= i < keys.len() ==> keys[i] > key
}

impl<V> Node<V> {
    /// The keys are in order, the node counts them, and a leaf holds
    /// one value for each.
    pub open spec fn wf(&self) -> bool {
        &&& ordered(self.keys@)
        &&& self.metadata.num_keys == self.keys@.len()
        &&& self.metadata.is_leaf ==> self.values@.len() == self.keys@.len()
    }

    /// An empty leaf.
    pub fn new_leaf() -> (node: Node<V>)
        ensures
            node.wf(),
            node.metadata == (NodeMetadata {
                is_leaf: true,
                num_keys: 0,
                next_leaf_pos: PageId(0),
            }),
            node.keys@.len() == 0,
            node.values@.len() == 0,
            node.children@.len() == 0,
    {
        Node {
            metadata: NodeMetadata { is_leaf: true, num_keys: 0, next_leaf_pos: PageId(0) },
            keys: Vec::new(),
            values: Vec::new(),
            children: Vec::new(),
        }
    }

    /// An empty inner node.
    pub fn new_internal() -> (node: Node<V>)
        ensures
            node.wf(),
            node.metadata == (NodeMetadata {
                is_leaf: false,
                num_keys: 0,
                next_leaf_pos: PageId(0),
            }),
            node.keys@.len() == 0,
            node.values@.len() == 0,
            node.children@.len() == 0,
    {
        Node {
            metadata: NodeMetadata { is_leaf: false, num_keys: 0, next_leaf_pos: PageId(0) },
            keys: Vec::new(),
            values: Vec::new(),
            children: Vec::new(),
        }
    }

    /// Where the keys not below `key` begin, found by halving.
    fn lower_rank(&self, key: u64) -> (at: usize)
        requires
            ordered(self.keys@),
        ensures
            is_lower_rank(self.keys@, key, at as int),
    {
        let mut low: usize = 0;
        let mut high: usize = self.keys.len();
        while low < high
            invariant
                low <= high <= self.keys@.len(),
                ordered(self.keys@),
                forall|i: int| 0 <= i < low ==> self.keys@[i] < key,
                forall|i: int| high <= i < self.keys@.len() ==> self.keys@[i] >= key,
            decreases high - low,
        {
            let mid: usize = low + (high - low) / 2;
            if self.keys[mid] < key {
                low = mid + 1;
            } else {
                high = mid;
            }
        }
        low
    }

    /// The child to go down to for `key`: the one behind the last key
    /// that is not above `key`.
    pub fn find_child(&self, key: &u64) -> (at: usize)
        requires
            self.wf(),
        ensures
            is_upper_rank(self.keys@, *key, at as int),
    {
        let mut low: usize = 0;
        let mut high: usize = self.keys.len();
        while low < high
            invariant
                low <= high <= self.keys@.len(),
                ordered(self.keys@),
                forall|i: int| 0 <= i < low ==> self.keys@[i] <= *key,
                forall|i: int| high <= i < self.keys@.len() ==> self.keys@[i] > *key,
            decreases high - low,
        {
            let mid: usize = low + (high - low) / 2;
            if self.keys[mid] <= *key {
                low = mid + 1;
            } else {
                high = mid;
            }
        }
        low
    }

    /// Puts `key` with `value` into a leaf, before the keys that are
    /// not below it. The node must have room in its count of keys.
    pub fn insert_into_leaf(&mut self, key: u64, value: V)
        requires
            old(self).wf(),
            old(self).metadata.is_leaf,
            old(self).keys@.len() < u16::MAX,
        ensures
            final(self).wf(),
            final(self).metadata == (NodeMetadata {
                num_keys: (old(self).metadata.num_keys + 1) as u16,
                ..old(self).metadata
            }),
            final(self).children == old(self).children,
            exists|at: int|
                {
                    &&& is_lower_rank(old(self).keys@, key, at)
                    &&& final(self).keys@ == old(self).keys@.insert(at, key)
                    &&& final(self).values@ == old(self).values@.insert(at, Some(value))
                },
    {
        let pos = self.lower_rank(key);
        self.keys.insert(pos, key);
        self.values.insert(pos, Some(value));
        self.metadata.num_keys = self.metadata.num_keys + 1;
        proof {
            let before = old(self).keys@;
            let after = self.keys@;
            assert forall|i: int, j: int| 0 <= i < j < after.len() implies after[i] <= after[j] by {
                if i < pos && j > pos {
                    assert(after[i] == before[i] && after[j] == before[j - 1]);
                } else if i > pos {
                    assert(after[i] == before[i - 1] && after[j] == before[j - 1]);
                } else if j < pos {
                    assert(after[i] == before[i] && after[j] == before[j]);
                }
            }
            assert(is_lower_rank(before, key, pos as int));
        }
    }
}

} // verus!
