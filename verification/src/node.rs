//! The nodes of the tree, as they are held in memory.

use vstd::prelude::*;

verus! {

/// A node of the tree.
#[derive(Debug)]
pub struct Node {
    pub kind: Data,
}

/// What a node holds.
#[derive(Debug)]
pub enum Data {
    Leaf(Leaf),
    Internal(Internal),
}

/// A leaf node: keys, and the value of each.
#[derive(Default, Debug)]
pub struct Leaf {
    keys: Vec<Vec<u8>>,
    values: Vec<Vec<u8>>,
}

/// An inner node: keys, and the pages of the children between them.
#[derive(Default, Debug)]
pub struct Internal {
    keys: Vec<Vec<u8>>,
    pointers: Vec<usize>,
}

} // verus!
