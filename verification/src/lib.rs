//! `treedb` is an on disk b-tree

pub mod error;
pub mod lru;
pub mod node;
pub mod page;
pub mod pager;
pub mod queue;
pub mod tree;

pub use error::Error;
