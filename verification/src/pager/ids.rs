//! Page identifiers and commit versions.

use vstd::prelude::*;
use vstd::std_specs::convert::FromSpecImpl;

verus! {

/// The slot of a page in the file: the page lives at byte offset
/// `id * PAGE_SIZE`.
#[derive(Debug, Clone, Copy, Hash, PartialEq, Eq, Structural)]
pub struct PhysicalPageId(pub usize);

/// The stable identity of a page, whatever slot its current version
/// occupies.
#[derive(Debug, Clone, Copy, Hash, PartialEq, Eq, Structural)]
pub struct LogicalPageId(pub usize);

/// A commit generation.
#[derive(Debug, Clone, Copy, PartialEq, Eq, Structural, PartialOrd, Ord)]
pub struct Version(pub u64);

/// The number that stands for "no page" in a page link.
pub const INVALID_PAGE: usize = usize::MAX;

impl PhysicalPageId {
    /// The reserved identifier that names no page.
    pub fn invalid() -> (id: PhysicalPageId)
        ensures
            id.0 == INVALID_PAGE,
    {
        PhysicalPageId(INVALID_PAGE)
    }

    /// Whether this is the reserved identifier that names no page.
    pub fn is_invalid(&self) -> (b: bool)
        ensures
            b == (self.0 == INVALID_PAGE),
    {
        self.0 == INVALID_PAGE
    }
}

impl From<LogicalPageId> for usize {
    fn from(t: LogicalPageId) -> (n: usize) {
        t.0
    }
}

impl FromSpecImpl<LogicalPageId> for usize {
    open spec fn obeys_from_spec() -> bool {
        true
    }

    open spec fn from_spec(t: LogicalPageId) -> usize {
        t.0
    }
}

impl From<usize> for LogicalPageId {
    fn from(t: usize) -> (id: LogicalPageId) {
        LogicalPageId(t)
    }
}

impl FromSpecImpl<usize> for LogicalPageId {
    open spec fn obeys_from_spec() -> bool {
        true
    }

    open spec fn from_spec(t: usize) -> LogicalPageId {
        LogicalPageId(t)
    }
}

impl<'a> From<&'a LogicalPageId> for LogicalPageId {
    fn from(t: &'a LogicalPageId) -> (id: LogicalPageId) {
        *t
    }
}

impl<'a> FromSpecImpl<&'a LogicalPageId> for LogicalPageId {
    open spec fn obeys_from_spec() -> bool {
        true
    }

    open spec fn from_spec(t: &'a LogicalPageId) -> LogicalPageId {
        *t
    }
}

} // verus!
