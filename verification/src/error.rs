//! The error type shared by every fallible operation.

use vstd::prelude::*;
use vstd::std_specs::convert::FromSpecImpl;
use crate::pager::ids::{LogicalPageId, Version};

verus! {

/// `std::io::Error`, carried through unread: it says why the file
/// refused a read, a write or a sync.
#[verifier::external_type_specification]
#[verifier::external_body]
pub struct ExIoError(std::io::Error);

/// Why an operation did not complete.
#[derive(Debug)]
pub enum Error {
    /// The file failed; the operation in flight is lost.
    Io(std::io::Error),
    /// A page was named that has not been allocated.
    IndexOutofBounds(LogicalPageId),
    /// Bytes do not decode: a header, a queue page or a leaf is
    /// damaged or was written in another format.
    Serialization,
    /// No page buffer is free and the page the cache would let go is
    /// still held by a reader. Dropping readers and trying again can
    /// succeed.
    Busy,
    /// A version outside the window from the oldest version kept to
    /// the version being built.
    VersionOutOfRange(Version),
    /// The page already has a mapping recorded at this version.
    VersionExists(LogicalPageId, Version),
}

impl From<std::io::Error> for Error {
    /// An error of the file is an `Io` error of the pager.
    fn from(e: std::io::Error) -> (error: Error) {
        Error::Io(e)
    }
}

impl FromSpecImpl<std::io::Error> for Error {
    open spec fn obeys_from_spec() -> bool {
        true
    }

    open spec fn from_spec(e: std::io::Error) -> Error {
        Error::Io(e)
    }
}

} // verus!
