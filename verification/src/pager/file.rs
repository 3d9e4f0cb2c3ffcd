//! The file under the pager, and what its bytes mean as pages.
//!
//! A file is a finite run of bytes. Past its end it reads as nothing,
//! and a write past its end fills the gap with zero bytes; so every
//! page slot has contents, zero where the file does not reach.

use vstd::prelude::*;
use crate::error::Error;
use crate::pager::page::PAGE_SIZE;

verus! {

/// The byte at position `i` of a file, zero past the end.
pub open spec fn file_byte(contents: Seq<u8>, i: int) -> u8 {
    if 0 <= i < contents.len() {
        contents[i]
    } else {
        0
    }
}

/// The `PAGE_SIZE` bytes of page slot `slot`.
pub open spec fn page_at(contents: Seq<u8>, slot: int) -> Seq<u8> {
    Seq::new(PAGE_SIZE as nat, |i: int| file_byte(contents, slot * PAGE_SIZE + i))
}

/// The file after `bytes` were written at `offset`: it grows to hold
/// them, and a gap between the old end and `offset` is zero.
pub open spec fn written(contents: Seq<u8>, offset: int, bytes: Seq<u8>) -> Seq<u8> {
    let end = offset + bytes.len();
    let len = if contents.len() >= end {
        contents.len() as int
    } else {
        end
    };
    Seq::new(
        len as nat,
        |i: int|
            if offset <= i < end {
                bytes[i - offset]
            } else {
                file_byte(contents, i)
            },
    )
}

/// How many bytes a read of `want` bytes at `offset` yields: all of
/// them, or as many as the file has left.
pub open spec fn read_count(contents: Seq<u8>, offset: int, want: int) -> int {
    let left = if contents.len() > offset {
        contents.len() - offset
    } else {
        0
    };
    if want <= left {
        want
    } else {
        left
    }
}

/// A page written to a slot is what the slot then holds.
pub proof fn lemma_written_page(contents: Seq<u8>, slot: int, page: Seq<u8>)
    requires
        slot >= 0,
        page.len() == PAGE_SIZE,
    ensures
        page_at(written(contents, slot * PAGE_SIZE, page), slot) == page,
{
}

/// A page written to one slot leaves every other slot as it was.
pub proof fn lemma_written_elsewhere(contents: Seq<u8>, slot: int, page: Seq<u8>, other: int)
    requires
        slot >= 0,
        other >= 0,
        other != slot,
        page.len() == PAGE_SIZE,
    ensures
        page_at(written(contents, slot * PAGE_SIZE, page), other) == page_at(contents, other),
{
}

/// A file the pager can live on.
///
/// The contracts are the pager's assumptions about the file. Every
/// proof about pages rests on them, and they are checked for no
/// implementation but those in this crate: an implementation must
/// transfer whole buffers, coming back short only where a read meets
/// the end of the file, and must report its failures as `Error::Io`.
///
/// `contents`, `durable` and `reliable` have bodies so that a file
/// written in ordinary Rust can implement the trait and leave them
/// out: of such a file nothing is known but what the contracts say,
/// and it is not taken to be reliable.
pub trait File {
    /// The bytes of the file. An implementation that is verified
    /// says here what its bytes are; for any other, the bytes are
    /// whatever makes the contracts below true.
    open spec fn contents(&self) -> Seq<u8> {
        vstd::pervasive::arbitrary()
    }

    /// The length of the file in bytes.
    fn len(&self) -> (r: Result<usize, Error>)
        ensures
            r matches Ok(n) ==> n == self.contents().len(),
            r matches Err(e) ==> e is Io,
            self.reliable() ==> r.is_ok(),
    ;

    /// Reads into `buf` the bytes from `offset` on, as many as `buf`
    /// holds or the file has left, and says how many. The rest of
    /// `buf` stays as it was.
    fn read_at(&self, buf: &mut [u8], offset: u64) -> (r: Result<usize, Error>)
        ensures
            final(buf)@.len() == old(buf)@.len(),
            r matches Ok(n) ==> {
                &&& n == read_count(self.contents(), offset as int, old(buf)@.len() as int)
                &&& forall|i: int| 0 <= i < n ==> final(buf)@[i] == self.contents()[offset + i]
                &&& forall|i: int| n <= i < old(buf)@.len() ==> final(buf)@[i] == old(buf)@[i]
            },
            r matches Err(e) ==> e is Io,
            self.reliable() ==> r.is_ok(),
    ;

    /// Writes all of `buf` at `offset`.
    fn write_at(&mut self, buf: &[u8], offset: u64) -> (r: Result<usize, Error>)
        ensures
            r matches Ok(n) ==> {
                &&& n == buf@.len()
                &&& final(self).contents() == written(old(self).contents(), offset as int, buf@)
            },
            r matches Err(e) ==> e is Io,
            final(self).reliable() == old(self).reliable(),
            old(self).reliable() && offset + buf@.len() <= usize::MAX ==> r.is_ok(),
    ;

    /// Forces what was written down to the device. The bytes of the
    /// file are the same before and after; when the call succeeds,
    /// all of them are safe on the device.
    fn sync_data(&mut self) -> (r: Result<(), Error>)
        ensures
            final(self).contents() == old(self).contents(),
            r.is_ok() ==> final(self).durable() == final(self).contents(),
            r matches Err(e) ==> e is Io,
            final(self).reliable() == old(self).reliable(),
            old(self).reliable() ==> r.is_ok(),
    ;

    /// Whether the file can be counted on: a file that says so never
    /// fails a read or a sync, nor a write that ends within what
    /// `usize` can count. Nothing of the kind is taken of a file that
    /// does not say so.
    open spec fn reliable(&self) -> bool {
        false
    }

    /// The bytes that are safe on the device: what the file would
    /// hold if the machine stopped now. A write may reach the device
    /// at any time, so nothing is said of them until a sync succeeds.
    open spec fn durable(&self) -> Seq<u8> {
        vstd::pervasive::arbitrary()
    }
}

} // verus!
