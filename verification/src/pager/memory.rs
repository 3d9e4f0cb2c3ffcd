//! A file held in memory.

use vstd::prelude::*;
use crate::error::Error;
use crate::pager::file::{file_byte, written, File};

verus! {

/// `std::io::Error::from` on `ErrorKind::InvalidInput`: the error for
/// a write that would reach past the largest address.
#[verifier::external_body]
fn invalid_input() -> std::io::Error {
    std::io::Error::from(std::io::ErrorKind::InvalidInput)
}

/// A file that is a vector of bytes. It does all that the pager
/// expects of a file, and is proved to.
#[derive(Debug)]
pub struct MemoryFile {
    data: Vec<u8>,
}

impl MemoryFile {
    /// An empty file.
    pub fn new() -> (file: MemoryFile)
        ensures
            file.contents() == Seq::<u8>::empty(),
    {
        MemoryFile { data: Vec::new() }
    }

    /// A file of the bytes `data`.
    pub fn from_bytes(data: Vec<u8>) -> (file: MemoryFile)
        ensures
            file.contents() == data@,
    {
        MemoryFile { data }
    }

    /// The bytes of the file.
    pub fn as_bytes(&self) -> (bytes: &[u8])
        ensures
            bytes@ == self.contents(),
    {
        self.data.as_slice()
    }
}

impl File for MemoryFile {
    closed spec fn contents(&self) -> Seq<u8> {
        self.data@
    }

    /// A file in memory never fails, but for a write past the
    /// largest address.
    open spec fn reliable(&self) -> bool {
        true
    }

    /// A file in memory has no device behind it: what it holds is as
    /// safe as it gets.
    closed spec fn durable(&self) -> Seq<u8> {
        self.data@
    }

    fn len(&self) -> (r: Result<usize, Error>) {
        Ok(self.data.len())
    }

    fn read_at(&self, buf: &mut [u8], offset: u64) -> (r: Result<usize, Error>) {
        let have: usize = self.data.len();
        let want: usize = buf.len();
        if offset >= have as u64 {
            return Ok(0);
        }
        let start: usize = offset as usize;
        let count: usize = if want <= have - start {
            want
        } else {
            have - start
        };
        let ghost before = buf@;
        let mut i: usize = 0;
        while i < count
            invariant
                i <= count,
                start + count <= have,
                have == self.data@.len(),
                count <= want,
                want == before.len(),
                buf@.len() == before.len(),
                forall|j: int| 0 <= j < i ==> buf@[j] == self.data@[start + j],
                forall|j: int| i <= j < want ==> buf@[j] == before[j],
            decreases count - i,
        {
            buf[i] = self.data[start + i];
            i = i + 1;
        }
        Ok(count)
    }

    fn write_at(&mut self, buf: &[u8], offset: u64) -> (r: Result<usize, Error>) {
        let count: usize = buf.len();
        if offset > usize::MAX as u64 || count > usize::MAX - offset as usize {
            return Err(Error::Io(invalid_input()));
        }
        let start: usize = offset as usize;
        let end: usize = start + count;
        let ghost before = self.data@;
        while self.data.len() < end
            invariant
                before.len() <= self.data@.len(),
                self.data@.len() <= end || self.data@.len() == before.len(),
                forall|j: int| 0 <= j < self.data@.len() ==> self.data@[j] == file_byte(before, j),
            decreases end - self.data@.len(),
        {
            self.data.push(0u8);
        }
        let ghost grown = self.data@;
        let target = self.data.as_mut_slice();
        let mut i: usize = 0;
        while i < count
            invariant
                i <= count,
                count == buf@.len(),
                end == start + count,
                end <= grown.len(),
                target@.len() == grown.len(),
                forall|j: int| start <= j < start + i ==> target@[j] == buf@[j - start],
                forall|j: int|
                    0 <= j < grown.len() && !(start <= j < start + i) ==> target@[j] == grown[j],
            decreases count - i,
        {
            target[start + i] = buf[i];
            i = i + 1;
        }
        Ok(count)
    }

    fn sync_data(&mut self) -> (r: Result<(), Error>) {
        Ok(())
    }
}

} // verus!
