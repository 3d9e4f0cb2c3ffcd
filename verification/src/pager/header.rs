//! The file header: the thirty bytes at the front of page 0.

use vstd::prelude::*;
use crate::error::Error;
use crate::pager::codec::{
    le_bytes, le_value, lemma_le_bytes_len, lemma_le_round_trip, lemma_le_value_bound,
    lemma_pow256_values, read_le, splice, write_le,
};
use crate::pager::file::written;
use crate::pager::page::{zeros, PAGE_SIZE, VERSION};

verus! {

/// The bytes the header takes.
pub const HEADER_SIZE: usize = 30;

/// Whether `n` page slots can be addressed on this machine: every
/// slot's bytes lie below the largest file offset and the largest
/// length a file can report, and every slot's number is a page
/// identifier other than the reserved one.
pub open spec fn addressable(n: int) -> bool {
    0 <= n < usize::MAX && n * PAGE_SIZE <= u64::MAX && n * PAGE_SIZE <= usize::MAX
}

/// Whether `n` page slots can be addressed on this machine.
pub fn is_addressable(n: u64) -> (b: bool)
    ensures
        b == addressable(n as int),
{
    if n < usize::MAX as u64 && n <= 0x000F_FFFF_FFFF_FFFFu64 {
        n * 4096 <= usize::MAX as u64
    } else {
        false
    }
}

/// What the file says of itself.
#[derive(Debug, Clone, Copy, PartialEq, Eq, Structural)]
pub struct Header {
    /// The format the file is written in.
    pub version: u16,
    /// The size of every page of the file.
    pub page_size: u32,
    /// The number of page slots handed out, the header's own included.
    pub page_count: u64,
    /// The last generation made durable.
    pub commited_version: u64,
    /// The oldest generation still kept readable.
    pub oldest_version: u64,
}

impl Header {
    /// The header in its thirty bytes, every field little-endian:
    /// the format at 0, the page size at 2, the page count at 6, the
    /// committed version at 14, the oldest version at 22.
    pub open spec fn encoding(self) -> Seq<u8> {
        le_bytes(self.version as nat, 2).add(le_bytes(self.page_size as nat, 4)).add(
            le_bytes(self.page_count as nat, 8),
        ).add(le_bytes(self.commited_version as nat, 8)).add(
            le_bytes(self.oldest_version as nat, 8),
        )
    }

    /// The header as a whole page: its thirty bytes, then zeros.
    pub open spec fn page(self) -> Seq<u8> {
        self.encoding().add(zeros((PAGE_SIZE - HEADER_SIZE) as nat))
    }

    /// The header that the first thirty bytes of `bytes` spell.
    pub open spec fn decoding(bytes: Seq<u8>) -> Header {
        Header {
            version: le_value(bytes.subrange(0, 2)) as u16,
            page_size: le_value(bytes.subrange(2, 6)) as u32,
            page_count: le_value(bytes.subrange(6, 14)) as u64,
            commited_version: le_value(bytes.subrange(14, 22)) as u64,
            oldest_version: le_value(bytes.subrange(22, 30)) as u64,
        }
    }

    /// A header this library can work with: its own format and page
    /// size, a page count that counts the header page and can be
    /// addressed, and versions in order with room for the next one.
    pub open spec fn valid(self) -> bool {
        &&& self.version == VERSION
        &&& self.page_size == PAGE_SIZE
        &&& self.page_count >= 1
        &&& addressable(self.page_count as int)
        &&& self.oldest_version <= self.commited_version
        &&& self.commited_version < u64::MAX
    }

    /// The header of a file that holds nothing yet.
    pub open spec fn spec_fresh() -> Header {
        Header {
            version: VERSION,
            page_size: PAGE_SIZE as u32,
            page_count: 1,
            commited_version: 1,
            oldest_version: 1,
        }
    }

    /// The header of a file that holds nothing yet: format 1, one
    /// page (the header's own), committed and oldest version 1.
    pub fn fresh() -> (h: Header)
        ensures
            h == Header::spec_fresh(),
            h.valid(),
    {
        Header {
            version: VERSION,
            page_size: PAGE_SIZE as u32,
            page_count: 1,
            commited_version: 1,
            oldest_version: 1,
        }
    }

    /// Whether the header is one this library can work with.
    pub fn is_valid(&self) -> (b: bool)
        ensures
            b == self.valid(),
    {
        self.version == VERSION && self.page_size == PAGE_SIZE as u32 && self.page_count >= 1
            && is_addressable(self.page_count) && self.oldest_version <= self.commited_version
            && self.commited_version < u64::MAX
    }

    /// Writes the header over the first thirty bytes of `buf`.
    pub fn encode_into(&self, buf: &mut [u8])
        requires
            old(buf)@.len() >= HEADER_SIZE,
        ensures
            final(buf)@ == splice(old(buf)@, 0, self.encoding()),
    {
        proof {
            lemma_le_bytes_len(self.version as nat, 2);
            lemma_le_bytes_len(self.page_size as nat, 4);
            lemma_le_bytes_len(self.page_count as nat, 8);
            lemma_le_bytes_len(self.commited_version as nat, 8);
            lemma_le_bytes_len(self.oldest_version as nat, 8);
        }
        write_le(buf, 0, self.version as u64, 2);
        write_le(buf, 2, self.page_size as u64, 4);
        write_le(buf, 6, self.page_count, 8);
        write_le(buf, 14, self.commited_version, 8);
        write_le(buf, 22, self.oldest_version, 8);
    }

    /// Reads a header from the front of `buf`. Bytes that are too few,
    /// or that spell a header this library cannot work with, are a
    /// `Serialization` error.
    pub fn decode(buf: &[u8]) -> (r: Result<Header, Error>)
        ensures
            r.is_ok() == (buf@.len() >= HEADER_SIZE && Header::decoding(buf@).valid()),
            r matches Ok(h) ==> h == Header::decoding(buf@),
            r matches Err(e) ==> e is Serialization,
    {
        if buf.len() < HEADER_SIZE {
            return Err(Error::Serialization);
        }
        let version: u64 = read_le(buf, 0, 2);
        let page_size: u64 = read_le(buf, 2, 4);
        let page_count: u64 = read_le(buf, 6, 8);
        let commited_version: u64 = read_le(buf, 14, 8);
        let oldest_version: u64 = read_le(buf, 22, 8);
        proof {
            lemma_le_value_bound(buf@.subrange(0, 2));
            lemma_le_value_bound(buf@.subrange(2, 6));
            lemma_pow256_values();
        }
        let header = Header {
            version: version as u16,
            page_size: page_size as u32,
            page_count,
            commited_version,
            oldest_version,
        };
        if header.is_valid() {
            Ok(header)
        } else {
            Err(Error::Serialization)
        }
    }

    /// A header that was written is the header that is read: after
    /// its page was written at the start of a file, the file is at
    /// least a page long and begins with the header.
    pub proof fn lemma_written_read(self, contents: Seq<u8>)
        ensures
            written(contents, 0, self.page()).len() >= PAGE_SIZE,
            Header::decoding(written(contents, 0, self.page())) == self,
    {
        let page = self.page();
        let after = written(contents, 0, page);
        self.lemma_round_trip(zeros((PAGE_SIZE - HEADER_SIZE) as nat));
        assert(after.subrange(0, 2) =~= page.subrange(0, 2));
        assert(after.subrange(2, 6) =~= page.subrange(2, 6));
        assert(after.subrange(6, 14) =~= page.subrange(6, 14));
        assert(after.subrange(14, 22) =~= page.subrange(14, 22));
        assert(after.subrange(22, 30) =~= page.subrange(22, 30));
    }

    /// Decoding an encoded header gives the header back, whatever
    /// follows the thirty bytes.
    pub proof fn lemma_round_trip(self, rest: Seq<u8>)
        ensures
            self.encoding().len() == HEADER_SIZE,
            Header::decoding(self.encoding().add(rest)) == self,
    {
        let bytes = self.encoding().add(rest);
        lemma_le_bytes_len(self.version as nat, 2);
        lemma_le_bytes_len(self.page_size as nat, 4);
        lemma_le_bytes_len(self.page_count as nat, 8);
        lemma_le_bytes_len(self.commited_version as nat, 8);
        lemma_le_bytes_len(self.oldest_version as nat, 8);
        lemma_pow256_values();
        lemma_le_round_trip(self.version as nat, 2);
        lemma_le_round_trip(self.page_size as nat, 4);
        lemma_le_round_trip(self.page_count as nat, 8);
        lemma_le_round_trip(self.commited_version as nat, 8);
        lemma_le_round_trip(self.oldest_version as nat, 8);
        assert(bytes.subrange(0, 2) =~= le_bytes(self.version as nat, 2));
        assert(bytes.subrange(2, 6) =~= le_bytes(self.page_size as nat, 4));
        assert(bytes.subrange(6, 14) =~= le_bytes(self.page_count as nat, 8));
        assert(bytes.subrange(14, 22) =~= le_bytes(self.commited_version as nat, 8));
        assert(bytes.subrange(22, 30) =~= le_bytes(self.oldest_version as nat, 8));
    }
}

} // verus!
