//! The records the pager keeps in its queues.

use vstd::prelude::*;
use crate::pager::codec::{
    le_bytes, le_value, lemma_le_bytes_len, lemma_le_round_trip, lemma_pow256_values, read_le,
    write_le,
};
use crate::pager::ids::{LogicalPageId, Version};

verus! {

/// The bytes a `RemappedPage` takes in a queue.
pub const REMAPPED_PAGE_SIZE: usize = 24;

/// The bytes a `DelayedFreePage` takes in a queue.
pub const DELAYED_FREE_PAGE_SIZE: usize = 16;

/// A page that may be freed once no reader needs `version`.
#[derive(Debug, Clone, Copy, PartialEq, Eq, Structural)]
pub struct DelayedFreePage {
    pub version: Version,
    pub page_id: LogicalPageId,
}

/// A copy-on-write update: from `version` on, `original_page_id` is
/// found in `new_page_id`.
#[derive(Debug, Clone, Copy, PartialEq, Eq, Structural)]
pub struct RemappedPage {
    pub version: Version,
    pub original_page_id: LogicalPageId,
    pub new_page_id: LogicalPageId,
}

impl DelayedFreePage {
    /// The record as sixteen bytes: the version, then the page, each
    /// as eight little-endian bytes.
    pub open spec fn encoding(self) -> Seq<u8> {
        le_bytes(self.version.0 as nat, 8).add(le_bytes(self.page_id.0 as nat, 8))
    }

    /// The record as a queue item.
    pub fn encode(&self) -> (bytes: Vec<u8>)
        ensures
            bytes@ == self.encoding(),
            bytes@.len() == DELAYED_FREE_PAGE_SIZE,
    {
        let mut bytes: Vec<u8> = Vec::new();
        bytes.resize(DELAYED_FREE_PAGE_SIZE, 0u8);
        proof {
            lemma_le_bytes_len(self.version.0 as nat, 8);
            lemma_le_bytes_len(self.page_id.0 as nat, 8);
        }
        write_le(bytes.as_mut_slice(), 0, self.version.0, 8);
        write_le(bytes.as_mut_slice(), 8, self.page_id.0 as u64, 8);
        bytes
    }

    /// Reads a record from a queue item: `None` when the item has
    /// another size or names a page this machine cannot address.
    pub fn decode(bytes: &[u8]) -> (r: Option<DelayedFreePage>)
        ensures
            r.is_some() == (bytes@.len() == DELAYED_FREE_PAGE_SIZE && le_value(
                bytes@.subrange(8, 16),
            ) <= usize::MAX),
            r matches Some(record) ==> record.encoding() == bytes@,
    {
        if bytes.len() != DELAYED_FREE_PAGE_SIZE {
            return None;
        }
        let version: u64 = read_le(bytes, 0, 8);
        let page: u64 = read_le(bytes, 8, 8);
        if page > usize::MAX as u64 {
            return None;
        }
        let record = DelayedFreePage {
            version: Version(version),
            page_id: LogicalPageId(page as usize),
        };
        proof {
            crate::pager::codec::lemma_le_bytes_of_value(bytes@.subrange(0, 8));
            crate::pager::codec::lemma_le_bytes_of_value(bytes@.subrange(8, 16));
        }
        Some(record)
    }

    /// Decoding an encoded record gives the record back.
    pub proof fn lemma_round_trip(self)
        ensures
            self.encoding().len() == DELAYED_FREE_PAGE_SIZE,
            le_value(self.encoding().subrange(0, 8)) == self.version.0,
            le_value(self.encoding().subrange(8, 16)) == self.page_id.0,
    {
        lemma_le_bytes_len(self.version.0 as nat, 8);
        lemma_le_bytes_len(self.page_id.0 as nat, 8);
        lemma_pow256_values();
        lemma_le_round_trip(self.version.0 as nat, 8);
        lemma_le_round_trip(self.page_id.0 as nat, 8);
        assert(self.encoding().subrange(0, 8) =~= le_bytes(self.version.0 as nat, 8));
        assert(self.encoding().subrange(8, 16) =~= le_bytes(self.page_id.0 as nat, 8));
    }
}

impl RemappedPage {
    /// The record as twenty-four bytes: the version, the page that
    /// was updated, the page that holds the update, each as eight
    /// little-endian bytes.
    pub open spec fn encoding(self) -> Seq<u8> {
        le_bytes(self.version.0 as nat, 8).add(le_bytes(self.original_page_id.0 as nat, 8)).add(
            le_bytes(self.new_page_id.0 as nat, 8),
        )
    }

    /// The record as a queue item.
    pub fn encode(&self) -> (bytes: Vec<u8>)
        ensures
            bytes@ == self.encoding(),
            bytes@.len() == REMAPPED_PAGE_SIZE,
    {
        let mut bytes: Vec<u8> = Vec::new();
        bytes.resize(REMAPPED_PAGE_SIZE, 0u8);
        proof {
            lemma_le_bytes_len(self.version.0 as nat, 8);
            lemma_le_bytes_len(self.original_page_id.0 as nat, 8);
            lemma_le_bytes_len(self.new_page_id.0 as nat, 8);
        }
        write_le(bytes.as_mut_slice(), 0, self.version.0, 8);
        write_le(bytes.as_mut_slice(), 8, self.original_page_id.0 as u64, 8);
        write_le(bytes.as_mut_slice(), 16, self.new_page_id.0 as u64, 8);
        bytes
    }

    /// Reads a record from a queue item: `None` when the item has
    /// another size or names a page this machine cannot address.
    pub fn decode(bytes: &[u8]) -> (r: Option<RemappedPage>)
        ensures
            r.is_some() == (bytes@.len() == REMAPPED_PAGE_SIZE && le_value(bytes@.subrange(8, 16))
                <= usize::MAX && le_value(bytes@.subrange(16, 24)) <= usize::MAX),
            r matches Some(record) ==> record.encoding() == bytes@,
    {
        if bytes.len() != REMAPPED_PAGE_SIZE {
            return None;
        }
        let version: u64 = read_le(bytes, 0, 8);
        let updated: u64 = read_le(bytes, 8, 8);
        let new: u64 = read_le(bytes, 16, 8);
        if updated > usize::MAX as u64 || new > usize::MAX as u64 {
            return None;
        }
        let record = RemappedPage {
            version: Version(version),
            original_page_id: LogicalPageId(updated as usize),
            new_page_id: LogicalPageId(new as usize),
        };
        proof {
            crate::pager::codec::lemma_le_bytes_of_value(bytes@.subrange(0, 8));
            crate::pager::codec::lemma_le_bytes_of_value(bytes@.subrange(8, 16));
            crate::pager::codec::lemma_le_bytes_of_value(bytes@.subrange(16, 24));
        }
        Some(record)
    }

    /// Decoding an encoded record gives the record back.
    pub proof fn lemma_round_trip(self)
        ensures
            self.encoding().len() == REMAPPED_PAGE_SIZE,
            le_value(self.encoding().subrange(0, 8)) == self.version.0,
            le_value(self.encoding().subrange(8, 16)) == self.original_page_id.0,
            le_value(self.encoding().subrange(16, 24)) == self.new_page_id.0,
    {
        lemma_le_bytes_len(self.version.0 as nat, 8);
        lemma_le_bytes_len(self.original_page_id.0 as nat, 8);
        lemma_le_bytes_len(self.new_page_id.0 as nat, 8);
        lemma_pow256_values();
        lemma_le_round_trip(self.version.0 as nat, 8);
        lemma_le_round_trip(self.original_page_id.0 as nat, 8);
        lemma_le_round_trip(self.new_page_id.0 as nat, 8);
        assert(self.encoding().subrange(0, 8) =~= le_bytes(self.version.0 as nat, 8));
        assert(self.encoding().subrange(8, 16) =~= le_bytes(self.original_page_id.0 as nat, 8));
        assert(self.encoding().subrange(16, 24) =~= le_bytes(self.new_page_id.0 as nat, 8));
    }
}

} // verus!
