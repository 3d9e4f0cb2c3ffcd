//! Page buffers and the headers stored inside them.
//!
//! A page is `PAGE_SIZE` bytes: an eight-byte page header, then the
//! payload. A buffer is either owned and writable (`PageBufMut`) or
//! frozen and shared (`PageBuf`).

use std::rc::Rc;
use vstd::prelude::*;
use crate::pager::codec::{
    le_bytes, le_value, lemma_le_bytes_len, lemma_le_round_trip, lemma_le_value_bound,
    lemma_pow256_values, read_le, splice, write_le,
};
use crate::pager::ids::{PhysicalPageId, INVALID_PAGE};

verus! {

/// The file format written by this library.
pub const VERSION: u16 = 1;

/// Every page is 4 KiB.
pub const PAGE_SIZE: usize = 4096;

/// The bytes the page header takes at the front of each page.
pub const PAGE_HEADER_SIZE: usize = 8;

/// The bytes the queue header takes at the front of a queue page's
/// payload.
pub const QUEUE_HEADER_SIZE: usize = 32;

/// `n` zero bytes.
pub open spec fn zeros(n: nat) -> Seq<u8> {
    Seq::new(n, |i: int| 0u8)
}

/// What the payload of a page holds.
#[derive(Debug, Clone, Copy, PartialEq, Eq, Structural)]
pub enum PageType {
    Queue,
    Btree,
}

impl PageType {
    /// The byte that stands for this type on disk.
    pub open spec fn spec_code(self) -> u8 {
        match self {
            PageType::Queue => 0,
            PageType::Btree => 1,
        }
    }

    /// The byte that stands for this type on disk.
    pub fn code(&self) -> (c: u8)
        ensures
            c == self.spec_code(),
    {
        match self {
            PageType::Queue => 0,
            PageType::Btree => 1,
        }
    }

    /// The type a byte stands for, if any.
    pub fn from_code(c: u8) -> (t: Option<PageType>)
        ensures
            c == 0 ==> t == Some(PageType::Queue),
            c == 1 ==> t == Some(PageType::Btree),
            c > 1 ==> t.is_none(),
    {
        if c == 0 {
            Some(PageType::Queue)
        } else if c == 1 {
            Some(PageType::Btree)
        } else {
            None
        }
    }
}

/// The header at the front of every page.
#[derive(Debug, Clone, Copy, PartialEq, Eq, Structural)]
pub struct PageHeader {
    pub checksum: u32,
    pub version: u8,
    pub page_type: PageType,
}

impl PageHeader {
    /// The eight bytes of the header: the checksum as four
    /// little-endian bytes, the format version, the page type, and two
    /// reserved zero bytes.
    pub open spec fn encoding(self) -> Seq<u8> {
        le_bytes(self.checksum as nat, 4).add(seq![self.version, self.page_type.spec_code(), 0u8,
            0u8])
    }

    /// Whether `bytes` begins with a header that names a known page
    /// type.
    pub open spec fn decodable(bytes: Seq<u8>) -> bool {
        bytes.len() >= PAGE_HEADER_SIZE && bytes[5] <= 1
    }

    /// The header that the first eight bytes of `bytes` spell.
    pub open spec fn decoding(bytes: Seq<u8>) -> PageHeader {
        PageHeader {
            checksum: le_value(bytes.subrange(0, 4)) as u32,
            version: bytes[4],
            page_type: if bytes[5] == 0 {
                PageType::Queue
            } else {
                PageType::Btree
            },
        }
    }

    /// Writes the header over the first eight bytes of `buf`.
    pub fn encode_into(&self, buf: &mut [u8])
        requires
            old(buf)@.len() >= PAGE_HEADER_SIZE,
        ensures
            final(buf)@ == splice(old(buf)@, 0, self.encoding()),
    {
        write_le(buf, 0, self.checksum as u64, 4);
        buf[4] = self.version;
        buf[5] = self.page_type.code();
        buf[6] = 0;
        buf[7] = 0;
        proof {
            lemma_le_bytes_len(self.checksum as nat, 4);
        }
    }

    /// Reads a header from the front of `buf`: `None` when `buf` is too
    /// short or names no known page type.
    pub fn decode(buf: &[u8]) -> (r: Option<PageHeader>)
        ensures
            r.is_some() == PageHeader::decodable(buf@),
            r matches Some(h) ==> h == PageHeader::decoding(buf@),
    {
        if buf.len() < PAGE_HEADER_SIZE {
            return None;
        }
        let raw: u64 = read_le(buf, 0, 4);
        proof {
            lemma_le_value_bound(buf@.subrange(0, 4));
            lemma_pow256_values();
        }
        match PageType::from_code(buf[5]) {
            Some(page_type) => Some(PageHeader { checksum: raw as u32, version: buf[4], page_type }),
            None => None,
        }
    }

    /// Decoding an encoded header gives the header back.
    pub proof fn lemma_round_trip(self, rest: Seq<u8>)
        ensures
            PageHeader::decodable(self.encoding().add(rest)),
            PageHeader::decoding(self.encoding().add(rest)) == self,
    {
        let bytes = self.encoding().add(rest);
        lemma_le_bytes_len(self.checksum as nat, 4);
        lemma_pow256_values();
        lemma_le_round_trip(self.checksum as nat, 4);
        assert(bytes.subrange(0, 4) =~= le_bytes(self.checksum as nat, 4));
    }
}

/// How a page link is written in eight bytes: the reserved
/// identifier as the largest `u64`, any other as itself.
pub open spec fn link_on_disk(id: usize) -> u64 {
    if id == INVALID_PAGE {
        u64::MAX
    } else {
        id as u64
    }
}

/// The header at the front of a queue page's payload.
#[derive(Debug, Clone, Copy, PartialEq, Eq, Structural)]
pub struct QueuePageHeader {
    /// The page that continues the queue, or the reserved identifier.
    pub next_page_id: PhysicalPageId,
    /// Where the items start in the page that continues the queue.
    pub next_offset: u16,
    /// Where the items written to this page end.
    pub end_offset: u16,
    /// The bytes this page has for items.
    pub item_capacity: u16,
}

impl QueuePageHeader {
    /// The thirty-two bytes of the header: the link as eight
    /// little-endian bytes, the three offsets as two each, and
    /// eighteen reserved zero bytes.
    pub open spec fn encoding(self) -> Seq<u8> {
        le_bytes(link_on_disk(self.next_page_id.0) as nat, 8).add(
            le_bytes(self.next_offset as nat, 2),
        ).add(le_bytes(self.end_offset as nat, 2)).add(le_bytes(self.item_capacity as nat, 2)).add(
            zeros(18),
        )
    }

    /// Whether `bytes` begins with a queue header whose link fits a
    /// page identifier of this machine.
    pub open spec fn decodable(bytes: Seq<u8>) -> bool {
        &&& bytes.len() >= QUEUE_HEADER_SIZE
        &&& (le_value(bytes.subrange(0, 8)) == u64::MAX || le_value(bytes.subrange(0, 8))
            < usize::MAX)
    }

    /// The queue header that the first bytes of `bytes` spell.
    pub open spec fn decoding(bytes: Seq<u8>) -> QueuePageHeader {
        let link = le_value(bytes.subrange(0, 8));
        QueuePageHeader {
            next_page_id: PhysicalPageId(
                if link == u64::MAX {
                    INVALID_PAGE
                } else {
                    link as usize
                },
            ),
            next_offset: le_value(bytes.subrange(8, 10)) as u16,
            end_offset: le_value(bytes.subrange(10, 12)) as u16,
            item_capacity: le_value(bytes.subrange(12, 14)) as u16,
        }
    }

    /// Writes the header over the first thirty-two bytes of `buf`.
    pub fn encode_into(&self, buf: &mut [u8])
        requires
            old(buf)@.len() >= QUEUE_HEADER_SIZE,
        ensures
            final(buf)@ == splice(old(buf)@, 0, self.encoding()),
    {
        let ghost before = buf@;
        let link: u64 = if self.next_page_id.0 == INVALID_PAGE {
            u64::MAX
        } else {
            self.next_page_id.0 as u64
        };
        write_le(buf, 0, link, 8);
        write_le(buf, 8, self.next_offset as u64, 2);
        write_le(buf, 10, self.end_offset as u64, 2);
        write_le(buf, 12, self.item_capacity as u64, 2);
        let mut i: usize = 14;
        proof {
            lemma_le_bytes_len(link as nat, 8);
            lemma_le_bytes_len(self.next_offset as nat, 2);
            lemma_le_bytes_len(self.end_offset as nat, 2);
            lemma_le_bytes_len(self.item_capacity as nat, 2);
        }
        let ghost front = le_bytes(link as nat, 8).add(le_bytes(self.next_offset as nat, 2)).add(
            le_bytes(self.end_offset as nat, 2),
        ).add(le_bytes(self.item_capacity as nat, 2));
        while i < QUEUE_HEADER_SIZE
            invariant
                14 <= i <= QUEUE_HEADER_SIZE,
                front.len() == 14,
                before.len() >= QUEUE_HEADER_SIZE,
                buf@.len() == before.len(),
                buf@ == splice(before, 0, front.add(zeros((i - 14) as nat))),
            decreases QUEUE_HEADER_SIZE - i,
        {
            buf[i] = 0;
            i = i + 1;
        }
    }

    /// Reads a queue header from the front of `buf`: `None` when `buf`
    /// is too short or the link does not fit a page identifier.
    pub fn decode(buf: &[u8]) -> (r: Option<QueuePageHeader>)
        ensures
            r.is_some() == QueuePageHeader::decodable(buf@),
            r matches Some(h) ==> h == QueuePageHeader::decoding(buf@),
    {
        if buf.len() < QUEUE_HEADER_SIZE {
            return None;
        }
        let link: u64 = read_le(buf, 0, 8);
        let next_offset: u64 = read_le(buf, 8, 2);
        let end_offset: u64 = read_le(buf, 10, 2);
        let item_capacity: u64 = read_le(buf, 12, 2);
        proof {
            lemma_le_value_bound(buf@.subrange(8, 10));
            lemma_le_value_bound(buf@.subrange(10, 12));
            lemma_le_value_bound(buf@.subrange(12, 14));
            lemma_pow256_values();
        }
        let next: usize = if link == u64::MAX {
            INVALID_PAGE
        } else if link < usize::MAX as u64 {
            link as usize
        } else {
            return None;
        };
        Some(
            QueuePageHeader {
                next_page_id: PhysicalPageId(next),
                next_offset: next_offset as u16,
                end_offset: end_offset as u16,
                item_capacity: item_capacity as u16,
            },
        )
    }

    /// Decoding an encoded queue header gives the header back.
    pub proof fn lemma_round_trip(self, rest: Seq<u8>)
        ensures
            self.encoding().len() == QUEUE_HEADER_SIZE,
            QueuePageHeader::decodable(self.encoding().add(rest)),
            QueuePageHeader::decoding(self.encoding().add(rest)) == self,
    {
        let bytes = self.encoding().add(rest);
        let link = link_on_disk(self.next_page_id.0);
        lemma_le_bytes_len(link as nat, 8);
        lemma_le_bytes_len(self.next_offset as nat, 2);
        lemma_le_bytes_len(self.end_offset as nat, 2);
        lemma_le_bytes_len(self.item_capacity as nat, 2);
        lemma_pow256_values();
        lemma_le_round_trip(link as nat, 8);
        lemma_le_round_trip(self.next_offset as nat, 2);
        lemma_le_round_trip(self.end_offset as nat, 2);
        lemma_le_round_trip(self.item_capacity as nat, 2);
        assert(bytes.subrange(0, 8) =~= le_bytes(link as nat, 8));
        assert(bytes.subrange(8, 10) =~= le_bytes(self.next_offset as nat, 2));
        assert(bytes.subrange(10, 12) =~= le_bytes(self.end_offset as nat, 2));
        assert(bytes.subrange(12, 14) =~= le_bytes(self.item_capacity as nat, 2));
    }
}

/// A page taken apart without copying its payload: the page header,
/// the header the payload begins with, and the payload behind it.
#[derive(Debug)]
pub struct PageView<'a, T> {
    pub header: PageHeader,
    pub sub_header: T,
    pub payload: &'a [u8],
}

/// A page taken apart for writing: both headers as they stand, and
/// the payload behind them, writable in place.
#[derive(Debug)]
pub struct PageViewMut<'a, T> {
    pub header: PageHeader,
    pub sub_header: T,
    pub payload: &'a mut [u8],
}

/// An exclusively owned, writable page buffer.
#[derive(Debug)]
pub struct PageBufMut {
    data: Vec<u8>,
}

/// A frozen page buffer that any number of readers may share.
#[derive(Debug)]
pub struct PageBuf {
    data: Rc<Vec<u8>>,
}

impl PageBufMut {
    /// All the bytes of the page, header included.
    pub closed spec fn view(&self) -> Seq<u8> {
        self.data@
    }

    /// A page buffer always holds exactly `PAGE_SIZE` bytes.
    pub open spec fn wf(&self) -> bool {
        self@.len() == PAGE_SIZE
    }

    /// A fresh buffer of zero bytes.
    pub fn new() -> (page: PageBufMut)
        ensures
            page.wf(),
            page@ == zeros(PAGE_SIZE as nat),
    {
        let mut data: Vec<u8> = Vec::with_capacity(PAGE_SIZE);
        let mut i: usize = 0;
        while i < PAGE_SIZE
            invariant
                i <= PAGE_SIZE,
                data@ == zeros(i as nat),
            decreases PAGE_SIZE - i,
        {
            data.push(0u8);
            i = i + 1;
        }
        PageBufMut { data }
    }

    /// Stamps the page header of a queue page in the current format,
    /// with a zero checksum. The payload is left as it is.
    pub fn init(&mut self)
        requires
            old(self).wf(),
        ensures
            final(self).wf(),
            final(self)@ == splice(
                old(self)@,
                0,
                (PageHeader { checksum: 0, version: VERSION as u8, page_type: PageType::Queue })
                    .encoding(),
            ),
    {
        self.init_as(PageType::Queue)
    }

    /// Stamps the page header of a page of type `page_type` in the
    /// current format, with a zero checksum. The payload is left as it
    /// is.
    pub fn init_as(&mut self, page_type: PageType)
        requires
            old(self).wf(),
        ensures
            final(self).wf(),
            final(self)@ == splice(
                old(self)@,
                0,
                (PageHeader { checksum: 0, version: VERSION as u8, page_type }).encoding(),
            ),
    {
        let header = PageHeader { checksum: 0, version: VERSION as u8, page_type };
        proof {
            lemma_le_bytes_len(0, 4);
        }
        header.encode_into(self.data.as_mut_slice());
    }

    /// The payload: the bytes after the page header.
    pub fn buf(&self) -> (payload: &[u8])
        requires
            self.wf(),
        ensures
            payload@ == self@.subrange(PAGE_HEADER_SIZE as int, PAGE_SIZE as int),
    {
        let (_, payload) = self.data.as_slice().split_at(PAGE_HEADER_SIZE);
        payload
    }

    /// The payload, writable in place.
    pub fn buf_mut(&mut self) -> (payload: &mut [u8])
        requires
            old(self).wf(),
        ensures
            payload@ == old(self)@.subrange(PAGE_HEADER_SIZE as int, PAGE_SIZE as int),
            final(self)@ == old(self)@.subrange(0, PAGE_HEADER_SIZE as int).add(final(payload)@),
    {
        let (_, payload) = self.data.as_mut_slice().split_at_mut(PAGE_HEADER_SIZE);
        payload
    }

    /// The whole page, header included.
    pub fn as_bytes(&self) -> (bytes: &[u8])
        ensures
            bytes@ == self@,
    {
        self.data.as_slice()
    }

    /// The whole page, header included, writable in place.
    pub fn as_bytes_mut(&mut self) -> (bytes: &mut [u8])
        ensures
            bytes@ == old(self)@,
            final(self)@ == final(bytes)@,
    {
        self.data.as_mut_slice()
    }

    /// Overwrites the bytes from `at` on with `bytes`.
    pub fn put(&mut self, at: usize, bytes: &[u8])
        requires
            old(self).wf(),
            at + bytes@.len() <= PAGE_SIZE,
        ensures
            final(self).wf(),
            final(self)@ == splice(old(self)@, at as int, bytes@),
    {
        let count: usize = bytes.len();
        let target = self.data.as_mut_slice();
        let ghost before = target@;
        let mut i: usize = 0;
        while i < count
            invariant
                i <= count,
                count == bytes@.len(),
                at + count <= PAGE_SIZE,
                before.len() == PAGE_SIZE,
                target@.len() == PAGE_SIZE,
                target@ == splice(before, at as int, bytes@.subrange(0, i as int)),
            decreases count - i,
        {
            target[at + i] = bytes[i];
            i = i + 1;
        }
    }

    /// Writes `header` as the queue header, at the front of the
    /// payload.
    pub fn set_queue_header(&mut self, header: &QueuePageHeader)
        requires
            old(self).wf(),
        ensures
            final(self).wf(),
            final(self)@ == splice(old(self)@, PAGE_HEADER_SIZE as int, header.encoding()),
    {
        proof {
            header.lemma_round_trip(Seq::empty());
            lemma_le_bytes_len(link_on_disk(header.next_page_id.0) as nat, 8);
            lemma_le_bytes_len(header.next_offset as nat, 2);
            lemma_le_bytes_len(header.end_offset as nat, 2);
            lemma_le_bytes_len(header.item_capacity as nat, 2);
        }
        header.encode_into(self.buf_mut());
    }

    /// The queue header at the front of the payload, if the bytes
    /// there spell one.
    pub fn queue_header(&self) -> (r: Option<QueuePageHeader>)
        requires
            self.wf(),
        ensures
            r.is_some() == QueuePageHeader::decodable(
                self@.subrange(PAGE_HEADER_SIZE as int, PAGE_SIZE as int),
            ),
            r matches Some(h) ==> h == QueuePageHeader::decoding(
                self@.subrange(PAGE_HEADER_SIZE as int, PAGE_SIZE as int),
            ),
    {
        QueuePageHeader::decode(self.buf())
    }

    /// The page as a queue page, for writing items: its two headers
    /// as they stand and the items behind them, writable in place.
    /// `None` when either header does not decode.
    pub fn queue_view_mut(&mut self) -> (r: Option<PageViewMut<'_, QueuePageHeader>>)
        requires
            old(self).wf(),
        ensures
            r.is_some() == (PageHeader::decodable(old(self)@) && QueuePageHeader::decodable(
                old(self)@.subrange(PAGE_HEADER_SIZE as int, PAGE_SIZE as int),
            )),
            r.is_none() ==> final(self)@ == old(self)@,
            r matches Some(view) ==> {
                &&& view.header == PageHeader::decoding(old(self)@)
                &&& view.sub_header == QueuePageHeader::decoding(
                    old(self)@.subrange(PAGE_HEADER_SIZE as int, PAGE_SIZE as int),
                )
                &&& view.payload@ == old(self)@.subrange(
                    PAGE_HEADER_SIZE + QUEUE_HEADER_SIZE,
                    PAGE_SIZE as int,
                )
                &&& final(self)@ == old(self)@.subrange(
                    0,
                    PAGE_HEADER_SIZE + QUEUE_HEADER_SIZE,
                ).add(final(view.payload)@)
            },
    {
        let header = match PageHeader::decode(self.data.as_slice()) {
            Some(header) => header,
            None => {
                return None;
            },
        };
        let sub_header = match self.queue_header() {
            Some(sub_header) => sub_header,
            None => {
                return None;
            },
        };
        let (_, payload) = self.data.as_mut_slice().split_at_mut(
            PAGE_HEADER_SIZE + QUEUE_HEADER_SIZE,
        );
        Some(PageViewMut { header, sub_header, payload })
    }

    /// Gives up write access: the same bytes, now shareable.
    pub fn freeze(self) -> (page: PageBuf)
        ensures
            page@ == self@,
    {
        PageBuf { data: Rc::new(self.data) }
    }
}

impl PageBuf {
    /// All the bytes of the page, header included.
    pub closed spec fn view(&self) -> Seq<u8> {
        (*self.data)@
    }

    /// A page buffer always holds exactly `PAGE_SIZE` bytes.
    pub open spec fn wf(&self) -> bool {
        self@.len() == PAGE_SIZE
    }

    /// The payload: the bytes after the page header.
    pub fn buf(&self) -> (payload: &[u8])
        requires
            self.wf(),
        ensures
            payload@ == self@.subrange(PAGE_HEADER_SIZE as int, PAGE_SIZE as int),
    {
        let (_, payload) = self.data.as_slice().split_at(PAGE_HEADER_SIZE);
        payload
    }

    /// The whole page, header included.
    pub fn as_bytes(&self) -> (bytes: &[u8])
        ensures
            bytes@ == self@,
    {
        self.data.as_slice()
    }

    /// The queue header at the front of the payload, if the bytes
    /// there spell one.
    pub fn queue_header(&self) -> (r: Option<QueuePageHeader>)
        requires
            self.wf(),
        ensures
            r.is_some() == QueuePageHeader::decodable(
                self@.subrange(PAGE_HEADER_SIZE as int, PAGE_SIZE as int),
            ),
            r matches Some(h) ==> h == QueuePageHeader::decoding(
                self@.subrange(PAGE_HEADER_SIZE as int, PAGE_SIZE as int),
            ),
    {
        QueuePageHeader::decode(self.buf())
    }

    /// The page as a queue page: its two headers and the items behind
    /// them. `None` when either header does not decode.
    pub fn queue_view(&self) -> (r: Option<PageView<'_, QueuePageHeader>>)
        requires
            self.wf(),
        ensures
            r.is_some() == (PageHeader::decodable(self@) && QueuePageHeader::decodable(
                self@.subrange(PAGE_HEADER_SIZE as int, PAGE_SIZE as int),
            )),
            r matches Some(view) ==> {
                &&& view.header == PageHeader::decoding(self@)
                &&& view.sub_header == QueuePageHeader::decoding(
                    self@.subrange(PAGE_HEADER_SIZE as int, PAGE_SIZE as int),
                )
                &&& view.payload@ == self@.subrange(
                    PAGE_HEADER_SIZE + QUEUE_HEADER_SIZE,
                    PAGE_SIZE as int,
                )
            },
    {
        let (front, rest) = self.data.as_slice().split_at(PAGE_HEADER_SIZE);
        let header = match PageHeader::decode(self.data.as_slice()) {
            Some(header) => header,
            None => {
                return None;
            },
        };
        let sub_header = match QueuePageHeader::decode(rest) {
            Some(sub_header) => sub_header,
            None => {
                return None;
            },
        };
        let (_, payload) = rest.split_at(QUEUE_HEADER_SIZE);
        Some(PageView { header, sub_header, payload })
    }

    /// Takes the buffer back for writing. This succeeds only while no
    /// other reader shares the buffer; otherwise the buffer comes back
    /// unchanged. Either way no byte changes.
    pub fn try_take(self) -> (r: Result<PageBufMut, PageBuf>)
        ensures
            match r {
                Ok(page) => page@ == self@,
                Err(page) => page@ == self@,
            },
    {
        match Rc::try_unwrap(self.data) {
            Ok(data) => Ok(PageBufMut { data }),
            Err(data) => Err(PageBuf { data }),
        }
    }
}

impl Clone for PageBuf {
    /// Another handle on the same bytes; nothing is copied.
    fn clone(&self) -> (page: PageBuf)
        ensures
            page@ == self@,
    {
        PageBuf { data: self.data.clone() }
    }
}

} // verus!
