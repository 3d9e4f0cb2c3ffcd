//! The tree that lives on the pages of the pager.
//!
//! So far the tree is its root: one leaf, held in memory and written
//! to its page when the tree is flushed.

pub mod node;

use vstd::prelude::*;
use crate::error::Error;
use crate::page::{
    decoded_leaf, encoded_leaf, is_rank, lemma_encoded_leaf_told, lemma_read_back, representable,
    sorted, Page,
};
use crate::pager::codec::{copy_range, lemma_le_bytes_len};
use crate::pager::file::{lemma_written_elsewhere, lemma_written_page, page_at, written, File};
use crate::pager::header::{addressable, Header};
use crate::pager::ids::LogicalPageId;
use crate::pager::page::{PageHeader, PageType, PAGE_HEADER_SIZE, PAGE_SIZE, VERSION};
use crate::pager::page_cache::CACHE_PAGES;
use crate::pager::DWALPager;

verus! {

/// The bytes a page has for its leaf: a leaf must be shorter than
/// this when written.
pub const LEAF_SPACE: usize = 4088;

/// Whether `page` is a tree page that holds the leaf `entries`: the
/// page header of a tree page, and behind it the leaf as bincode
/// writes it.
pub open spec fn stored(page: Seq<u8>, entries: Seq<(Seq<u8>, Seq<u8>)>) -> bool {
    &&& PageHeader::decodable(page)
    &&& PageHeader::decoding(page) == (PageHeader {
        checksum: 0,
        version: VERSION as u8,
        page_type: PageType::Btree,
    })
    &&& encoded_leaf(entries).is_prefix_of(page.subrange(PAGE_HEADER_SIZE as int, PAGE_SIZE as int))
}

/// Whether a pager opens on a file of these bytes: the file is new,
/// shorter than a page, or begins with a valid header.
pub open spec fn opens(contents: Seq<u8>) -> bool {
    contents.len() < PAGE_SIZE || Header::decoding(contents).valid()
}

/// The number of pages, the header's among them, that a pager finds
/// in a file of these bytes: a new file gets its header page.
pub open spec fn pages_in(contents: Seq<u8>) -> int {
    if contents.len() < PAGE_SIZE {
        1
    } else {
        Header::decoding(contents).page_count as int
    }
}

/// Whether `page` can be read as the root of a tree: it has the page
/// header of a tree page, and what follows begins with a leaf whose
/// pairs are in the order of their keys.
pub open spec fn holds_leaf(page: Seq<u8>) -> bool {
    &&& PageHeader::decodable(page)
    &&& PageHeader::decoding(page) == (PageHeader {
        checksum: 0,
        version: VERSION as u8,
        page_type: PageType::Btree,
    })
    &&& decoded_leaf(page.subrange(PAGE_HEADER_SIZE as int, PAGE_SIZE as int)) matches Some(pairs)
        && sorted(pairs)
}

/// A page holds one leaf at most. So the tree that is opened from a
/// page is the tree that was flushed to it.
pub proof fn lemma_stored_once(
    page: Seq<u8>,
    flushed: Seq<(Seq<u8>, Seq<u8>)>,
    opened: Seq<(Seq<u8>, Seq<u8>)>,
)
    requires
        stored(page, flushed),
        stored(page, opened),
        representable(flushed),
        representable(opened),
    ensures
        flushed == opened,
{
    lemma_encoded_leaf_told(
        flushed,
        opened,
        page.subrange(PAGE_HEADER_SIZE as int, PAGE_SIZE as int),
    );
}

/// A tree that was flushed can be opened again: a page that holds a
/// leaf whose pairs are in order reads as the root of a tree, and as
/// that leaf.
pub proof fn lemma_stored_opens(page: Seq<u8>, entries: Seq<(Seq<u8>, Seq<u8>)>)
    requires
        stored(page, entries),
        representable(entries),
        sorted(entries),
    ensures
        holds_leaf(page),
        decoded_leaf(page.subrange(PAGE_HEADER_SIZE as int, PAGE_SIZE as int)) == Some(entries),
{
    lemma_read_back(entries, page.subrange(PAGE_HEADER_SIZE as int, PAGE_SIZE as int));
}

/// A tree of key/value pairs on a file.
pub struct Tree<F: File> {
    pager: DWALPager<F>,
    root_page_id: LogicalPageId,
    root: Page,
}

impl<F: File> Tree<F> {
    /// The pairs of the tree, in the order of their keys.
    pub closed spec fn entries(&self) -> Seq<(Seq<u8>, Seq<u8>)> {
        self.root.leaf().entries()
    }

    /// The page the root is written to.
    pub closed spec fn root(&self) -> usize {
        self.root_page_id.0
    }

    /// The pager under the tree.
    pub closed spec fn pager(&self) -> DWALPager<F> {
        self.pager
    }

    /// The pager is sound, the root page has been handed out, and the
    /// pairs are in order.
    pub closed spec fn inv(&self) -> bool {
        &&& self.pager.inv()
        &&& self.pager.in_bounds(self.root_page_id.0)
        &&& self.root.leaf().wf()
        &&& self.root.spec_page_size() == LEAF_SPACE
    }

    /// What `inv` says of the pager.
    pub proof fn lemma_inv(&self)
        requires
            self.inv(),
        ensures
            self.pager().inv(),
            self.pager().in_bounds(self.root()),
            representable(self.entries()),
            sorted(self.entries()),
    {
    }

    /// A new, empty tree on `file`. The root takes the next new page
    /// of the file; nothing is written for it until the tree is
    /// flushed. A file that is neither new nor begins with a valid
    /// header is a `Serialization` error. When no page can be handed
    /// out any more the answer is `IndexOutofBounds` with the number
    /// the page would have had. Nothing else fails but the file.
    pub fn new(file: F) -> (r: Result<Tree<F>, Error>)
        ensures
            r matches Ok(tree) ==> {
                &&& tree.inv()
                &&& tree.entries() == Seq::<(Seq<u8>, Seq<u8>)>::empty()
                &&& tree.pager().page_count() == tree.root() + 1
                &&& tree.root() == pages_in(file.contents())
                &&& tree.pager().reliable() == file.reliable()
                &&& tree.pager().free_buffers() == CACHE_PAGES
                &&& tree.pager().cached_count() == 0
                &&& if file.contents().len() < PAGE_SIZE {
                    &&& tree.pager().header() == Header::spec_fresh()
                    &&& tree.pager().contents() == written(
                        file.contents(),
                        0,
                        Header::spec_fresh().page(),
                    )
                } else {
                    &&& tree.pager().header() == Header::decoding(file.contents())
                    &&& tree.pager().contents() == file.contents()
                }
            },
            match r {
                Ok(_) => opens(file.contents()) && addressable(pages_in(file.contents()) + 1),
                Err(Error::Io(_)) => !file.reliable(),
                Err(Error::Serialization) => !opens(file.contents()),
                Err(Error::IndexOutofBounds(id)) => {
                    &&& opens(file.contents())
                    &&& !addressable(pages_in(file.contents()) + 1)
                    &&& id.0 == pages_in(file.contents())
                },
                Err(_) => false,
            },
    {
        let mut pager = match DWALPager::recover(file) {
            Ok(pager) => pager,
            Err(e) => {
                return Err(e);
            },
        };
        if !pager.can_allocate() {
            return Err(Error::IndexOutofBounds(LogicalPageId(pager.next_page_id())));
        }
        proof {
            pager.lemma_inv();
        }
        let root_page_id = pager.new_page_id();
        let root = Page::new_leaf(LEAF_SPACE);
        Ok(Tree { pager, root_page_id, root })
    }

    /// The tree whose root was flushed to page `root_page_id` of
    /// `file`. A file that is neither new nor begins with a valid
    /// header is a `Serialization` error. A page that the file has
    /// not handed out is `IndexOutofBounds`; a new file has handed
    /// out none. The page must be a tree page that begins with a leaf
    /// whose pairs are in order; any other is a `Serialization`
    /// error. Nothing else fails but the file.
    pub fn open(file: F, root_page_id: LogicalPageId) -> (r: Result<Tree<F>, Error>)
        ensures
            match r {
                Ok(_) => {
                    &&& opens(file.contents())
                    &&& 1 <= root_page_id.0 < pages_in(file.contents())
                    &&& holds_leaf(page_at(file.contents(), root_page_id.0 as int))
                },
                Err(Error::Io(_)) => !file.reliable(),
                Err(Error::Serialization) => {
                    ||| !opens(file.contents())
                    ||| (1 <= root_page_id.0 < pages_in(file.contents()) && !holds_leaf(
                        page_at(file.contents(), root_page_id.0 as int),
                    ))
                },
                Err(Error::IndexOutofBounds(id)) => {
                    &&& opens(file.contents())
                    &&& !(1 <= root_page_id.0 < pages_in(file.contents()))
                    &&& id == root_page_id
                },
                Err(_) => false,
            },
            r matches Ok(tree) ==> {
                &&& tree.inv()
                &&& tree.root() == root_page_id.0
                &&& tree.pager().contents() == file.contents()
                &&& tree.pager().reliable() == file.reliable()
                &&& tree.pager().header() == Header::decoding(file.contents())
                &&& stored(tree.pager().page(tree.root()), tree.entries())
                &&& decoded_leaf(
                    tree.pager().page(tree.root()).subrange(
                        PAGE_HEADER_SIZE as int,
                        PAGE_SIZE as int,
                    ),
                ) == Some(tree.entries())
            },
    {
        let mut pager = match DWALPager::recover(file) {
            Ok(pager) => pager,
            Err(e) => {
                return Err(e);
            },
        };
        let version = pager.current_version();
        let page = match pager.read_at(root_page_id, version) {
            Ok(page) => page,
            Err(e) => {
                return Err(e);
            },
        };
        match PageHeader::decode(page.as_bytes()) {
            Some(header) => {
                if header.checksum != 0 || header.version != VERSION as u8
                    || header.page_type.code() != PageType::Btree.code() {
                    return Err(Error::Serialization);
                }
            },
            None => {
                return Err(Error::Serialization);
            },
        }
        let payload = copy_range(page.buf(), 0, LEAF_SPACE);
        proof {
            assert(payload@ =~= page@.subrange(PAGE_HEADER_SIZE as int, PAGE_SIZE as int));
        }
        let root = match Page::deserialize(LEAF_SPACE, payload) {
            Ok(root) => root,
            Err(e) => {
                return Err(e);
            },
        };
        Ok(Tree { pager, root_page_id, root })
    }

    /// The page the root is written to.
    pub fn root_page_id(&self) -> (id: LogicalPageId)
        ensures
            id.0 == self.root(),
    {
        self.root_page_id
    }

    /// Closes the tree and gives the file back. What was not flushed
    /// is lost.
    pub fn into_file(self) -> (file: F)
        ensures
            file.contents() == self.pager().contents(),
            file.durable() == self.pager().durable(),
            file.reliable() == self.pager().reliable(),
    {
        self.pager.into_file()
    }

    /// Puts a pair into the tree, at its place in the order of keys:
    /// behind every pair whose key is not greater.
    pub fn put(&mut self, key: Vec<u8>, value: Vec<u8>) -> (r: Result<(), Error>)
        requires
            old(self).inv(),
        ensures
            r.is_ok(),
            final(self).inv(),
            final(self).root() == old(self).root(),
            final(self).pager() == old(self).pager(),
            exists|at: int|
                is_rank(old(self).entries(), key@, at) && final(self).entries() ==
                    old(self).entries().insert(at, (key@, value@)),
    {
        let ghost pair = (key@, value@);
        self.root.put(key, value);
        proof {
            let before = old(self).root.leaf().entries();
            let after = self.root.leaf().entries();
            let at = choose|at: int|
                is_rank(before, pair.0, at) && after == before.insert(at, pair);
            assert(is_rank(old(self).entries(), pair.0, at) && self.entries() ==
                old(self).entries().insert(at, pair));
        }
        Ok(())
    }

    /// The pair under `key`: of several, the one put last. `None`
    /// when no pair has the key.
    pub fn get(&self, key: &Vec<u8>) -> (r: Result<Option<&(Vec<u8>, Vec<u8>)>, Error>)
        requires
            self.inv(),
        ensures
            r matches Ok(found) && {
                &&& found.is_some() == (exists|i: int|
                    0 <= i < self.entries().len() && (#[trigger] self.entries()[i]).0 == key@)
                &&& found matches Some(pair) ==> {
                    &&& pair.0@ == key@
                    &&& exists|at: int|
                        is_rank(self.entries(), key@, at) && at > 0 && self.entries()[at - 1] == (
                            pair.0@,
                            pair.1@,
                        )
                }
            },
    {
        let found = self.root.get(key);
        proof {
            let entries = self.root.leaf().entries();
            if found.is_some() {
                let pair = found.unwrap();
                let i = choose|i: int| 0 <= i < entries.len() && (#[trigger] entries[i]).0 == key@;
                let at = choose|at: int|
                    is_rank(entries, key@, at) && at > 0 && entries[at - 1] == (pair.0@, pair.1@);
                assert(is_rank(self.entries(), key@, at) && at > 0 && self.entries()[at - 1] == (
                    pair.0@,
                    pair.1@,
                ));
            }
        }
        Ok(found)
    }

    /// Whether the root, written out, fits its page.
    pub fn fits(&self) -> (b: bool)
        requires
            self.inv(),
        ensures
            b == (encoded_leaf(self.entries()).len() < LEAF_SPACE),
    {
        self.root.fits()
    }

    /// Writes the root to its page and commits. The root must fit its
    /// page: `fits` tells. Unless the file fails, the tree stays
    /// sound; when all goes well the root page holds the pairs of the
    /// tree, every other page is as it was, and the committed version
    /// has moved on by one.
    pub fn flush_all(&mut self) -> (r: Result<(), Error>)
        requires
            old(self).inv(),
            encoded_leaf(old(self).entries()).len() < LEAF_SPACE,
        ensures
            final(self).entries() == old(self).entries(),
            final(self).root() == old(self).root(),
            final(self).pager().reliable() == old(self).pager().reliable(),
            // While a buffer can be had and the version counter has
            // room, only the file can make the flush fail.
            old(self).pager().reliable() && old(self).pager().free_buffers() > 0
                && old(self).pager().header().commited_version + 1 < u64::MAX ==> r.is_ok(),
            old(self).pager().reliable() ==> !(r matches Err(Error::Io(_))),
            // The root page is written before the header that commits
            // it.
            ({
                let begun = old(self).pager().writes().push(old(self).root());
                ||| final(self).pager().writes() == old(self).pager().writes()
                ||| final(self).pager().writes() == begun
                ||| final(self).pager().writes() == begun.push(0)
            }),
            r.is_ok() ==> final(self).pager().writes() == old(self).pager().writes().push(
                old(self).root(),
            ).push(0),
            r.is_ok() ==> {
                &&& final(self).inv()
                &&& stored(final(self).pager().page(final(self).root()), final(self).entries())
                &&& opens(final(self).pager().contents())
                &&& pages_in(final(self).pager().contents()) == final(self).pager().page_count()
                &&& final(self).pager().durable() == final(self).pager().contents()
                &&& final(self).pager().header().commited_version ==
                    old(self).pager().header().commited_version + 1
                &&& forall|slot: usize|
                    slot >= 1 && slot != old(self).root() ==> final(self).pager().page(slot) ==
                        old(self).pager().page(slot)
            },
            r matches Err(e) ==> {
                &&& (e is Busy || e is Io || e is VersionOutOfRange)
                &&& !(e is Io) ==> final(self).inv()
            },
            old(self).pager().free_buffers() > 0 ==> !(r matches Err(Error::Busy)),
            (r matches Err(e) && e is Busy) ==> {
                &&& final(self).pager().same_buffers(&old(self).pager())
                &&& final(self).pager().contents() == old(self).pager().contents()
                &&& final(self).pager().header() == old(self).pager().header()
            },
            old(self).pager().free_buffers() <= final(self).pager().free_buffers() + 1,
    {
        let bytes = match self.root.serialize() {
            Ok(bytes) => bytes,
            Err(e) => {
                return Err(e);
            },
        };
        let mut buf = match self.pager.new_page_buffer() {
            Ok(buf) => buf,
            Err(e) => {
                return Err(e);
            },
        };
        buf.init_as(PageType::Btree);
        buf.put(PAGE_HEADER_SIZE, bytes.as_slice());
        let ghost image = buf@;
        let ghost before = self.pager.contents();
        let ghost header = PageHeader {
            checksum: 0,
            version: VERSION as u8,
            page_type: PageType::Btree,
        };
        proof {
            lemma_le_bytes_len(0, 4);
            assert(image =~= header.encoding().add(
                image.subrange(PAGE_HEADER_SIZE as int, PAGE_SIZE as int),
            ));
            header.lemma_round_trip(image.subrange(PAGE_HEADER_SIZE as int, PAGE_SIZE as int));
            assert(image.subrange(PAGE_HEADER_SIZE as int, PAGE_SIZE as int).subrange(
                0,
                bytes@.len() as int,
            ) =~= bytes@);
        }
        match self.pager.update_page(self.root_page_id, buf) {
            Ok(()) => {},
            Err(e) => {
                return Err(e);
            },
        }
        let ghost middle = self.pager.contents();
        let r = self.pager.commit();
        proof {
            if r.is_ok() {
                let root = self.root_page_id.0;
                let page = self.pager.header().page();
                self.pager.header().lemma_round_trip(Seq::empty());
                self.pager.header().lemma_written_read(middle);
                self.pager.lemma_inv();
                lemma_written_page(before, root as int, image);
                lemma_written_elsewhere(middle, 0, page, root as int);
                assert forall|slot: usize| slot >= 1 && slot != root implies self.pager.page(slot)
                    == old(self).pager.page(slot) by {
                    lemma_written_elsewhere(before, root as int, image, slot as int);
                    lemma_written_elsewhere(middle, 0, page, slot as int);
                }
            }
        }
        r
    }
}

} // verus!
