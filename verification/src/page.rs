//! Leaf pages: key/value pairs kept in the order of their keys.

use vstd::prelude::*;
use crate::error::Error;
use crate::pager::codec::{le_bytes, lemma_le_bytes_len, lemma_le_round_trip, lemma_pow256_values};

verus! {

/// Whether byte string `a` comes before `b`, or equals it, in
/// dictionary order.
pub open spec fn lex_le(a: Seq<u8>, b: Seq<u8>) -> bool
    decreases a.len(),
{
    if a.len() == 0 {
        true
    } else if b.len() == 0 {
        false
    } else if a[0] != b[0] {
        a[0] < b[0]
    } else {
        lex_le(a.drop_first(), b.drop_first())
    }
}

/// Of two byte strings one comes before the other, or they are equal.
pub proof fn lemma_lex_total(a: Seq<u8>, b: Seq<u8>)
    ensures
        lex_le(a, b) || lex_le(b, a),
    decreases a.len(),
{
    if a.len() > 0 && b.len() > 0 && a[0] == b[0] {
        lemma_lex_total(a.drop_first(), b.drop_first());
    }
}

/// Dictionary order is transitive.
pub proof fn lemma_lex_trans(a: Seq<u8>, b: Seq<u8>, c: Seq<u8>)
    requires
        lex_le(a, b),
        lex_le(b, c),
    ensures
        lex_le(a, c),
    decreases a.len(),
{
    if a.len() > 0 && b.len() > 0 && c.len() > 0 && a[0] == b[0] && b[0] == c[0] {
        lemma_lex_trans(a.drop_first(), b.drop_first(), c.drop_first());
    }
}

/// Two byte strings that come before each other are the same.
pub proof fn lemma_lex_antisym(a: Seq<u8>, b: Seq<u8>)
    requires
        lex_le(a, b),
        lex_le(b, a),
    ensures
        a == b,
    decreases a.len(),
{
    if a.len() > 0 && b.len() > 0 {
        lemma_lex_antisym(a.drop_first(), b.drop_first());
        assert(a =~= seq![a[0]].add(a.drop_first()));
    }
}

/// Every byte string comes before or equals itself.
pub proof fn lemma_lex_refl(a: Seq<u8>)
    ensures
        lex_le(a, a),
    decreases a.len(),
{
    if a.len() > 0 {
        lemma_lex_refl(a.drop_first());
    }
}

/// Whether `a` comes before `b`, or equals it, in dictionary order.
pub fn key_le(a: &[u8], b: &[u8]) -> (r: bool)
    ensures
        r == lex_le(a@, b@),
{
    let n: usize = a.len();
    let m: usize = b.len();
    let mut i: usize = 0;
    proof {
        assert(a@.skip(0) =~= a@);
        assert(b@.skip(0) =~= b@);
    }
    while i < n && i < m
        invariant
            i <= n,
            i <= m,
            n == a@.len(),
            m == b@.len(),
            lex_le(a@, b@) == lex_le(a@.skip(i as int), b@.skip(i as int)),
        decreases n - i,
    {
        if a[i] != b[i] {
            return a[i] < b[i];
        }
        proof {
            assert(a@.skip(i as int).drop_first() =~= a@.skip(i + 1));
            assert(b@.skip(i as int).drop_first() =~= b@.skip(i + 1));
        }
        i = i + 1;
    }
    i == n
}

/// The pairs that a list of key/value buffers holds.
pub open spec fn pairs_view(nodes: Seq<(Vec<u8>, Vec<u8>)>) -> Seq<(Seq<u8>, Seq<u8>)> {
    Seq::new(nodes.len(), |i: int| (nodes[i].0@, nodes[i].1@))
}

/// Whether the pairs are in the order of their keys.
pub open spec fn sorted(pairs: Seq<(Seq<u8>, Seq<u8>)>) -> bool {
    forall|i: int, j: int| 0 <= i < j < pairs.len() ==> lex_le(#[trigger] pairs[i].0,
        #[trigger] pairs[j].0)
}

/// Whether `at` is where a pair with `key` goes: behind every pair
/// whose key is not greater, before every pair whose key is.
pub open spec fn is_rank(pairs: Seq<(Seq<u8>, Seq<u8>)>, key: Seq<u8>, at: int) -> bool {
    &&& 0 <= at <= pairs.len()
    &&& forall|i: int| 0 <= i < at ==> lex_le(#[trigger] pairs[i].0, key)
    &&& forall|i: int| at <= i < pairs.len() ==> !lex_le(#[trigger] pairs[i].0, key)
}

/// `bincode::ErrorKind`, which says why bincode refused. It is only
/// told apart from success.
#[verifier::external_type_specification]
#[verifier::external_body]
pub struct ExBincodeErrorKind(::bincode::ErrorKind);

/// A byte string as bincode writes it: its length as eight
/// little-endian bytes, then the bytes.
pub open spec fn encoded_blob(bytes: Seq<u8>) -> Seq<u8> {
    le_bytes(bytes.len(), 8).add(bytes)
}

/// A pair as bincode writes it: the key, then the value.
pub open spec fn encoded_pair(pair: (Seq<u8>, Seq<u8>)) -> Seq<u8> {
    encoded_blob(pair.0).add(encoded_blob(pair.1))
}

/// Pairs as bincode writes them: one after the other.
pub open spec fn encoded_pairs(pairs: Seq<(Seq<u8>, Seq<u8>)>) -> Seq<u8>
    decreases pairs.len(),
{
    if pairs.len() == 0 {
        Seq::empty()
    } else {
        encoded_pairs(pairs.drop_last()).add(encoded_pair(pairs.last()))
    }
}

/// A leaf as bincode writes it: the number of pairs as eight
/// little-endian bytes, then the pairs.
pub open spec fn encoded_leaf(pairs: Seq<(Seq<u8>, Seq<u8>)>) -> Seq<u8> {
    le_bytes(pairs.len(), 8).add(encoded_pairs(pairs))
}

/// `bincode::serialize` on a list of pairs. It succeeds, and the
/// bytes are the list in bincode's fixed-width little-endian format.
/// Success is bincode's own: it sets no limit on the size, every list
/// knows its length, and the bytes go into a vector, which takes
/// them all; nothing else can make it fail.
#[verifier::external_body]
fn bincode_serialize(nodes: &Vec<(Vec<u8>, Vec<u8>)>) -> (r: Result<
    Vec<u8>,
    Box<::bincode::ErrorKind>,
>)
    ensures
        r.is_ok(),
        r matches Ok(bytes) ==> bytes@ == encoded_leaf(pairs_view(nodes@)),
{
    ::bincode::serialize(nodes)
}

/// `bincode::deserialize` to a list of pairs. It succeeds exactly
/// when the bytes begin with some list in bincode's format, and then
/// returns that list; bytes behind it are ignored. It reads a count,
/// then for each pair two byte strings, each a length and its bytes,
/// and fails only where the bytes end too soon: it sets no limit, and
/// a length that the bytes bear out fits the machine.
#[verifier::external_body]
fn bincode_deserialize(bytes: &[u8]) -> (r: Result<
    Vec<(Vec<u8>, Vec<u8>)>,
    Box<::bincode::ErrorKind>,
>)
    ensures
        r.is_ok() == (exists|pairs: Seq<(Seq<u8>, Seq<u8>)>| begins_with_leaf(bytes@, pairs)),
        r matches Ok(nodes) ==> encoded_leaf(pairs_view(nodes@)).is_prefix_of(bytes@),
{
    ::bincode::deserialize(bytes)
}

/// The pairs of a list grow its encoding: a longer list is never
/// shorter when written.
pub proof fn lemma_encoded_pairs_len(pairs: Seq<(Seq<u8>, Seq<u8>)>, upto: int)
    requires
        0 <= upto <= pairs.len(),
    ensures
        encoded_pairs(pairs.take(upto)).len() <= encoded_pairs(pairs).len(),
        upto < pairs.len() ==> encoded_pairs(pairs.take(upto + 1)).len() == encoded_pairs(
            pairs.take(upto),
        ).len() + 16 + pairs[upto].0.len() + pairs[upto].1.len(),
    decreases pairs.len() - upto,
{
    if upto < pairs.len() {
        let longer = pairs.take(upto + 1);
        assert(longer.drop_last() =~= pairs.take(upto));
        lemma_le_bytes_len(pairs[upto].0.len(), 8);
        lemma_le_bytes_len(pairs[upto].1.len(), 8);
        lemma_encoded_pairs_len(pairs, upto + 1);
    } else {
        assert(pairs.take(upto) =~= pairs);
    }
}

/// Whether every length in `pairs` can be written in eight bytes.
pub open spec fn representable(pairs: Seq<(Seq<u8>, Seq<u8>)>) -> bool {
    &&& pairs.len() <= u64::MAX
    &&& forall|i: int|
        0 <= i < pairs.len() ==> (#[trigger] pairs[i]).0.len() <= u64::MAX && pairs[i].1.len()
            <= u64::MAX
}

/// Whether `bytes` begin with the list `pairs` as bincode writes it.
pub open spec fn begins_with_leaf(bytes: Seq<u8>, pairs: Seq<(Seq<u8>, Seq<u8>)>) -> bool {
    representable(pairs) && encoded_leaf(pairs).is_prefix_of(bytes)
}

/// The list of pairs that `bytes` begin with, as bincode writes it;
/// `None` where they begin with none. There is never more than one.
pub open spec fn decoded_leaf(bytes: Seq<u8>) -> Option<Seq<(Seq<u8>, Seq<u8>)>> {
    if exists|pairs: Seq<(Seq<u8>, Seq<u8>)>| begins_with_leaf(bytes, pairs) {
        Some(choose|pairs: Seq<(Seq<u8>, Seq<u8>)>| begins_with_leaf(bytes, pairs))
    } else {
        None
    }
}

/// Pairs held in vectors have lengths that can be written in eight
/// bytes.
pub proof fn lemma_vectors_representable(nodes: Seq<(Vec<u8>, Vec<u8>)>)
    requires
        nodes.len() <= usize::MAX,
    ensures
        representable(pairs_view(nodes)),
{
    let pairs = pairs_view(nodes);
    assert forall|i: int| 0 <= i < pairs.len() implies (#[trigger] pairs[i]).0.len() <= u64::MAX
        && pairs[i].1.len() <= u64::MAX by {
        vstd::std_specs::vec::axiom_spec_len(&nodes[i].0);
        vstd::std_specs::vec::axiom_spec_len(&nodes[i].1);
    }
}

/// A number below `2^64` is told by its eight bytes.
proof fn lemma_length_told(x: nat, y: nat, bytes: Seq<u8>, at: int)
    requires
        x <= u64::MAX,
        y <= u64::MAX,
        0 <= at,
        at + 8 <= bytes.len(),
        bytes.subrange(at, at + 8) == le_bytes(x, 8),
        bytes.subrange(at, at + 8) == le_bytes(y, 8),
    ensures
        x == y,
{
    lemma_pow256_values();
    lemma_le_round_trip(x, 8);
    lemma_le_round_trip(y, 8);
}

/// A byte string is told by any bytes its encoding begins: two
/// strings whose encodings both stand at `at` in `bytes` are the same.
proof fn lemma_blob_told(u: Seq<u8>, v: Seq<u8>, bytes: Seq<u8>, at: int)
    requires
        u.len() <= u64::MAX,
        v.len() <= u64::MAX,
        0 <= at,
        at + encoded_blob(u).len() <= bytes.len(),
        at + encoded_blob(v).len() <= bytes.len(),
        bytes.subrange(at, at + encoded_blob(u).len()) == encoded_blob(u),
        bytes.subrange(at, at + encoded_blob(v).len()) == encoded_blob(v),
    ensures
        u == v,
{
    lemma_le_bytes_len(u.len(), 8);
    lemma_le_bytes_len(v.len(), 8);
    let eu = encoded_blob(u);
    let ev = encoded_blob(v);
    assert(bytes.subrange(at, at + 8) =~= eu.subrange(0, 8));
    assert(bytes.subrange(at, at + 8) =~= ev.subrange(0, 8));
    assert(eu.subrange(0, 8) =~= le_bytes(u.len(), 8));
    assert(ev.subrange(0, 8) =~= le_bytes(v.len(), 8));
    lemma_length_told(u.len(), v.len(), bytes, at);
    assert(u =~= eu.subrange(8, 8 + u.len() as int));
}

/// A pair is told by any bytes its encoding begins.
proof fn lemma_pair_told(p: (Seq<u8>, Seq<u8>), q: (Seq<u8>, Seq<u8>), bytes: Seq<u8>, at: int)
    requires
        p.0.len() <= u64::MAX,
        p.1.len() <= u64::MAX,
        q.0.len() <= u64::MAX,
        q.1.len() <= u64::MAX,
        0 <= at,
        at + encoded_pair(p).len() <= bytes.len(),
        at + encoded_pair(q).len() <= bytes.len(),
        bytes.subrange(at, at + encoded_pair(p).len()) == encoded_pair(p),
        bytes.subrange(at, at + encoded_pair(q).len()) == encoded_pair(q),
    ensures
        p == q,
{
    let ep = encoded_pair(p);
    let eq = encoded_pair(q);
    let kp = encoded_blob(p.0);
    let kq = encoded_blob(q.0);
    assert(bytes.subrange(at, at + kp.len()) =~= ep.subrange(0, kp.len() as int));
    assert(ep.subrange(0, kp.len() as int) =~= kp);
    assert(bytes.subrange(at, at + kq.len()) =~= eq.subrange(0, kq.len() as int));
    assert(eq.subrange(0, kq.len() as int) =~= kq);
    lemma_blob_told(p.0, q.0, bytes, at);
    let vp = encoded_blob(p.1);
    let vq = encoded_blob(q.1);
    let next = at + kp.len();
    assert(bytes.subrange(next, next + vp.len()) =~= ep.subrange(kp.len() as int, ep.len() as int));
    assert(ep.subrange(kp.len() as int, ep.len() as int) =~= vp);
    assert(bytes.subrange(next, next + vq.len()) =~= eq.subrange(kq.len() as int, eq.len() as int));
    assert(eq.subrange(kq.len() as int, eq.len() as int) =~= vq);
    lemma_blob_told(p.1, q.1, bytes, next);
}

/// The encoding of the first pairs of a list begins the encoding of
/// the list.
proof fn lemma_encoded_pairs_prefix(pairs: Seq<(Seq<u8>, Seq<u8>)>, upto: int)
    requires
        0 <= upto <= pairs.len(),
    ensures
        encoded_pairs(pairs.take(upto)).is_prefix_of(encoded_pairs(pairs)),
    decreases pairs.len() - upto,
{
    if upto < pairs.len() {
        let longer = pairs.take(upto + 1);
        assert(longer.drop_last() =~= pairs.take(upto));
        lemma_encoded_pairs_prefix(pairs, upto + 1);
    } else {
        assert(pairs.take(upto) =~= pairs);
    }
}

proof fn lemma_pairs_told(
    a: Seq<(Seq<u8>, Seq<u8>)>,
    b: Seq<(Seq<u8>, Seq<u8>)>,
    bytes: Seq<u8>,
    upto: int,
)
    requires
        representable(a),
        representable(b),
        a.len() == b.len(),
        0 <= upto <= a.len(),
        encoded_pairs(a).is_prefix_of(bytes),
        encoded_pairs(b).is_prefix_of(bytes),
    ensures
        a.take(upto) == b.take(upto),
    decreases upto,
{
    if upto > 0 {
        lemma_pairs_told(a, b, bytes, upto - 1);
        let k = upto - 1;
        let done = encoded_pairs(a.take(k));
        let at = done.len() as int;
        assert(a.take(upto).drop_last() =~= a.take(k));
        assert(b.take(upto).drop_last() =~= b.take(k));
        lemma_encoded_pairs_prefix(a, upto);
        lemma_encoded_pairs_prefix(b, upto);
        let ea = encoded_pairs(a.take(upto));
        let eb = encoded_pairs(b.take(upto));
        assert(bytes.subrange(0, ea.len() as int) =~= ea);
        assert(bytes.subrange(0, eb.len() as int) =~= eb);
        assert(bytes.subrange(at, at + encoded_pair(a[k]).len()) =~= encoded_pair(a[k])) by {
            assert(ea.subrange(at, ea.len() as int) =~= encoded_pair(a[k]));
        }
        assert(bytes.subrange(at, at + encoded_pair(b[k]).len()) =~= encoded_pair(b[k])) by {
            assert(eb.subrange(at, eb.len() as int) =~= encoded_pair(b[k]));
        }
        lemma_pair_told(a[k], b[k], bytes, at);
    }
}

/// A leaf is told by any bytes its encoding begins: two lists of
/// pairs whose encodings both begin `bytes` are the same list. So
/// whatever is read back from bytes that were written is what was
/// written.
pub proof fn lemma_encoded_leaf_told(
    a: Seq<(Seq<u8>, Seq<u8>)>,
    b: Seq<(Seq<u8>, Seq<u8>)>,
    bytes: Seq<u8>,
)
    requires
        representable(a),
        representable(b),
        encoded_leaf(a).is_prefix_of(bytes),
        encoded_leaf(b).is_prefix_of(bytes),
    ensures
        a == b,
{
    lemma_le_bytes_len(a.len(), 8);
    lemma_le_bytes_len(b.len(), 8);
    let ea = encoded_leaf(a);
    let eb = encoded_leaf(b);
    assert(bytes.subrange(0, 8) =~= ea.subrange(0, 8));
    assert(bytes.subrange(0, 8) =~= eb.subrange(0, 8));
    assert(ea.subrange(0, 8) =~= le_bytes(a.len(), 8));
    assert(eb.subrange(0, 8) =~= le_bytes(b.len(), 8));
    lemma_length_told(a.len(), b.len(), bytes, 0);
    let rest = bytes.subrange(8, bytes.len() as int);
    assert(encoded_pairs(a) =~= ea.subrange(8, ea.len() as int));
    assert(encoded_pairs(b) =~= eb.subrange(8, eb.len() as int));
    lemma_pairs_told(a, b, rest, a.len() as int);
    assert(a.take(a.len() as int) =~= a);
}

/// What was written is read back: bytes that begin with the encoding
/// of a list decode to that list, whatever follows it.
pub proof fn lemma_read_back(pairs: Seq<(Seq<u8>, Seq<u8>)>, bytes: Seq<u8>)
    requires
        representable(pairs),
        encoded_leaf(pairs).is_prefix_of(bytes),
    ensures
        decoded_leaf(bytes) == Some(pairs),
{
    assert(begins_with_leaf(bytes, pairs));
    let found = choose|found: Seq<(Seq<u8>, Seq<u8>)>| begins_with_leaf(bytes, found);
    lemma_encoded_leaf_told(found, pairs, bytes);
}

/// Pairs that are in order two by two are in order throughout.
proof fn lemma_sorted_by_neighbours(pairs: Seq<(Seq<u8>, Seq<u8>)>, i: int, j: int)
    requires
        forall|k: int| 0 <= k < pairs.len() - 1 ==> lex_le(#[trigger] pairs[k].0, pairs[k + 1].0),
        0 <= i < j < pairs.len(),
    ensures
        lex_le(pairs[i].0, pairs[j].0),
    decreases j - i,
{
    if i + 1 < j {
        lemma_sorted_by_neighbours(pairs, i, j - 1);
        lemma_lex_trans(pairs[i].0, pairs[j - 1].0, pairs[j].0);
    }
}

/// A page of the tree.
#[derive(Debug)]
pub struct Page {
    page_size: usize,
    pub kind: Kind,
}

/// What a page of the tree is.
#[derive(Debug)]
pub enum Kind {
    Leaf(Leaf),
}

/// A leaf: key/value pairs in the order of their keys. Pairs with the
/// same key stand in the order they were put.
#[derive(Debug)]
pub struct Leaf {
    nodes: Vec<(Vec<u8>, Vec<u8>)>,
}

impl Page {
    /// The size the page may take when written out.
    pub closed spec fn spec_page_size(&self) -> usize {
        self.page_size
    }

    /// The leaf that the page is.
    pub closed spec fn leaf(&self) -> Leaf {
        match self.kind {
            Kind::Leaf(leaf) => leaf,
        }
    }

    /// An empty leaf page.
    pub fn new_leaf(page_size: usize) -> (page: Page)
        ensures
            page.spec_page_size() == page_size,
            page.leaf().wf(),
            page.leaf().entries() == Seq::<(Seq<u8>, Seq<u8>)>::empty(),
    {
        let kind = Kind::Leaf(Leaf::new());
        Page { page_size, kind }
    }

    /// The size the page may take when written out.
    pub fn page_size(&self) -> (n: usize)
        ensures
            n == self.spec_page_size(),
    {
        self.page_size
    }

    /// Puts a pair into the page's leaf, at its place in the order of
    /// keys.
    pub fn put(&mut self, key: Vec<u8>, value: Vec<u8>)
        requires
            old(self).leaf().wf(),
        ensures
            final(self).leaf().wf(),
            final(self).spec_page_size() == old(self).spec_page_size(),
            exists|at: int|
                is_rank(old(self).leaf().entries(), key@, at) && final(self).leaf().entries()
                    == old(self).leaf().entries().insert(at, (key@, value@)),
    {
        match &mut self.kind {
            Kind::Leaf(leaf) => leaf.put(key, value),
        }
    }

    /// The pair under `key` in the page's leaf: of several, the one
    /// put last.
    pub fn get(&self, key: &Vec<u8>) -> (r: Option<&(Vec<u8>, Vec<u8>)>)
        requires
            self.leaf().wf(),
        ensures
            r.is_some() == (exists|i: int|
                0 <= i < self.leaf().entries().len() && (#[trigger] self.leaf().entries()[i]).0
                    == key@),
            r matches Some(pair) ==> {
                &&& pair.0@ == key@
                &&& exists|at: int|
                    is_rank(self.leaf().entries(), key@, at) && at > 0 && self.leaf().entries()[at
                        - 1] == (pair.0@, pair.1@)
            },
    {
        match &self.kind {
            Kind::Leaf(leaf) => leaf.get(key),
        }
    }

    /// A leaf page of the pairs `nodes`, which must be in the order
    /// of their keys; pairs out of order are a `Serialization` error.
    pub fn from_nodes(page_size: usize, nodes: Vec<(Vec<u8>, Vec<u8>)>) -> (r: Result<Page, Error>)
        ensures
            r.is_ok() == sorted(pairs_view(nodes@)),
            r matches Ok(page) ==> {
                &&& page.spec_page_size() == page_size
                &&& page.leaf().wf()
                &&& page.leaf().entries() == pairs_view(nodes@)
            },
            r matches Err(e) ==> e is Serialization,
    {
        let ghost pairs = pairs_view(nodes@);
        let n: usize = nodes.len();
        let mut i: usize = 1;
        while i < n
            invariant
                1 <= i,
                n == nodes@.len(),
                pairs == pairs_view(nodes@),
                forall|k: int| 0 <= k < i - 1 ==> lex_le(#[trigger] pairs[k].0, pairs[k + 1].0),
            decreases n - i,
        {
            assert(pairs[i - 1].0 == nodes@[i - 1].0@);
            assert(pairs[i as int].0 == nodes@[i as int].0@);
            if !key_le(nodes[i - 1].0.as_slice(), nodes[i].0.as_slice()) {
                return Err(Error::Serialization);
            }
            i = i + 1;
        }
        proof {
            assert forall|a: int, b: int| 0 <= a < b < pairs.len() implies lex_le(
                #[trigger] pairs[a].0,
                #[trigger] pairs[b].0,
            ) by {
                lemma_sorted_by_neighbours(pairs, a, b);
            }
            lemma_vectors_representable(nodes@);
        }
        Ok(Page { page_size, kind: Kind::Leaf(Leaf { nodes }) })
    }

    /// Reads a leaf page from `buf` as bincode wrote it. Bytes that
    /// bincode cannot read, or whose pairs are out of order, are a
    /// `Serialization` error.
    pub fn deserialize(page_size: usize, buf: Vec<u8>) -> (r: Result<Page, Error>)
        ensures
            r.is_ok() == (decoded_leaf(buf@) matches Some(pairs) && sorted(pairs)),
            r matches Ok(page) ==> {
                &&& page.spec_page_size() == page_size
                &&& page.leaf().wf()
                &&& decoded_leaf(buf@) == Some(page.leaf().entries())
                &&& encoded_leaf(page.leaf().entries()).is_prefix_of(buf@)
            },
            r matches Err(e) ==> e is Serialization,
    {
        match bincode_deserialize(buf.as_slice()) {
            Ok(nodes) => {
                proof {
                    vstd::std_specs::vec::axiom_spec_len(&nodes);
                    lemma_vectors_representable(nodes@);
                    lemma_read_back(pairs_view(nodes@), buf@);
                }
                Page::from_nodes(page_size, nodes)
            },
            Err(_) => Err(Error::Serialization),
        }
    }

    /// Whether the page, written out, is shorter than its page size.
    pub fn fits(&self) -> (b: bool)
        ensures
            b == (encoded_leaf(self.leaf().entries()).len() < self.spec_page_size()),
    {
        match &self.kind {
            Kind::Leaf(leaf) => {
                let ghost pairs = leaf.entries();
                let n: usize = leaf.nodes.len();
                proof {
                    lemma_le_bytes_len(pairs.len(), 8);
                }
                if self.page_size <= 8 {
                    return false;
                }
                let mut total: usize = 8;
                let mut i: usize = 0;
                while i < n
                    invariant
                        i <= n,
                        n == pairs.len(),
                        pairs == pairs_view(leaf.nodes@),
                        pairs == self.leaf().entries(),
                        total == 8 + encoded_pairs(pairs.take(i as int)).len(),
                        total < self.page_size,
                        encoded_leaf(pairs).len() == 8 + encoded_pairs(pairs).len(),
                    decreases n - i,
                {
                    proof {
                        lemma_encoded_pairs_len(pairs, i as int);
                        lemma_encoded_pairs_len(pairs, i + 1);
                    }
                    let key_len: usize = leaf.nodes[i].0.len();
                    let value_len: usize = leaf.nodes[i].1.len();
                    let room: usize = self.page_size - total;
                    if room <= 16 || key_len >= room - 16 || value_len >= room - 16 - key_len {
                        return false;
                    }
                    total = total + 16 + key_len + value_len;
                    i = i + 1;
                }
                proof {
                    assert(pairs.take(n as int) =~= pairs);
                }
                true
            },
        }
    }

    /// Writes the page out with bincode. A page too large for its
    /// page size must not be written: `fits` tells.
    pub fn serialize(&self) -> (r: Result<Vec<u8>, Error>)
        requires
            encoded_leaf(self.leaf().entries()).len() < self.spec_page_size(),
        ensures
            r.is_ok(),
            r matches Ok(buf) ==> buf@ == encoded_leaf(self.leaf().entries()) && buf@.len()
                < self.spec_page_size(),
    {
        let buf = match &self.kind {
            Kind::Leaf(leaf) => match bincode_serialize(&leaf.nodes) {
                Ok(buf) => buf,
                Err(_) => {
                    return Err(Error::Serialization);
                },
            },
        };
        Ok(buf)
    }
}

impl Default for Leaf {
    /// The empty leaf.
    fn default() -> (leaf: Leaf)
        ensures
            leaf.wf(),
            leaf.entries() == Seq::<(Seq<u8>, Seq<u8>)>::empty(),
    {
        Leaf::new()
    }
}

impl Leaf {
    /// The pairs of the leaf, in order.
    pub closed spec fn entries(&self) -> Seq<(Seq<u8>, Seq<u8>)> {
        pairs_view(self.nodes@)
    }

    /// The pairs are in the order of their keys, and every length can
    /// be written in eight bytes.
    pub open spec fn wf(&self) -> bool {
        sorted(self.entries()) && representable(self.entries())
    }

    /// An empty leaf.
    pub fn new() -> (leaf: Leaf)
        ensures
            leaf.wf(),
            leaf.entries() == Seq::<(Seq<u8>, Seq<u8>)>::empty(),
    {
        let leaf = Leaf { nodes: Vec::new() };
        leaf
    }

    /// The number of pairs.
    pub fn len(&self) -> (n: usize)
        ensures
            n == self.entries().len(),
    {
        self.nodes.len()
    }

    /// Where a pair with `key` goes. The list is halved at each step.
    fn rank(&self, key: &[u8]) -> (at: usize)
        requires
            self.wf(),
        ensures
            is_rank(self.entries(), key@, at as int),
    {
        let ghost pairs = self.entries();
        let mut lo: usize = 0;
        let mut hi: usize = self.nodes.len();
        while lo < hi
            invariant
                pairs == self.entries(),
                sorted(pairs),
                lo <= hi <= pairs.len(),
                forall|i: int| 0 <= i < lo ==> lex_le(#[trigger] pairs[i].0, key@),
                forall|i: int| hi <= i < pairs.len() ==> !lex_le(#[trigger] pairs[i].0, key@),
            decreases hi - lo,
        {
            let mid: usize = lo + (hi - lo) / 2;
            if key_le(self.nodes[mid].0.as_slice(), key) {
                assert forall|i: int| 0 <= i < mid + 1 implies lex_le(
                    #[trigger] pairs[i].0,
                    key@,
                ) by {
                    if i < mid {
                        lemma_lex_trans(pairs[i].0, pairs[mid as int].0, key@);
                    }
                }
                lo = mid + 1;
            } else {
                assert forall|i: int| mid <= i < pairs.len() implies !lex_le(
                    #[trigger] pairs[i].0,
                    key@,
                ) by {
                    if i > mid && lex_le(pairs[i].0, key@) {
                        lemma_lex_trans(pairs[mid as int].0, pairs[i].0, key@);
                    }
                }
                hi = mid;
            }
        }
        lo
    }

    /// Puts a pair into the leaf, at its place in the order of keys:
    /// behind every pair whose key is not greater.
    pub fn put(&mut self, key: Vec<u8>, value: Vec<u8>)
        requires
            old(self).wf(),
        ensures
            final(self).wf(),
            exists|at: int|
                is_rank(old(self).entries(), key@, at) && final(self).entries() ==
                    old(self).entries().insert(at, (key@, value@)),
    {
        let at: usize = self.rank(key.as_slice());
        let ghost before = self.entries();
        self.nodes.insert(at, (key, value));
        let count: usize = self.nodes.len();
        proof {
            lemma_vectors_representable(self.nodes@);
            let after = self.entries();
            assert(after =~= before.insert(at as int, (key@, value@)));
            assert forall|i: int, j: int| 0 <= i < j < after.len() implies lex_le(
                #[trigger] after[i].0,
                #[trigger] after[j].0,
            ) by {
                if j < at {
                } else if i > at {
                } else if i == at {
                    lemma_lex_total(before[j - 1].0, key@);
                } else if j == at {
                }
            }
        }
    }

    /// The pair under `key`: of several, the one put last. `None`
    /// when no pair has the key.
    pub fn get(&self, key: &Vec<u8>) -> (r: Option<&(Vec<u8>, Vec<u8>)>)
        requires
            self.wf(),
        ensures
            r.is_some() == (exists|i: int|
                0 <= i < self.entries().len() && (#[trigger] self.entries()[i]).0 == key@),
            r matches Some(pair) ==> {
                &&& pair.0@ == key@
                &&& exists|at: int|
                    is_rank(self.entries(), key@, at) && at > 0 && self.entries()[at - 1] == (
                        pair.0@,
                        pair.1@,
                    )
            },
    {
        let at: usize = self.rank(key.as_slice());
        let ghost pairs = self.entries();
        if at > 0 {
            assert(pairs[at - 1].0 == self.nodes@[at - 1].0@);
            if key_le(key.as_slice(), self.nodes[at - 1].0.as_slice()) {
                proof {
                    lemma_lex_antisym(key@, pairs[at - 1].0);
                }
                return Some(&self.nodes[at - 1]);
            }
        }
        proof {
            assert forall|i: int| 0 <= i < pairs.len() implies (#[trigger] pairs[i]).0 != key@ by {
                if pairs[i].0 == key@ {
                    lemma_lex_refl(key@);
                }
            }
        }
        None
    }
}

} // verus!
