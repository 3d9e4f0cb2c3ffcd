//! Little-endian integers inside byte buffers.
//!
//! Every on-disk structure of the pager is a run of fixed-width
//! little-endian integers. This module states what those bytes are and
//! proves the two loops that write and read them.

use vstd::prelude::*;

verus! {

/// 256 to the power `n`.
pub open spec fn pow256(n: nat) -> nat
    decreases n,
{
    if n == 0 {
        1
    } else {
        256 * pow256((n - 1) as nat)
    }
}

/// The first `width` little-endian digits of `x`, low-order byte first.
pub open spec fn le_bytes(x: nat, width: nat) -> Seq<u8>
    decreases width,
{
    if width == 0 {
        Seq::empty()
    } else {
        seq![(x % 256) as u8].add(le_bytes(x / 256, (width - 1) as nat))
    }
}

/// The number whose little-endian digits are `s`.
pub open spec fn le_value(s: Seq<u8>) -> nat
    decreases s.len(),
{
    if s.len() == 0 {
        0
    } else {
        s[0] as nat + 256 * le_value(s.drop_first())
    }
}

/// `le_bytes` yields exactly `width` bytes.
pub proof fn lemma_le_bytes_len(x: nat, width: nat)
    ensures
        le_bytes(x, width).len() == width,
    decreases width,
{
    if width > 0 {
        lemma_le_bytes_len(x / 256, (width - 1) as nat);
    }
}

/// A digit string of length `n` denotes a number below `256^n`.
pub proof fn lemma_le_value_bound(s: Seq<u8>)
    ensures
        le_value(s) < pow256(s.len()),
    decreases s.len(),
{
    if s.len() > 0 {
        lemma_le_value_bound(s.drop_first());
    }
}

/// The powers of 256 up to the eighth, the widths a `u64` can hold.
pub proof fn lemma_pow256_values()
    ensures
        pow256(0) == 1,
        pow256(1) == 0x100,
        pow256(2) == 0x1_0000,
        pow256(3) == 0x100_0000,
        pow256(4) == 0x1_0000_0000,
        pow256(5) == 0x100_0000_0000,
        pow256(6) == 0x1_0000_0000_0000,
        pow256(7) == 0x100_0000_0000_0000,
        pow256(8) == 0x1_0000_0000_0000_0000,
{
    reveal_with_fuel(pow256, 10);
}

/// Decoding undoes encoding for every number that fits the width.
pub proof fn lemma_le_round_trip(x: nat, width: nat)
    requires
        x < pow256(width),
    ensures
        le_value(le_bytes(x, width)) == x,
    decreases width,
{
    if width > 0 {
        let rest = le_bytes(x / 256, (width - 1) as nat);
        let all = le_bytes(x, width);
        assert(all.drop_first() =~= rest);
        lemma_le_round_trip(x / 256, (width - 1) as nat);
    }
}

/// Encoding undoes decoding: a digit string is the encoding of its value.
pub proof fn lemma_le_bytes_of_value(s: Seq<u8>)
    ensures
        le_bytes(le_value(s), s.len()) == s,
    decreases s.len(),
{
    if s.len() > 0 {
        let t = s.drop_first();
        lemma_le_bytes_of_value(t);
    }
}

/// `buf` with the bytes from `at` on replaced by `bytes`.
pub open spec fn splice(buf: Seq<u8>, at: int, bytes: Seq<u8>) -> Seq<u8> {
    buf.subrange(0, at).add(bytes).add(buf.subrange(at + bytes.len(), buf.len() as int))
}

/// Writes `x` as `width` little-endian bytes at `buf[at..]`.
pub fn write_le(buf: &mut [u8], at: usize, x: u64, width: usize)
    requires
        at + width <= old(buf)@.len(),
    ensures
        final(buf)@ == splice(old(buf)@, at as int, le_bytes(x as nat, width as nat)),
{
    let ghost before = buf@;
    let total: usize = buf.len();
    let mut rest: u64 = x;
    let mut i: usize = 0;
    while i < width
        invariant
            i <= width,
            at + width <= total,
            at + width <= before.len(),
            buf@.len() == before.len(),
            buf@.subrange(0, at as int) == before.subrange(0, at as int),
            buf@.subrange(at + width, before.len() as int) == before.subrange(
                at + width,
                before.len() as int,
            ),
            le_bytes(x as nat, width as nat) == buf@.subrange(at as int, at + i).add(
                le_bytes(rest as nat, (width - i) as nat),
            ),
        decreases width - i,
    {
        let ghost prev = buf@;
        let digit: u8 = (rest % 256) as u8;
        buf[at + i] = digit;
        proof {
            let tail = le_bytes((rest / 256) as nat, (width - i - 1) as nat);
            assert(buf@.subrange(at + width, before.len() as int) =~= prev.subrange(
                at + width,
                before.len() as int,
            ));
            assert(buf@.subrange(at as int, at + i + 1) =~= prev.subrange(at as int, at + i).add(
                seq![digit],
            ));
            assert(prev.subrange(at as int, at + i).add(seq![digit].add(tail)) =~= prev.subrange(
                at as int,
                at + i,
            ).add(seq![digit]).add(tail));
        }
        rest = rest / 256;
        i = i + 1;
    }
    proof {
        lemma_le_bytes_len(x as nat, width as nat);
    }
}

/// A copy of the `len` bytes at `src[from..]`.
pub fn copy_range(src: &[u8], from: usize, len: usize) -> (out: Vec<u8>)
    requires
        from + len <= src@.len(),
    ensures
        out@ == src@.subrange(from as int, from + len),
{
    let total: usize = src.len();
    let mut out: Vec<u8> = Vec::with_capacity(len);
    let mut i: usize = 0;
    while i < len
        invariant
            i <= len,
            from + len <= total,
            total == src@.len(),
            out@ == src@.subrange(from as int, from + i),
        decreases len - i,
    {
        out.push(src[from + i]);
        i = i + 1;
    }
    out
}

/// Reads the `width` little-endian bytes at `buf[at..]` as a number.
pub fn read_le(buf: &[u8], at: usize, width: usize) -> (x: u64)
    requires
        at + width <= buf@.len(),
        width <= 8,
    ensures
        x as nat == le_value(buf@.subrange(at as int, at + width)),
{
    let total: usize = buf.len();
    let mut acc: u64 = 0;
    let mut i: usize = width;
    while i > 0
        invariant
            i <= width,
            at + width <= total,
            width <= 8,
            at + width <= buf@.len(),
            acc as nat == le_value(buf@.subrange(at + i, at + width)),
        decreases i,
    {
        i = i - 1;
        let digit: u8 = buf[at + i];
        proof {
            let cur = buf@.subrange(at + i, at + width);
            let nxt = buf@.subrange(at + i + 1, at + width);
            assert(cur.drop_first() =~= nxt);
            lemma_le_value_bound(cur);
            lemma_pow256_values();
            reveal_with_fuel(pow256, 10);
        }
        acc = acc * 256 + digit as u64;
    }
    acc
}

} // verus!
