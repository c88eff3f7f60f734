//! Little-endian fixed-width fields inside byte buffers: how they read as
//! numbers, and executable readers and writers for them.

use vstd::bytes::*;
use vstd::prelude::*;
use vstd::slice::*;

verus! {

broadcast use vstd::seq_lib::group_seq_properties;

/// Largest value a `u16` field of the layout can hold.
pub const U16_LIMIT: usize = 65535;

pub open spec fn le16(x: nat) -> Seq<u8> {
    spec_u16_to_le_bytes(x as u16)
}

pub open spec fn read16(b: Seq<u8>, pos: int) -> nat {
    spec_u16_from_le_bytes(b.subrange(pos, pos + 2)) as nat
}

pub open spec fn read64(b: Seq<u8>, pos: int) -> u64 {
    spec_u64_from_le_bytes(b.subrange(pos, pos + 8))
}

pub proof fn lemma_le16(x: nat)
    requires
        x <= U16_LIMIT,
    ensures
        le16(x).len() == 2,
        spec_u16_from_le_bytes(le16(x)) == x,
{
    lemma_auto_spec_u16_to_from_le_bytes();
    let y = x as u16;
    assert(y == x);
    assert(spec_u16_to_le_bytes(y).len() == 2);
    assert(spec_u16_from_le_bytes(spec_u16_to_le_bytes(y)) == y);
}

pub proof fn lemma_read16_le16(b: Seq<u8>, pos: int, x: nat)
    requires
        x <= U16_LIMIT,
        0 <= pos,
        pos + 2 <= b.len(),
        b.subrange(pos, pos + 2) == le16(x),
    ensures
        read16(b, pos) == x,
{
    lemma_le16(x);
}

/// Appends `src` to `out`.
pub fn append_bytes(out: &mut Vec<u8>, src: &[u8])
    ensures
        final(out)@ == old(out)@ + src@,
{
    let mut i: usize = 0;
    while i < src.len()
        invariant
            i <= src@.len(),
            out@ == old(out)@ + src@.subrange(0, i as int),
        decreases src@.len() - i,
    {
        out.push(src[i]);
        i += 1;
        assert(out@ =~= old(out)@ + src@.subrange(0, i as int));
    }
    assert(src@.subrange(0, src@.len() as int) =~= src@);
}

pub fn read_u16_at(buf: &[u8], pos: usize) -> (r: usize)
    requires
        pos + 2 <= buf@.len(),
    ensures
        r == read16(buf@, pos as int),
        r <= U16_LIMIT,
{
    let len = buf.len();
    assert(pos + 2 <= len);
    u16_from_le_bytes(slice_subrange(buf, pos, pos + 2)) as usize
}

pub fn read_u64_at(buf: &[u8], pos: usize) -> (r: u64)
    requires
        pos + 8 <= buf@.len(),
    ensures
        r == read64(buf@, pos as int),
{
    let len = buf.len();
    assert(pos + 8 <= len);
    u64_from_le_bytes(slice_subrange(buf, pos, pos + 8))
}

pub open spec fn le32(x: u32) -> Seq<u8> {
    spec_u32_to_le_bytes(x)
}

pub open spec fn le64(x: u64) -> Seq<u8> {
    spec_u64_to_le_bytes(x)
}

pub open spec fn read32(b: Seq<u8>, pos: int) -> u32 {
    spec_u32_from_le_bytes(b.subrange(pos, pos + 4))
}

/// `n` zero bytes.
pub open spec fn zeros(n: nat) -> Seq<u8> {
    Seq::new(n, |i: int| 0u8)
}

/// `b` with the bytes from `pos` on replaced by `src`.
pub open spec fn overwrite(b: Seq<u8>, pos: int, src: Seq<u8>) -> Seq<u8> {
    b.subrange(0, pos) + src + b.subrange(pos + src.len(), b.len() as int)
}

pub proof fn lemma_le_lengths(x: u32, y: u64)
    ensures
        le32(x).len() == 4,
        le64(y).len() == 8,
        spec_u32_from_le_bytes(le32(x)) == x,
        spec_u64_from_le_bytes(le64(y)) == y,
{
    lemma_auto_spec_u32_to_from_le_bytes();
    lemma_auto_spec_u64_to_from_le_bytes();
}

/// Reading a field back from where it was just written.
pub proof fn lemma_read_overwrite(b: Seq<u8>, pos: int, src: Seq<u8>)
    requires
        0 <= pos,
        pos + src.len() <= b.len(),
    ensures
        overwrite(b, pos, src).len() == b.len(),
        overwrite(b, pos, src).subrange(pos, pos + src.len()) == src,
        forall|i: int| 0 <= i < pos ==> #[trigger] overwrite(b, pos, src)[i] == b[i],
        forall|i: int| pos + src.len() <= i < b.len() ==> #[trigger] overwrite(b, pos, src)[i] == b[i],
{
    assert(overwrite(b, pos, src).subrange(pos, pos + src.len()) =~= src);
}

pub fn read_u32_at(buf: &[u8], pos: usize) -> (r: u32)
    requires
        pos + 4 <= buf@.len(),
    ensures
        r == read32(buf@, pos as int),
{
    let len = buf.len();
    assert(pos + 4 <= len);
    u32_from_le_bytes(slice_subrange(buf, pos, pos + 4))
}

/// A buffer of `n` zero bytes.
pub fn zeroed(n: usize) -> (r: Vec<u8>)
    ensures
        r@ == zeros(n as nat),
{
    let mut r: Vec<u8> = Vec::new();
    let mut i: usize = 0;
    while i < n
        invariant
            i <= n,
            r@ == zeros(i as nat),
        decreases n - i,
    {
        r.push(0u8);
        i += 1;
        assert(r@ =~= zeros(i as nat));
    }
    r
}

/// Writes `src` over `buf` starting at `pos`.
pub fn put_bytes(buf: &mut Vec<u8>, pos: usize, src: &[u8])
    requires
        pos + src@.len() <= old(buf)@.len(),
    ensures
        final(buf)@ == overwrite(old(buf)@, pos as int, src@),
{
    let n = buf.len();
    let mut i: usize = 0;
    while i < src.len()
        invariant
            pos + src@.len() <= buf@.len() == n,
            i <= src@.len(),
            buf@ == overwrite(old(buf)@, pos as int, src@.subrange(0, i as int)),
            buf@.len() == old(buf)@.len(),
        decreases src@.len() - i,
    {
        buf.set(pos + i, src[i]);
        i += 1;
        assert(buf@ =~= overwrite(old(buf)@, pos as int, src@.subrange(0, i as int)));
    }
    assert(src@.subrange(0, src@.len() as int) =~= src@);
    assert(buf@ =~= overwrite(old(buf)@, pos as int, src@));
}

} // verus!
