//! Big-endian encodings of fixed-width integers, as used by the slab layout
//! and by the `Serializable` impls of the integer types.
use vstd::prelude::*;

verus! {

/// The eight big-endian bytes of `x`.
pub open spec fn be_u64(x: u64) -> Seq<u8> {
    seq![
        ((x >> 56u64) & 0xffu64) as u8,
        ((x >> 48u64) & 0xffu64) as u8,
        ((x >> 40u64) & 0xffu64) as u8,
        ((x >> 32u64) & 0xffu64) as u8,
        ((x >> 24u64) & 0xffu64) as u8,
        ((x >> 16u64) & 0xffu64) as u8,
        ((x >> 8u64) & 0xffu64) as u8,
        (x & 0xffu64) as u8,
    ]
}

/// The number whose big-endian bytes are the first eight of `s`.
pub open spec fn from_be_u64(s: Seq<u8>) -> u64
    recommends
        s.len() >= 8,
{
    (s[0] as u64) << 56u64 | (s[1] as u64) << 48u64 | (s[2] as u64) << 40u64 | (s[3] as u64)
        << 32u64 | (s[4] as u64) << 24u64 | (s[5] as u64) << 16u64 | (s[6] as u64) << 8u64 | (
    s[7] as u64)
}

/// The four big-endian bytes of `x`.
pub open spec fn be_u32(x: u32) -> Seq<u8> {
    seq![
        ((x >> 24u32) & 0xffu32) as u8,
        ((x >> 16u32) & 0xffu32) as u8,
        ((x >> 8u32) & 0xffu32) as u8,
        (x & 0xffu32) as u8,
    ]
}

/// The number whose big-endian bytes are the first four of `s`.
pub open spec fn from_be_u32(s: Seq<u8>) -> u32
    recommends
        s.len() >= 4,
{
    (s[0] as u32) << 24u32 | (s[1] as u32) << 16u32 | (s[2] as u32) << 8u32 | (s[3] as u32)
}

/// The two big-endian bytes of `x`.
pub open spec fn be_u16(x: u16) -> Seq<u8> {
    seq![((x >> 8u16) & 0xffu16) as u8, (x & 0xffu16) as u8]
}

/// The number whose big-endian bytes are the first two of `s`.
pub open spec fn from_be_u16(s: Seq<u8>) -> u16
    recommends
        s.len() >= 2,
{
    (s[0] as u16) << 8u16 | (s[1] as u16)
}

/// Decoding the encoding of `x` gives `x` back.
pub proof fn lemma_be_u64_roundtrip(x: u64)
    ensures
        be_u64(x).len() == 8,
        from_be_u64(be_u64(x)) == x,
{
    assert(x == (((x >> 56u64) & 0xffu64) as u8 as u64) << 56u64 | (((x >> 48u64) & 0xffu64)
        as u8 as u64) << 48u64 | (((x >> 40u64) & 0xffu64) as u8 as u64) << 40u64 | (((x
        >> 32u64) & 0xffu64) as u8 as u64) << 32u64 | (((x >> 24u64) & 0xffu64) as u8 as u64)
        << 24u64 | (((x >> 16u64) & 0xffu64) as u8 as u64) << 16u64 | (((x >> 8u64) & 0xffu64)
        as u8 as u64) << 8u64 | ((x & 0xffu64) as u8 as u64)) by (bit_vector);
}

/// Decoding the encoding of `x` gives `x` back.
pub proof fn lemma_be_u32_roundtrip(x: u32)
    ensures
        be_u32(x).len() == 4,
        from_be_u32(be_u32(x)) == x,
{
    assert(x == (((x >> 24u32) & 0xffu32) as u8 as u32) << 24u32 | (((x >> 16u32) & 0xffu32)
        as u8 as u32) << 16u32 | (((x >> 8u32) & 0xffu32) as u8 as u32) << 8u32 | ((x
        & 0xffu32) as u8 as u32)) by (bit_vector);
}

/// Decoding the encoding of `x` gives `x` back.
pub proof fn lemma_be_u16_roundtrip(x: u16)
    ensures
        be_u16(x).len() == 2,
        from_be_u16(be_u16(x)) == x,
{
    assert(x == (((x >> 8u16) & 0xffu16) as u8 as u16) << 8u16 | ((x & 0xffu16) as u8 as u16))
        by (bit_vector);
}

/// Appends the big-endian bytes of `x` to `out`.
pub fn u64_to_be(x: u64, out: &mut Vec<u8>)
    ensures
        final(out)@ == old(out)@ + be_u64(x),
{
    out.push(((x >> 56u64) & 0xffu64) as u8);
    out.push(((x >> 48u64) & 0xffu64) as u8);
    out.push(((x >> 40u64) & 0xffu64) as u8);
    out.push(((x >> 32u64) & 0xffu64) as u8);
    out.push(((x >> 24u64) & 0xffu64) as u8);
    out.push(((x >> 16u64) & 0xffu64) as u8);
    out.push(((x >> 8u64) & 0xffu64) as u8);
    out.push((x & 0xffu64) as u8);
    assert(out@ =~= old(out)@ + be_u64(x));
}

/// Reads the big-endian number in `s[off..off + 8]`.
pub fn u64_from_be(s: &[u8], off: usize) -> (x: u64)
    requires
        off + 8 <= s@.len(),
    ensures
        x == from_be_u64(s@.subrange(off as int, off + 8)),
{
    (s[off] as u64) << 56u64 | (s[off + 1] as u64) << 48u64 | (s[off + 2] as u64) << 40u64 | (
    s[off + 3] as u64) << 32u64 | (s[off + 4] as u64) << 24u64 | (s[off + 5] as u64) << 16u64
        | (s[off + 6] as u64) << 8u64 | (s[off + 7] as u64)
}

/// Reads the big-endian number in `s[0..8]`.
pub fn u64_from_be_front(s: &[u8]) -> (x: u64)
    requires
        8 <= s@.len(),
    ensures
        x == from_be_u64(s@),
{
    (s[0] as u64) << 56u64 | (s[1] as u64) << 48u64 | (s[2] as u64) << 40u64 | (s[3] as u64)
        << 32u64 | (s[4] as u64) << 24u64 | (s[5] as u64) << 16u64 | (s[6] as u64) << 8u64 | (
    s[7] as u64)
}

/// Appends the big-endian bytes of `x` to `out`.
pub fn u32_to_be(x: u32, out: &mut Vec<u8>)
    ensures
        final(out)@ == old(out)@ + be_u32(x),
{
    out.push(((x >> 24u32) & 0xffu32) as u8);
    out.push(((x >> 16u32) & 0xffu32) as u8);
    out.push(((x >> 8u32) & 0xffu32) as u8);
    out.push((x & 0xffu32) as u8);
    assert(out@ =~= old(out)@ + be_u32(x));
}

/// Reads the big-endian number in `s[0..4]`.
pub fn u32_from_be(s: &[u8]) -> (x: u32)
    requires
        4 <= s@.len(),
    ensures
        x == from_be_u32(s@),
{
    (s[0] as u32) << 24u32 | (s[1] as u32) << 16u32 | (s[2] as u32) << 8u32 | (s[3] as u32)
}

/// Appends the big-endian bytes of `x` to `out`.
pub fn u16_to_be(x: u16, out: &mut Vec<u8>)
    ensures
        final(out)@ == old(out)@ + be_u16(x),
{
    out.push(((x >> 8u16) & 0xffu16) as u8);
    out.push((x & 0xffu16) as u8);
    assert(out@ =~= old(out)@ + be_u16(x));
}

/// Reads the big-endian number in `s[0..2]`.
pub fn u16_from_be(s: &[u8]) -> (x: u16)
    requires
        2 <= s@.len(),
    ensures
        x == from_be_u16(s@),
{
    (s[0] as u16) << 8u16 | (s[1] as u16)
}

} // verus!
