//! Little-endian encoding of fixed-width integers.

use vstd::prelude::*;

verus! {

/// Little-endian bytes of a `u16`.
pub open spec fn u16_le(v: u16) -> Seq<u8> {
    seq![(v & 0xff) as u8, ((v >> 8u16) & 0xff) as u8]
}

/// Little-endian bytes of a `u32`.
pub open spec fn u32_le(v: u32) -> Seq<u8> {
    seq![
        (v & 0xff) as u8,
        ((v >> 8u32) & 0xff) as u8,
        ((v >> 16u32) & 0xff) as u8,
        ((v >> 24u32) & 0xff) as u8,
    ]
}

/// Little-endian bytes of a `u64`.
pub open spec fn u64_le(v: u64) -> Seq<u8> {
    seq![
        (v & 0xff) as u8,
        ((v >> 8u64) & 0xff) as u8,
        ((v >> 16u64) & 0xff) as u8,
        ((v >> 24u64) & 0xff) as u8,
        ((v >> 32u64) & 0xff) as u8,
        ((v >> 40u64) & 0xff) as u8,
        ((v >> 48u64) & 0xff) as u8,
        ((v >> 56u64) & 0xff) as u8,
    ]
}

/// The `u16` whose little-endian bytes start `s`.
pub open spec fn le_u16(s: Seq<u8>) -> u16 {
    (s[0] as u16) | ((s[1] as u16) << 8u16)
}

/// The `u32` whose little-endian bytes start `s`.
pub open spec fn le_u32(s: Seq<u8>) -> u32 {
    (s[0] as u32) | ((s[1] as u32) << 8u32) | ((s[2] as u32) << 16u32) | ((s[3] as u32) << 24u32)
}

/// The `u64` whose little-endian bytes start `s`.
pub open spec fn le_u64(s: Seq<u8>) -> u64 {
    (s[0] as u64) | ((s[1] as u64) << 8u64) | ((s[2] as u64) << 16u64) | ((s[3] as u64) << 24u64)
        | ((s[4] as u64) << 32u64) | ((s[5] as u64) << 40u64) | ((s[6] as u64) << 48u64) | ((
    s[7] as u64) << 56u64)
}

/// Reading back the bytes of a `u16` gives the value, whatever follows.
pub proof fn lemma_u16_le_roundtrip(v: u16, rest: Seq<u8>)
    ensures
        le_u16(u16_le(v) + rest) == v,
{
    let s = u16_le(v) + rest;
    let (b0, b1) = (s[0], s[1]);
    assert(b0 == (v & 0xff) as u8 && b1 == ((v >> 8u16) & 0xff) as u8);
    assert(b0 == (v & 0xff) as u8 && b1 == ((v >> 8u16) & 0xff) as u8 ==> (b0 as u16) | ((
    b1 as u16) << 8u16) == v) by (bit_vector);
}

/// Reading back the bytes of a `u32` gives the value, whatever follows.
pub proof fn lemma_u32_le_roundtrip(v: u32, rest: Seq<u8>)
    ensures
        le_u32(u32_le(v) + rest) == v,
{
    let s = u32_le(v) + rest;
    let (b0, b1, b2, b3) = (s[0], s[1], s[2], s[3]);
    assert(b0 == (v & 0xff) as u8 && b1 == ((v >> 8u32) & 0xff) as u8 && b2 == ((v >> 16u32)
        & 0xff) as u8 && b3 == ((v >> 24u32) & 0xff) as u8);
    assert(b0 == (v & 0xff) as u8 && b1 == ((v >> 8u32) & 0xff) as u8 && b2 == ((v >> 16u32)
        & 0xff) as u8 && b3 == ((v >> 24u32) & 0xff) as u8 ==> (b0 as u32) | ((b1 as u32)
        << 8u32) | ((b2 as u32) << 16u32) | ((b3 as u32) << 24u32) == v) by (bit_vector);
}

/// Reading back the bytes of a `u64` gives the value, whatever follows.
pub proof fn lemma_u64_le_roundtrip(v: u64, rest: Seq<u8>)
    ensures
        le_u64(u64_le(v) + rest) == v,
{
    let s = u64_le(v) + rest;
    let (b0, b1, b2, b3, b4, b5, b6, b7) = (s[0], s[1], s[2], s[3], s[4], s[5], s[6], s[7]);
    assert(b0 == (v & 0xff) as u8 && b1 == ((v >> 8u64) & 0xff) as u8 && b2 == ((v >> 16u64)
        & 0xff) as u8 && b3 == ((v >> 24u64) & 0xff) as u8 && b4 == ((v >> 32u64) & 0xff) as u8
        && b5 == ((v >> 40u64) & 0xff) as u8 && b6 == ((v >> 48u64) & 0xff) as u8 && b7 == ((v
        >> 56u64) & 0xff) as u8);
    assert(b0 == (v & 0xff) as u8 && b1 == ((v >> 8u64) & 0xff) as u8 && b2 == ((v >> 16u64)
        & 0xff) as u8 && b3 == ((v >> 24u64) & 0xff) as u8 && b4 == ((v >> 32u64) & 0xff) as u8
        && b5 == ((v >> 40u64) & 0xff) as u8 && b6 == ((v >> 48u64) & 0xff) as u8 && b7 == ((v
        >> 56u64) & 0xff) as u8 ==> (b0 as u64) | ((b1 as u64) << 8u64) | ((b2 as u64) << 16u64)
        | ((b3 as u64) << 24u64) | ((b4 as u64) << 32u64) | ((b5 as u64) << 40u64) | ((
    b6 as u64) << 48u64) | ((b7 as u64) << 56u64) == v) by (bit_vector);
}

/// Appends the little-endian bytes of a `u16`.
pub fn put_u16_le(buf: &mut Vec<u8>, v: u16)
    ensures
        final(buf)@ == old(buf)@ + u16_le(v),
{
    buf.push((v & 0xff) as u8);
    buf.push(((v >> 8u16) & 0xff) as u8);
    assert(final(buf)@ =~= old(buf)@ + u16_le(v));
}

/// Appends the little-endian bytes of a `u32`.
pub fn put_u32_le(buf: &mut Vec<u8>, v: u32)
    ensures
        final(buf)@ == old(buf)@ + u32_le(v),
{
    buf.push((v & 0xff) as u8);
    buf.push(((v >> 8u32) & 0xff) as u8);
    buf.push(((v >> 16u32) & 0xff) as u8);
    buf.push(((v >> 24u32) & 0xff) as u8);
    assert(final(buf)@ =~= old(buf)@ + u32_le(v));
}

/// Appends the little-endian bytes of a `u64`.
pub fn put_u64_le(buf: &mut Vec<u8>, v: u64)
    ensures
        final(buf)@ == old(buf)@ + u64_le(v),
{
    buf.push((v & 0xff) as u8);
    buf.push(((v >> 8u64) & 0xff) as u8);
    buf.push(((v >> 16u64) & 0xff) as u8);
    buf.push(((v >> 24u64) & 0xff) as u8);
    buf.push(((v >> 32u64) & 0xff) as u8);
    buf.push(((v >> 40u64) & 0xff) as u8);
    buf.push(((v >> 48u64) & 0xff) as u8);
    buf.push(((v >> 56u64) & 0xff) as u8);
    assert(final(buf)@ =~= old(buf)@ + u64_le(v));
}

/// Reads a little-endian `u16` at `pos`.
pub fn get_u16_le(s: &[u8], pos: usize) -> (r: u16)
    requires
        pos + 2 <= s@.len(),
    ensures
        r == le_u16(s@.skip(pos as int)),
{
    (s[pos] as u16) | ((s[pos + 1] as u16) << 8u16)
}

/// Reads a little-endian `u32` at `pos`.
pub fn get_u32_le(s: &[u8], pos: usize) -> (r: u32)
    requires
        pos + 4 <= s@.len(),
    ensures
        r == le_u32(s@.skip(pos as int)),
{
    (s[pos] as u32) | ((s[pos + 1] as u32) << 8u32) | ((s[pos + 2] as u32) << 16u32) | ((s[pos
        + 3] as u32) << 24u32)
}

/// Reads a little-endian `u64` at `pos`.
pub fn get_u64_le(s: &[u8], pos: usize) -> (r: u64)
    requires
        pos + 8 <= s@.len(),
    ensures
        r == le_u64(s@.skip(pos as int)),
{
    (s[pos] as u64) | ((s[pos + 1] as u64) << 8u64) | ((s[pos + 2] as u64) << 16u64) | ((s[pos
        + 3] as u64) << 24u64) | ((s[pos + 4] as u64) << 32u64) | ((s[pos + 5] as u64) << 40u64)
        | ((s[pos + 6] as u64) << 48u64) | ((s[pos + 7] as u64) << 56u64)
}

/// Big-endian bytes of a `u32`.
pub open spec fn u32_be(v: u32) -> Seq<u8> {
    seq![
        ((v >> 24u32) & 0xff) as u8,
        ((v >> 16u32) & 0xff) as u8,
        ((v >> 8u32) & 0xff) as u8,
        (v & 0xff) as u8,
    ]
}

/// Appends the big-endian bytes of a `u32`.
pub fn put_u32_be(buf: &mut Vec<u8>, v: u32)
    ensures
        final(buf)@ == old(buf)@ + u32_be(v),
{
    buf.push(((v >> 24u32) & 0xff) as u8);
    buf.push(((v >> 16u32) & 0xff) as u8);
    buf.push(((v >> 8u32) & 0xff) as u8);
    buf.push((v & 0xff) as u8);
    assert(final(buf)@ =~= old(buf)@ + u32_be(v));
}

/// Big-endian bytes of a `u64`.
pub open spec fn u64_be(v: u64) -> Seq<u8> {
    seq![
        ((v >> 56u64) & 0xff) as u8,
        ((v >> 48u64) & 0xff) as u8,
        ((v >> 40u64) & 0xff) as u8,
        ((v >> 32u64) & 0xff) as u8,
        ((v >> 24u64) & 0xff) as u8,
        ((v >> 16u64) & 0xff) as u8,
        ((v >> 8u64) & 0xff) as u8,
        (v & 0xff) as u8,
    ]
}

/// Appends the big-endian bytes of a `u64`.
pub fn put_u64_be(buf: &mut Vec<u8>, v: u64)
    ensures
        final(buf)@ == old(buf)@ + u64_be(v),
{
    buf.push(((v >> 56u64) & 0xff) as u8);
    buf.push(((v >> 48u64) & 0xff) as u8);
    buf.push(((v >> 40u64) & 0xff) as u8);
    buf.push(((v >> 32u64) & 0xff) as u8);
    buf.push(((v >> 24u64) & 0xff) as u8);
    buf.push(((v >> 16u64) & 0xff) as u8);
    buf.push(((v >> 8u64) & 0xff) as u8);
    buf.push((v & 0xff) as u8);
    assert(final(buf)@ =~= old(buf)@ + u64_be(v));
}

} // verus!
