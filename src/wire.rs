//! Big-endian integer encoding and the output buffer type.
use bytes::BufMut;
use bytes::BytesMut;
use vstd::prelude::*;

verus! {

#[verifier::external_type_specification]
#[verifier::external_body]
pub struct ExBytesMut(bytes::BytesMut);

/// The bytes that a `BytesMut` currently holds.
pub uninterp spec fn buf_contents(b: BytesMut) -> Seq<u8>;

/// Largest number of bytes a `BytesMut` can hold (an allocation is at most `isize::MAX`).
pub open spec fn buf_limit() -> int {
    isize::MAX as int
}

/// Two bytes, most significant first.
pub open spec fn be16(v: u16) -> Seq<u8> {
    seq![(v / 256) as u8, (v % 256) as u8]
}

/// Four bytes, most significant first.
pub open spec fn be32(v: u32) -> Seq<u8> {
    seq![
        (v / 0x100_0000) as u8,
        ((v / 0x1_0000) % 256) as u8,
        ((v / 256) % 256) as u8,
        (v % 256) as u8,
    ]
}

/// The big-endian 16-bit value of the two bytes at `i`.
pub open spec fn u16_at(s: Seq<u8>, i: int) -> u16 {
    (s[i] as int * 256 + s[i + 1] as int) as u16
}

/// The big-endian 32-bit value of the four bytes at `i`.
pub open spec fn u32_at(s: Seq<u8>, i: int) -> u32 {
    (s[i] as int * 0x100_0000 + s[i + 1] as int * 0x1_0000 + s[i + 2] as int * 256
        + s[i + 3] as int) as u32
}

/// Relies on `BytesMut::new`: a buffer that holds nothing.
#[verifier::external_body]
pub(crate) fn buf_new() -> (r: BytesMut)
    ensures
        buf_contents(r) == Seq::<u8>::empty(),
{
    BytesMut::new()
}

/// Relies on `BufMut::put_u16` for `BytesMut`: appends the value's two big-endian bytes,
/// growing the buffer; it panics only past `isize::MAX` bytes.
#[verifier::external_body]
pub(crate) fn buf_put_u16(b: &mut BytesMut, v: u16)
    requires
        buf_contents(*old(b)).len() + 2 <= buf_limit(),
    ensures
        buf_contents(*final(b)) == buf_contents(*old(b)) + be16(v),
{
    b.put_u16(v)
}

/// Relies on `BufMut::put_u32` for `BytesMut`: appends the value's four big-endian bytes,
/// growing the buffer; it panics only past `isize::MAX` bytes.
#[verifier::external_body]
pub(crate) fn buf_put_u32(b: &mut BytesMut, v: u32)
    requires
        buf_contents(*old(b)).len() + 4 <= buf_limit(),
    ensures
        buf_contents(*final(b)) == buf_contents(*old(b)) + be32(v),
{
    b.put_u32(v)
}

/// Relies on `BytesMut::extend_from_slice`: appends the slice, growing the buffer;
/// it panics only past `isize::MAX` bytes.
#[verifier::external_body]
pub(crate) fn buf_extend(b: &mut BytesMut, s: &[u8])
    requires
        buf_contents(*old(b)).len() + s@.len() <= buf_limit(),
    ensures
        buf_contents(*final(b)) == buf_contents(*old(b)) + s@,
{
    b.extend_from_slice(s)
}

/// Reads the big-endian 16-bit value at `pos`.
pub fn read_u16(buf: &[u8], pos: usize) -> (r: u16)
    requires
        pos + 2 <= buf@.len(),
    ensures
        r == u16_at(buf@, pos as int),
{
    (buf[pos] as u16) * 256 + (buf[pos + 1] as u16)
}

/// Reads the big-endian 32-bit value at `pos`.
pub fn read_u32(buf: &[u8], pos: usize) -> (r: u32)
    requires
        pos + 4 <= buf@.len(),
    ensures
        r == u32_at(buf@, pos as int),
{
    (buf[pos] as u32) * 0x100_0000 + (buf[pos + 1] as u32) * 0x1_0000 + (buf[pos + 2] as u32)
        * 256 + (buf[pos + 3] as u32)
}

/// Decoding the encoding of a 16-bit value gives it back.
pub proof fn lemma_u16_round_trip(s: Seq<u8>, i: int, v: u16)
    requires
        0 <= i,
        i + 2 <= s.len(),
        s.subrange(i, i + 2) == be16(v),
    ensures
        u16_at(s, i) == v,
{
    assert(s[i] == s.subrange(i, i + 2)[0]);
    assert(s[i + 1] == s.subrange(i, i + 2)[1]);
}

/// Decoding the encoding of a 32-bit value gives it back.
pub proof fn lemma_u32_round_trip(s: Seq<u8>, i: int, v: u32)
    requires
        0 <= i,
        i + 4 <= s.len(),
        s.subrange(i, i + 4) == be32(v),
    ensures
        u32_at(s, i) == v,
{
    assert(s[i] == s.subrange(i, i + 4)[0]);
    assert(s[i + 1] == s.subrange(i, i + 4)[1]);
    assert(s[i + 2] == s.subrange(i, i + 4)[2]);
    assert(s[i + 3] == s.subrange(i, i + 4)[3]);
}

} // verus!
