//! Big-endian integers on the wire, read and written through `byteorder`.
use vstd::prelude::*;
use byteorder::ByteOrder;

verus! {

/// The big-endian value of two bytes.
pub open spec fn be16(hi: u8, lo: u8) -> int {
    hi as int * 256 + lo as int
}

/// The big-endian value of four bytes.
pub open spec fn be32(b0: u8, b1: u8, b2: u8, b3: u8) -> int {
    ((b0 as int * 256 + b1 as int) * 256 + b2 as int) * 256 + b3 as int
}

/// The big-endian bytes of a 16-bit value.
pub open spec fn u16_bytes(v: u16) -> Seq<u8> {
    seq![(v / 256) as u8, (v % 256) as u8]
}

/// The big-endian bytes of a 32-bit value.
pub open spec fn u32_bytes(v: u32) -> Seq<u8> {
    seq![
        (v / 0x100_0000) as u8,
        ((v / 0x1_0000) % 256) as u8,
        ((v / 256) % 256) as u8,
        (v % 256) as u8,
    ]
}

/// `BigEndian::read_u16` of byteorder on the bytes from `pos` on: the
/// big-endian value of the two bytes at `pos`. It panics on fewer than two
/// bytes, which `requires` leaves out.
#[verifier::external_body]
pub(crate) fn read_u16_at(buf: &[u8], pos: usize) -> (r: u16)
    requires
        pos + 2 <= buf@.len(),
    ensures
        r as int == be16(buf@[pos as int], buf@[pos + 1]),
{
    byteorder::BigEndian::read_u16(&buf[pos..])
}

/// `BigEndian::read_u32` of byteorder on the bytes from `pos` on: the
/// big-endian value of the four bytes at `pos`. It panics on fewer than four
/// bytes, which `requires` leaves out.
#[verifier::external_body]
pub(crate) fn read_u32_at(buf: &[u8], pos: usize) -> (r: u32)
    requires
        pos + 4 <= buf@.len(),
    ensures
        r as int == be32(buf@[pos as int], buf@[pos + 1], buf@[pos + 2], buf@[pos + 3]),
{
    byteorder::BigEndian::read_u32(&buf[pos..])
}

/// `BigEndian::write_u16` of byteorder into a two-byte array: the array holds
/// the big-endian bytes of `v`.
#[verifier::external_body]
pub(crate) fn u16_be(v: u16) -> (r: [u8; 2])
    ensures
        r@ == u16_bytes(v),
{
    let mut b = [0u8; 2];
    byteorder::BigEndian::write_u16(&mut b, v);
    b
}

/// `BigEndian::write_u32` of byteorder into a four-byte array: the array holds
/// the big-endian bytes of `v`.
#[verifier::external_body]
pub(crate) fn u32_be(v: u32) -> (r: [u8; 4])
    ensures
        r@ == u32_bytes(v),
{
    let mut b = [0u8; 4];
    byteorder::BigEndian::write_u32(&mut b, v);
    b
}

/// Appends the big-endian bytes of `v`.
pub fn push_u16(buf: &mut Vec<u8>, v: u16)
    ensures
        final(buf)@ == old(buf)@ + u16_bytes(v),
{
    let b = u16_be(v);
    buf.push(b[0]);
    buf.push(b[1]);
    assert(final(buf)@ =~= old(buf)@ + u16_bytes(v));
}

/// Appends the big-endian bytes of `v`.
pub fn push_u32(buf: &mut Vec<u8>, v: u32)
    ensures
        final(buf)@ == old(buf)@ + u32_bytes(v),
{
    let b = u32_be(v);
    buf.push(b[0]);
    buf.push(b[1]);
    buf.push(b[2]);
    buf.push(b[3]);
    assert(final(buf)@ =~= old(buf)@ + u32_bytes(v));
}

/// The bytes of `buf` from `from` on.
pub fn tail(buf: &[u8], from: usize) -> (r: Vec<u8>)
    requires
        from <= buf@.len(),
    ensures
        r@ == buf@.skip(from as int),
{
    let mut r: Vec<u8> = Vec::new();
    let mut i: usize = from;
    while i < buf.len()
        invariant
            from <= i <= buf@.len(),
            r@ == buf@.subrange(from as int, i as int),
        decreases buf@.len() - i,
    {
        r.push(buf[i]);
        i = i + 1;
        assert(r@ =~= buf@.subrange(from as int, i as int));
    }
    assert(r@ =~= buf@.skip(from as int));
    r
}

/// Appends all bytes of `src`.
pub fn append_bytes(dst: &mut Vec<u8>, src: &[u8])
    ensures
        final(dst)@ == old(dst)@ + src@,
{
    let mut i: usize = 0;
    while i < src.len()
        invariant
            i <= src@.len(),
            dst@ == old(dst)@ + src@.subrange(0, i as int),
        decreases src@.len() - i,
    {
        dst.push(src[i]);
        i = i + 1;
        assert(dst@ =~= old(dst)@ + src@.subrange(0, i as int));
    }
    assert(src@.subrange(0, src@.len() as int) =~= src@);
}

} // verus!
