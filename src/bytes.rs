//! Fixed-width big-endian integers and raw byte runs, read and written through
//! the `borrowed_byte_buffer` cursors at an explicit offset.
use vstd::prelude::*;
use borrowed_byte_buffer::{ByteBuf, ByteBufMut};

verus! {

/// The four bytes of `x`, most significant first.
pub open spec fn be32(x: u32) -> Seq<u8> {
    seq![(x >> 24u32) as u8, (x >> 16u32) as u8, (x >> 8u32) as u8, x as u8]
}

/// The integer whose big-endian bytes are the first four of `b`.
pub open spec fn from_be32(b: Seq<u8>) -> u32
    recommends
        b.len() >= 4,
{
    ((b[0] as u32) << 24u32) | ((b[1] as u32) << 16u32) | ((b[2] as u32) << 8u32) | (b[3] as u32)
}

pub proof fn lemma_be32_round_trip(x: u32)
    ensures
        from_be32(be32(x)) == x,
        be32(x).len() == 4,
{
    let b = be32(x);
    assert(b[0] == (x >> 24u32) as u8 && b[1] == (x >> 16u32) as u8 && b[2] == (x >> 8u32) as u8
        && b[3] == x as u8);
    assert(((((x >> 24u32) as u8) as u32) << 24u32) | ((((x >> 16u32) as u8) as u32) << 16u32)
        | ((((x >> 8u32) as u8) as u32) << 8u32) | ((x as u8) as u32) == x) by (bit_vector);
}

/// `s` with the bytes from `pos` on replaced by `b`.
pub open spec fn splice(s: Seq<u8>, pos: int, b: Seq<u8>) -> Seq<u8> {
    s.take(pos) + b + s.skip(pos + b.len())
}

/// Relies on `ByteBufMut::put_u32` over `buf[pos..]`: it writes the four
/// bytes of `x`, most significant first, and reports 4 when they all fit.
#[verifier::external_body]
pub(crate) fn put_u32_at(buf: &mut [u8], pos: usize, x: u32) -> (r: usize)
    requires
        pos + 4 <= old(buf)@.len(),
    ensures
        r == 4,
        final(buf)@ == splice(old(buf)@, pos as int, be32(x)),
{
    ByteBufMut::wrap(&mut buf[pos..]).put_u32(x)
}

/// Relies on `ByteBufMut::put_bytes` over `buf[pos..]`: it copies `bytes` in
/// order from the start of that slice and reports how many it copied.
#[verifier::external_body]
pub(crate) fn put_bytes_at(buf: &mut [u8], pos: usize, bytes: &[u8]) -> (r: usize)
    requires
        pos + bytes@.len() <= old(buf)@.len(),
    ensures
        r == bytes@.len(),
        final(buf)@ == splice(old(buf)@, pos as int, bytes@),
{
    ByteBufMut::wrap(&mut buf[pos..]).put_bytes(bytes)
}

/// Relies on `ByteBuf::get_u32` over `buf[pos..]`: the big-endian integer of
/// the next four bytes, or `None` when fewer than four remain.
#[verifier::external_body]
pub(crate) fn get_u32_at(buf: &[u8], pos: usize) -> (r: Option<u32>)
    requires
        pos <= buf@.len(),
    ensures
        pos + 4 <= buf@.len() ==> r == Some(from_be32(buf@.skip(pos as int))),
        pos + 4 > buf@.len() ==> r is None,
{
    ByteBuf::wrap(&buf[pos..]).get_u32()
}

/// Relies on `ByteBuf::get_bytes` over `buf[pos..]`: the next `n` bytes, or
/// all that remain when fewer than `n` do.
#[verifier::external_body]
pub(crate) fn get_bytes_at(buf: &[u8], pos: usize, n: usize) -> (r: Vec<u8>)
    requires
        pos <= buf@.len(),
    ensures
        pos + n <= buf@.len() ==> r@ == buf@.subrange(pos as int, pos + n),
        pos + n > buf@.len() ==> r@ == buf@.skip(pos as int),
{
    ByteBuf::wrap(&buf[pos..]).get_bytes(n).to_vec()
}

} // verus!
