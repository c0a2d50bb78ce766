//! Trusted interface to the growable byte buffer that decoders consume.
//!
//! The buffer is `bytes::BytesMut`: the transport appends chunks at its tail,
//! and a decoder drops consumed bytes from its head. Specifications speak of
//! `buf_bytes`, the sequence of readable bytes the buffer currently holds.

use vstd::prelude::*;

verus! {

#[verifier::external_type_specification]
#[verifier::external_body]
pub struct ExBytesMut(bytes::BytesMut);

/// The readable bytes currently held by the buffer, head first.
pub uninterp spec fn buf_bytes(b: bytes::BytesMut) -> Seq<u8>;

/// Relies on `bytes::BytesMut::new`: a fresh buffer holds no bytes.
#[verifier::external_body]
pub(crate) fn buf_new() -> (b: bytes::BytesMut)
    ensures
        buf_bytes(b) == Seq::<u8>::empty(),
{
    bytes::BytesMut::new()
}

/// Relies on `bytes::BytesMut::len`: the number of readable bytes held.
#[verifier::external_body]
pub(crate) fn buf_len(b: &bytes::BytesMut) -> (n: usize)
    ensures
        n == buf_bytes(*b).len(),
{
    b.len()
}

/// Relies on `bytes::BytesMut`'s `Deref` to `[u8]`: reads the readable byte
/// at the given position.
#[verifier::external_body]
pub(crate) fn buf_byte(b: &bytes::BytesMut, i: usize) -> (r: u8)
    requires
        i < buf_bytes(*b).len(),
    ensures
        r == buf_bytes(*b)[i as int],
{
    b[i]
}

/// Relies on `bytes::Buf::advance` for `BytesMut`: drops the first `cnt`
/// readable bytes from the head of the buffer.
#[verifier::external_body]
pub(crate) fn buf_advance(b: &mut bytes::BytesMut, cnt: usize)
    requires
        cnt <= buf_bytes(*old(b)).len(),
    ensures
        buf_bytes(*final(b)) == buf_bytes(*old(b)).skip(cnt as int),
{
    bytes::Buf::advance(b, cnt)
}

/// Relies on `bytes::BytesMut::extend_from_slice`: appends the given bytes at
/// the tail of the buffer.
#[verifier::external_body]
pub(crate) fn buf_extend_from_slice(b: &mut bytes::BytesMut, chunk: &Vec<u8>)
    ensures
        buf_bytes(*final(b)) == buf_bytes(*old(b)) + chunk@,
{
    b.extend_from_slice(chunk.as_slice())
}

/// Relies on `bytes::BytesMut`'s `Deref` to `[u8]` and `[u8]::to_vec`: copies
/// the readable bytes in `[start, end)` out of the buffer.
#[verifier::external_body]
pub(crate) fn buf_copy_range(b: &bytes::BytesMut, start: usize, end: usize) -> (v: Vec<u8>)
    requires
        start <= end <= buf_bytes(*b).len(),
    ensures
        v@ == buf_bytes(*b).subrange(start as int, end as int),
{
    b[start..end].to_vec()
}

} // verus!
