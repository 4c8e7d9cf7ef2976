//! The byte buffer that frames are read from and written to: `bytes::BytesMut`,
//! seen through the sequence of bytes that it holds.
use vstd::prelude::*;

use bytes::{Buf, BufMut, BytesMut};

verus! {

#[verifier::external_type_specification]
#[verifier::external_body]
pub struct ExBytesMut(BytesMut);

/// The bytes that a buffer holds, in order.
pub uninterp spec fn buffered(b: BytesMut) -> Seq<u8>;

/// Relies on `BytesMut::len`: the number of bytes held.
#[verifier::external_body]
pub(crate) fn buf_len(b: &BytesMut) -> (r: usize)
    ensures
        r == buffered(*b).len(),
{
    b.len()
}

/// Relies on indexing through `BytesMut`'s `Deref<Target = [u8]>`: the byte at `i`.
#[verifier::external_body]
pub(crate) fn buf_byte(b: &BytesMut, i: usize) -> (r: u8)
    requires
        i < buffered(*b).len(),
    ensures
        r == buffered(*b)[i as int],
{
    b[i]
}

/// Relies on `BytesMut::split_to`: the first `n` bytes leave the buffer and are
/// returned (copied out with `to_vec`).
#[verifier::external_body]
pub(crate) fn buf_split_front(b: &mut BytesMut, n: usize) -> (r: Vec<u8>)
    requires
        n <= buffered(*old(b)).len(),
    ensures
        r@ == buffered(*old(b)).take(n as int),
        buffered(*final(b)) == buffered(*old(b)).skip(n as int),
{
    b.split_to(n).to_vec()
}

/// Relies on `Buf::advance` for `BytesMut`: the first `n` bytes are dropped.
#[verifier::external_body]
pub(crate) fn buf_advance(b: &mut BytesMut, n: usize)
    requires
        n <= buffered(*old(b)).len(),
    ensures
        buffered(*final(b)) == buffered(*old(b)).skip(n as int),
{
    b.advance(n)
}

/// Relies on `BufMut::put_slice` for `BytesMut`: the bytes of `s` are appended,
/// the buffer growing as needed.
#[verifier::external_body]
pub(crate) fn buf_put_slice(b: &mut BytesMut, s: &[u8])
    requires
        buffered(*old(b)).len() + s@.len() <= isize::MAX,
    ensures
        buffered(*final(b)) == buffered(*old(b)) + s@,
{
    b.put_slice(s)
}

} // verus!
