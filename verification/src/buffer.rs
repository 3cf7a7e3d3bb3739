//! Big-endian byte order, and the growable byte buffer that compact peer
//! lists are packed into.
//!
//! The buffer is `bytes::BytesMut`. Verus does not look inside it: what it
//! holds is known by the name [`buffer_bytes`], and each operation on it
//! stands behind a function of this module whose contract is taken on trust
//! from the `bytes` crate.

use bytes::{BufMut, BytesMut};
use vstd::prelude::*;

verus! {

/// The `width` low-order bytes of `n`, most significant first.
pub open spec fn be_bytes(n: nat, width: nat) -> Seq<u8>
    decreases width,
{
    if width == 0 {
        Seq::empty()
    } else {
        be_bytes(n / 256, (width - 1) as nat).push((n % 256) as u8)
    }
}

/// The number that the bytes of `s` denote, most significant first.
pub open spec fn be_value(s: Seq<u8>) -> nat
    decreases s.len(),
{
    if s.len() == 0 {
        0
    } else {
        be_value(s.drop_last()) * 256 + s.last() as nat
    }
}

/// `be_bytes` gives `width` bytes.
pub proof fn lemma_be_bytes_len(n: nat, width: nat)
    ensures
        be_bytes(n, width).len() == width,
    decreases width,
{
    if width > 0 {
        lemma_be_bytes_len(n / 256, (width - 1) as nat);
    }
}

/// The outside type `bytes::BytesMut`, a growable buffer of bytes.
#[verifier::external_type_specification]
#[verifier::external_body]
pub struct ExBytesMut(bytes::BytesMut);

/// The bytes that a buffer holds, in order.
pub uninterp spec fn buffer_bytes(buf: BytesMut) -> Seq<u8>;

/// `BytesMut::new`: a buffer that holds no bytes.
#[verifier::external_body]
pub(crate) fn buffer_new() -> (buf: BytesMut)
    ensures
        buffer_bytes(buf) == Seq::<u8>::empty(),
{
    BytesMut::new()
}

/// `BufMut::put_u16` on a `BytesMut`: appends the two bytes of `n` in
/// big-endian order and leaves the bytes before them as they were. The
/// buffer grows as needed; the call is kept to buffers that stay within the
/// largest allocation, `isize::MAX` bytes, beyond which growing panics.
#[verifier::external_body]
pub(crate) fn buffer_put_u16(buf: &mut BytesMut, n: u16)
    requires
        buffer_bytes(*old(buf)).len() + 2 <= isize::MAX,
    ensures
        buffer_bytes(*final(buf)) == buffer_bytes(*old(buf)) + be_bytes(n as nat, 2),
{
    buf.put_u16(n)
}

/// `BufMut::put_u32` on a `BytesMut`: appends the four bytes of `n` in
/// big-endian order, under the same limit on the buffer's size.
#[verifier::external_body]
pub(crate) fn buffer_put_u32(buf: &mut BytesMut, n: u32)
    requires
        buffer_bytes(*old(buf)).len() + 4 <= isize::MAX,
    ensures
        buffer_bytes(*final(buf)) == buffer_bytes(*old(buf)) + be_bytes(n as nat, 4),
{
    buf.put_u32(n)
}

/// `BufMut::put_u128` on a `BytesMut`: appends the sixteen bytes of `n` in
/// big-endian order, under the same limit on the buffer's size.
#[verifier::external_body]
pub(crate) fn buffer_put_u128(buf: &mut BytesMut, n: u128)
    requires
        buffer_bytes(*old(buf)).len() + 16 <= isize::MAX,
    ensures
        buffer_bytes(*final(buf)) == buffer_bytes(*old(buf)) + be_bytes(n as nat, 16),
{
    buf.put_u128(n)
}

/// `From<BytesMut> for Vec<u8>`: the bytes of the buffer as a vector.
#[verifier::external_body]
pub(crate) fn buffer_into_vec(buf: BytesMut) -> (bytes: Vec<u8>)
    ensures
        bytes@ == buffer_bytes(buf),
{
    Vec::from(buf)
}

/// The number of values that `width` bytes can denote.
pub open spec fn byte_range(width: nat) -> nat
    decreases width,
{
    if width == 0 {
        1
    } else {
        256 * byte_range((width - 1) as nat)
    }
}

/// Reading `width` big-endian bytes of a number that fits in them gives the
/// number back.
pub proof fn lemma_be_round_trip(n: nat, width: nat)
    requires
        n < byte_range(width),
    ensures
        be_bytes(n, width).len() == width,
        be_value(be_bytes(n, width)) == n,
    decreases width,
{
    lemma_be_bytes_len(n, width);
    if width > 0 {
        lemma_be_round_trip(n / 256, (width - 1) as nat);
        assert(be_bytes(n, width).drop_last() =~= be_bytes(n / 256, (width - 1) as nat));
    }
}

} // verus!
