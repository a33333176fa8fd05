//! The growable byte buffer of the `bytes` crate, as the codec writes into it.
use bytes::BufMut;
use bytes::BytesMut;
use vstd::prelude::*;

verus! {

/// The `bytes` crate's `BytesMut`, seen from here only through `bytes_of`.
#[verifier::external_type_specification]
#[verifier::external_body]
pub struct ExBytesMut(BytesMut);

/// The bytes a `BytesMut` holds, in order.
pub uninterp spec fn bytes_of(b: BytesMut) -> Seq<u8>;

/// The two bytes of `v`, most significant first.
pub open spec fn be16(v: u16) -> Seq<u8> {
    seq![(v / 0x100) as u8, (v % 0x100) as u8]
}

/// The four bytes of `v`, most significant first.
pub open spec fn be32(v: u32) -> Seq<u8> {
    seq![
        (v / 0x100_0000) as u8,
        ((v / 0x1_0000) % 0x100) as u8,
        ((v / 0x100) % 0x100) as u8,
        (v % 0x100) as u8,
    ]
}

/// A length, or `usize::MAX` when it does not fit.
pub open spec fn capped(n: int) -> usize {
    if n > usize::MAX {
        usize::MAX
    } else {
        n as usize
    }
}

/// Saturating addition of capped lengths is the capped sum.
pub proof fn lemma_capped_add(x: int, y: int)
    requires
        0 <= x,
        0 <= y,
    ensures
        (if capped(x) + capped(y) > usize::MAX {
            usize::MAX
        } else {
            (capped(x) + capped(y)) as usize
        }) == capped(x + y),
{
}

/// Relies on `BytesMut::new`: an empty buffer.
pub assume_specification[ BytesMut::new ]() -> (r: BytesMut)
    ensures
        bytes_of(r) == Seq::<u8>::empty(),
;

/// Relies on `BytesMut::extend_from_slice`: appends the slice; it panics when
/// the new length overflows what an allocation may hold.
pub assume_specification[ BytesMut::extend_from_slice ](b: &mut BytesMut, extend: &[u8])
    requires
        bytes_of(*old(b)).len() + extend@.len() <= isize::MAX,
    ensures
        bytes_of(*final(b)) == bytes_of(*old(b)) + extend@,
;

/// Relies on `Clone for BytesMut`: a buffer holding the same bytes.
pub assume_specification[ <BytesMut as Clone>::clone ](b: &BytesMut) -> (r: BytesMut)
    ensures
        bytes_of(r) == bytes_of(*b),
;

/// Relies on `Deref for BytesMut`: the held bytes as a slice.
#[verifier::external_body]
pub(crate) fn as_slice(b: &BytesMut) -> (r: &[u8])
    ensures
        r@ == bytes_of(*b),
{
    &b[..]
}

/// Relies on `BufMut::put_u8` of `BytesMut`: appends one byte.
#[verifier::external_body]
pub(crate) fn put_u8(b: &mut BytesMut, v: u8)
    requires
        bytes_of(*old(b)).len() + 1 <= isize::MAX,
    ensures
        bytes_of(*final(b)) == bytes_of(*old(b)).push(v),
{
    b.put_u8(v)
}

/// Relies on `BufMut::put_u16` of `BytesMut`: appends two bytes, big-endian.
#[verifier::external_body]
pub(crate) fn put_u16(b: &mut BytesMut, v: u16)
    requires
        bytes_of(*old(b)).len() + 2 <= isize::MAX,
    ensures
        bytes_of(*final(b)) == bytes_of(*old(b)) + be16(v),
{
    b.put_u16(v)
}

/// Relies on `BufMut::put_u32` of `BytesMut`: appends four bytes, big-endian.
#[verifier::external_body]
pub(crate) fn put_u32(b: &mut BytesMut, v: u32)
    requires
        bytes_of(*old(b)).len() + 4 <= isize::MAX,
    ensures
        bytes_of(*final(b)) == bytes_of(*old(b)) + be32(v),
{
    b.put_u32(v)
}

} // verus!
