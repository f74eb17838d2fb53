//! The buffers of the decoders.
//!
//! A decoder collects the data of a leaf in a `BytesMut` of the `bytes`
//! crate and hands it out as `Bytes`, which can be passed on without a
//! copy. The functions of that crate are called through the trusted
//! functions of this module, whose contracts speak of the bytes that the
//! buffers hold.
use vstd::prelude::*;
use bytes::{Bytes, BytesMut};

verus! {

/// Shared bytes of the `bytes` crate. Nothing of their inside is known
/// here: [`bytes_content`] names the bytes that they hold.
#[verifier::external_type_specification]
#[verifier::external_body]
pub struct ExBytes(Bytes);

/// A buffer of bytes of the `bytes` crate. Nothing of its inside is known
/// here: [`buffer_content`] names the bytes that it holds.
#[verifier::external_type_specification]
#[verifier::external_body]
pub struct ExBytesMut(BytesMut);

/// The bytes that shared bytes hold, from the first to the last.
pub uninterp spec fn bytes_content(b: Bytes) -> Seq<u8>;

/// The bytes that a buffer holds, from the first to the last.
pub uninterp spec fn buffer_content(b: BytesMut) -> Seq<u8>;

/// `Clone` of `Bytes`: the clone shares the memory of the bytes that it was
/// made from, and so holds the same bytes.
pub assume_specification[ <Bytes as Clone>::clone ](b: &Bytes) -> (r: Bytes)
    ensures
        bytes_content(r) == bytes_content(*b),
;

/// Calls `BytesMut::new`: a buffer without bytes, which has not allocated.
#[verifier::external_body]
pub(crate) fn buffer_new() -> (b: BytesMut)
    ensures
        buffer_content(b) == Seq::<u8>::empty(),
{
    BytesMut::new()
}

/// Calls `BytesMut::clear`, which removes all bytes and keeps the capacity.
#[verifier::external_body]
pub(crate) fn buffer_clear(b: &mut BytesMut)
    ensures
        buffer_content(*final(b)) == Seq::<u8>::empty(),
{
    b.clear()
}

/// Calls `BytesMut::extend_from_slice`, which appends the bytes of `data`.
#[verifier::external_body]
pub(crate) fn buffer_extend(b: &mut BytesMut, data: &[u8])
    ensures
        buffer_content(*final(b)) == buffer_content(*old(b)) + data@,
{
    b.extend_from_slice(data)
}

/// Calls `BytesMut::split`, which hands out all bytes of the buffer in a
/// buffer of their own and leaves the buffer empty.
#[verifier::external_body]
pub(crate) fn buffer_split(b: &mut BytesMut) -> (r: BytesMut)
    ensures
        buffer_content(r) == buffer_content(*old(b)),
        buffer_content(*final(b)) == Seq::<u8>::empty(),
{
    b.split()
}

/// Calls `BytesMut::freeze`, which turns a buffer into shared bytes that
/// hold what the buffer held.
#[verifier::external_body]
pub(crate) fn buffer_freeze(b: BytesMut) -> (r: Bytes)
    ensures
        bytes_content(r) == buffer_content(b),
{
    b.freeze()
}

/// Borrows the bytes of a buffer through `AsRef` of `BytesMut`.
#[verifier::external_body]
pub(crate) fn buffer_slice(b: &BytesMut) -> (s: &[u8])
    ensures
        s@ == buffer_content(*b),
{
    b.as_ref()
}

/// Borrows the bytes of shared bytes through `AsRef` of `Bytes`.
#[verifier::external_body]
pub(crate) fn bytes_slice(b: &Bytes) -> (s: &[u8])
    ensures
        s@ == bytes_content(*b),
{
    b.as_ref()
}

} // verus!
