use vstd::prelude::*;

verus! {

/// `bytes::BytesMut`, a growable buffer of bytes. What it holds is spoken
/// of through [`buffered`].
#[verifier::external_type_specification]
#[verifier::external_body]
pub struct ExBytesMut(bytes::BytesMut);

/// `bytes::Bytes`, a buffer of bytes that no longer changes. What it holds
/// is spoken of through [`frozen`].
#[verifier::external_type_specification]
#[verifier::external_body]
pub struct ExBytes(bytes::Bytes);

/// The bytes that a growable buffer currently holds, in order.
pub uninterp spec fn buffered(buf: &bytes::BytesMut) -> Seq<u8>;

/// The bytes that a frozen buffer holds, in order.
pub uninterp spec fn frozen(data: &bytes::Bytes) -> Seq<u8>;

/// `BytesMut::new`: a buffer that holds no bytes.
#[verifier::external_body]
pub(crate) fn buffer_new() -> (buf: bytes::BytesMut)
    ensures
        buffered(&buf) == Seq::<u8>::empty(),
{
    bytes::BytesMut::new()
}

/// `BytesMut::extend_from_slice`: the given bytes are appended to what the
/// buffer held. The outside function panics when the new length overflows
/// `usize`, which the precondition excludes.
#[verifier::external_body]
pub(crate) fn buffer_extend(buf: &mut bytes::BytesMut, extend: &[u8])
    requires
        buffered(old(buf)).len() + extend@.len() <= usize::MAX,
    ensures
        buffered(final(buf)) == buffered(old(buf)) + extend@,
{
    buf.extend_from_slice(extend)
}

/// `BytesMut::clear`: afterwards the buffer holds no bytes.
#[verifier::external_body]
pub(crate) fn buffer_clear(buf: &mut bytes::BytesMut)
    ensures
        buffered(final(buf)) == Seq::<u8>::empty(),
{
    buf.clear()
}

/// `BytesMut` dereferenced to a slice: the slice shows exactly the bytes held.
#[verifier::external_body]
pub(crate) fn buffer_bytes(buf: &bytes::BytesMut) -> (slice: &[u8])
    ensures
        slice@ == buffered(buf),
{
    buf.as_ref()
}

/// `BytesMut::split_off`: the buffer keeps the bytes before `at` and the
/// returned buffer holds those from `at` on. The outside function panics when
/// `at` exceeds the capacity; the precondition keeps `at` within the length.
#[verifier::external_body]
pub(crate) fn buffer_split_off(buf: &mut bytes::BytesMut, at: usize) -> (tail: bytes::BytesMut)
    requires
        at <= buffered(old(buf)).len(),
    ensures
        buffered(final(buf)) == buffered(old(buf)).subrange(0, at as int),
        buffered(&tail) == buffered(old(buf)).subrange(at as int, buffered(old(buf)).len() as int),
{
    buf.split_off(at)
}

/// `BytesMut::freeze`: the frozen buffer holds the same bytes.
#[verifier::external_body]
pub(crate) fn buffer_freeze(buf: bytes::BytesMut) -> (data: bytes::Bytes)
    ensures
        frozen(&data) == buffered(&buf),
{
    buf.freeze()
}

/// `Bytes::new`: a frozen buffer that holds no bytes.
#[verifier::external_body]
pub(crate) fn frozen_empty() -> (data: bytes::Bytes)
    ensures
        frozen(&data) == Seq::<u8>::empty(),
{
    bytes::Bytes::new()
}

/// `Bytes::copy_from_slice`: a frozen buffer that holds a copy of the slice.
#[verifier::external_body]
pub(crate) fn frozen_copy(data: &[u8]) -> (copy: bytes::Bytes)
    ensures
        frozen(&copy) == data@,
{
    bytes::Bytes::copy_from_slice(data)
}

} // verus!
