//! The byte buffer that the serial framing reads from and writes to.
//!
//! `bytes::BytesMut` is used as is; its contents are named by
//! [`buffer_bytes`] and every method the protocol uses is reached through a
//! wrapper whose contract speaks of that name.
use vstd::prelude::*;
use bytes::BytesMut;
use vstd::string::StringSliceAdditionalSpecFns;

verus! {

#[verifier::external_type_specification]
#[verifier::external_body]
pub struct ExBytesMut(bytes::BytesMut);

/// The bytes currently held by a `BytesMut`, from its start to its length.
pub uninterp spec fn buffer_bytes(buf: BytesMut) -> Seq<u8>;

/// `<BytesMut as AsRef<[u8]>>::as_ref`: the held bytes as a slice.
#[verifier::external_body]
pub(crate) fn buffer_as_slice(buf: &BytesMut) -> (s: &[u8])
    ensures
        s@ == buffer_bytes(*buf),
{
    buf.as_ref()
}

/// `BytesMut::clear`: afterwards the buffer holds no bytes.
#[verifier::external_body]
pub(crate) fn buffer_clear(buf: &mut BytesMut)
    ensures
        buffer_bytes(*final(buf)) == Seq::<u8>::empty(),
{
    buf.clear()
}

/// `BytesMut::split_to`: hands out the first `at` bytes and keeps the rest.
/// The method panics when `at` exceeds the length, which `requires` rules out.
#[verifier::external_body]
pub(crate) fn buffer_split_to(buf: &mut BytesMut, at: usize) -> (head: BytesMut)
    requires
        at <= buffer_bytes(*old(buf)).len(),
    ensures
        buffer_bytes(head) == buffer_bytes(*old(buf)).take(at as int),
        buffer_bytes(*final(buf)) == buffer_bytes(*old(buf)).skip(at as int),
{
    buf.split_to(at)
}

/// `<BytesMut as std::fmt::Write>::write_str`, with its result told as a
/// `bool` (`true` for `Ok`). The method appends the whole string when the
/// buffer's spare capacity allows it and otherwise fails and leaves the
/// buffer as it was; the capacity is not modelled, so the contract states
/// what holds either way.
#[verifier::external_body]
pub(crate) fn buffer_write_str(buf: &mut BytesMut, s: &str) -> (ok: bool)
    ensures
        ok ==> buffer_bytes(*final(buf)) == buffer_bytes(*old(buf)) + s.spec_bytes(),
        !ok ==> buffer_bytes(*final(buf)) == buffer_bytes(*old(buf)),
{
    std::fmt::Write::write_str(buf, s).is_ok()
}

} // verus!
