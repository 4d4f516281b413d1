//! What the codec takes on trust about `bytes::BytesMut`, the buffer in
//! which an incoming byte stream piles up.

use bytes::BytesMut;
use vstd::prelude::*;

verus! {

/// `bytes::BytesMut`, a growable buffer of bytes. Nothing is known of what
/// is inside one but what the items below say.
#[verifier::external_type_specification]
#[verifier::external_body]
pub struct ExBytesMut(bytes::BytesMut);

/// The bytes that a buffer holds, first to last.
pub uninterp spec fn contents(buffer: BytesMut) -> Seq<u8>;

/// `BytesMut::len`: the number of bytes that the buffer holds.
pub assume_specification[ bytes::BytesMut::len ](buffer: &BytesMut) -> (len: usize)
    ensures
        len == contents(*buffer).len(),
;

/// `BytesMut::split_to`: the buffer's first `at` bytes are handed out as a
/// buffer of their own, and the buffer keeps the bytes from `at` on. The
/// outside function panics where `at` is more than the buffer holds.
pub assume_specification[ bytes::BytesMut::split_to ](buffer: &mut BytesMut, at: usize) -> (head:
    BytesMut)
    requires
        at <= contents(*old(buffer)).len(),
    ensures
        contents(head) == contents(*old(buffer)).subrange(0, at as int),
        contents(*final(buffer)) == contents(*old(buffer)).subrange(
            at as int,
            contents(*old(buffer)).len() as int,
        ),
;

/// `Vec::from` a `BytesMut`, the conversion that `bytes` offers: the vector
/// holds the buffer's bytes, in order, and nothing else.
#[verifier::external_body]
pub(crate) fn into_vec(buffer: BytesMut) -> (copied: Vec<u8>)
    ensures
        copied@ == contents(buffer),
{
    Vec::from(buffer)
}

} // verus!
