//! The growable byte buffer that connections feed the codec from. The
//! buffer type comes from the `bytes` crate; the two operations the codec
//! needs stand behind trusted wrappers, stated over the buffer's readable
//! bytes.

use vstd::prelude::*;

verus! {

#[verifier::external_type_specification]
#[verifier::external_body]
pub struct ExBytesMut(bytes::BytesMut);

/// The readable bytes of a `bytes::BytesMut` buffer, front to back.
pub uninterp spec fn bytes_view(b: bytes::BytesMut) -> Seq<u8>;

/// Relies on `bytes::BytesMut`'s `Deref` to `[u8]`: the full slice of
/// readable bytes, in order.
#[verifier::external_body]
pub(crate) fn buf_bytes(b: &bytes::BytesMut) -> (r: &[u8])
    ensures
        r@ == bytes_view(*b),
{
    &b[..]
}

/// Relies on `bytes::Buf::advance` for `BytesMut`: discards the first `n`
/// readable bytes and keeps the rest. `advance` panics past the end, so the
/// count is bounded here.
#[verifier::external_body]
pub(crate) fn buf_advance(b: &mut bytes::BytesMut, n: usize)
    requires
        n <= bytes_view(*old(b)).len(),
    ensures
        bytes_view(*final(b)) == bytes_view(*old(b)).skip(n as int),
{
    bytes::Buf::advance(b, n);
}

} // verus!
