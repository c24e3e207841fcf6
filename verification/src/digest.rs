//! The 160-bit fingerprint of a byte string.

use sha1::Digest;
use vstd::prelude::*;

verus! {

/// The SHA-1 digest of `data`: 20 bytes that depend on the bytes of `data`
/// alone.
pub uninterp spec fn sha1_digest(data: Seq<u8>) -> Seq<u8>;

/// Calls `sha1::Sha1::digest`, which feeds `data` to a fresh hasher and
/// finishes it. Nothing is proved of the outcome: the contract only gives
/// it its name.
#[verifier::external_body]
pub(crate) fn sha1_of(data: &[u8]) -> (out: [u8; 20])
    ensures
        out@ == sha1_digest(data@),
{
    sha1::Sha1::digest(data).into()
}

} // verus!
