//! The SHA-1 digest used for info-hash derivation, behind a trusted wrapper.

use vstd::prelude::*;
use sha1::Digest;

verus! {

/// The 20-byte SHA-1 digest of a byte sequence. The algorithm itself is not
/// modelled; `sha1_digest` below is trusted to compute this function.
pub uninterp spec fn sha1_of(bytes: Seq<u8>) -> Seq<u8>;

/// Relies on `sha1::Sha1` (via the `Digest` trait): feeding `update` the
/// whole input and calling `finalize` yields the 20-byte SHA-1 digest,
/// which depends on the input bytes alone.
#[verifier::external_body]
pub(crate) fn sha1_digest(bytes: &Vec<u8>) -> (r: Vec<u8>)
    ensures
        r@ == sha1_of(bytes@),
        r@.len() == 20,
{
    let mut hasher = sha1::Sha1::new();
    hasher.update(bytes.as_slice());
    hasher.finalize().to_vec()
}

} // verus!
