//! Content hash of a firmware image.
use vstd::prelude::*;

verus! {

/// The SHA-256 digest of a byte sequence, named but not written out here:
/// contracts relate results to this name, and the computation itself is the
/// outside library's.
pub uninterp spec fn sha256_of(data: Seq<u8>) -> Seq<u8>;

/// Relies on `ring::digest::digest` with `ring::digest::SHA256`: the 32-byte
/// digest is a function of the input bytes alone. The length bound keeps the
/// input below the algorithm's maximum, past which ring fails.
#[verifier::external_body]
pub(crate) fn sha256(data: &[u8]) -> (r: [u8; 32])
    requires
        data@.len() < 0x2000000000000000,
    ensures
        r@ == sha256_of(data@),
{
    let digest = ring::digest::digest(&ring::digest::SHA256, data);
    let mut out = [0u8; 32];
    out.copy_from_slice(digest.as_ref());
    out
}

} // verus!
