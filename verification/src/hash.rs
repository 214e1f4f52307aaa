//! The transcript hash of the sigma protocols.

use vstd::prelude::*;

verus! {

/// The BLAKE2b digest of `data` with an output of `out_len` bytes, unkeyed
/// and with default parameters otherwise.
pub uninterp spec fn blake2b_spec(data: Seq<u8>, out_len: nat) -> Seq<u8>;

/// Hashes `data` with `blake2b_simd::Params::hash`, after `hash_length` has
/// set the digest length: the result is the BLAKE2b digest of that length.
#[verifier::external_body]
pub(crate) fn blake2b(data: &[u8], out_len: usize) -> (digest: Vec<u8>)
    requires
        1 <= out_len <= 64,
    ensures
        digest@ == blake2b_spec(data@, out_len as nat),
        digest@.len() == out_len,
{
    let mut params = blake2b_simd::Params::new();
    params.hash_length(out_len);
    params.hash(data).as_bytes().to_vec()
}

/// The length in bytes of the digests that the proofs use.
pub const DIGEST_LEN: usize = 32;

/// The 32-byte BLAKE2b digest of a transcript.
pub open spec fn digest32_spec(transcript: Seq<u8>) -> Seq<u8> {
    blake2b_spec(transcript, 32)
}

/// Computes the 32-byte BLAKE2b digest of a transcript.
pub fn digest32(transcript: &[u8]) -> (digest: [u8; 32])
    ensures
        digest@ == digest32_spec(transcript@),
{
    let d = blake2b(transcript, DIGEST_LEN);
    crate::encoding::to_array32(d.as_slice())
}

} // verus!
