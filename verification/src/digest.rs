//! SHA3-256, by which files and pieces are named.
use vstd::prelude::*;
use sha3::Digest;
use sha3::Sha3_256;

verus! {

/// The SHA3-256 digest of `data`.
pub uninterp spec fn sha3_256_digest(data: Seq<u8>) -> Seq<u8>;

/// Calls `Sha3_256::digest` of the sha3 crate (the `Digest` trait of the
/// digest crate: a fresh hasher fed `data` once, then finalized) and copies
/// the digest into a vector. The contract claims that the result is the
/// digest of `data`, a function of `data` alone, and that it is 32 bytes long,
/// the output size the crate declares for SHA3-256.
#[verifier::external_body]
pub(crate) fn sha3_256(data: &[u8]) -> (r: Vec<u8>)
    ensures
        r@ == sha3_256_digest(data@),
        r@.len() == 32,
{
    Sha3_256::digest(data).to_vec()
}

} // verus!
