//! SHA-256, computed by the `sha2` crate.
use vstd::prelude::*;
use sha2::{Digest, Sha256};

verus! {

/// `sha2::Sha256`, the state of a hash that is fed piece by piece.
#[verifier::external_type_specification]
#[verifier::external_body]
pub struct ExSha256(sha2::Sha256);

/// The bytes that a hash has been fed so far.
pub uninterp spec fn absorbed(h: Sha256) -> Seq<u8>;

/// The SHA-256 digest of bytes.
pub uninterp spec fn sha256(data: Seq<u8>) -> Seq<u8>;

/// Calls `Sha256::new`: a hash that has been fed nothing.
#[verifier::external_body]
pub(crate) fn new_hash() -> (h: Sha256)
    ensures
        absorbed(h) == Seq::<u8>::empty(),
{
    Sha256::new()
}

/// Calls `Digest::update`: feeds `data` to the hash, behind what it was fed before.
#[verifier::external_body]
pub(crate) fn feed(h: &mut Sha256, data: &[u8])
    ensures
        absorbed(*final(h)) == absorbed(*old(h)) + data@,
{
    h.update(data);
}

/// Calls `Digest::finalize`: the digest, of 32 bytes, of all that the hash was fed.
#[verifier::external_body]
pub(crate) fn finish(h: Sha256) -> (r: Vec<u8>)
    ensures
        r@ == sha256(absorbed(h)),
        r@.len() == 32,
{
    h.finalize().to_vec()
}

} // verus!
