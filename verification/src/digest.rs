//! SHA-256 digests, incremental and in one go.

use sha2::{Digest, Sha256};
use vstd::prelude::*;

verus! {

/// The SHA-256 hasher of the `sha2` crate.
#[verifier::external_type_specification]
#[verifier::external_body]
pub struct ExSha256(sha2::Sha256);

/// The bytes that a hasher has taken in so far.
pub uninterp spec fn absorbed(hasher: Sha256) -> Seq<u8>;

/// The SHA-256 digest of a byte string.
pub uninterp spec fn sha256(data: Seq<u8>) -> Seq<u8>;

/// `Sha256::new`: a hasher that has taken in nothing.
#[verifier::external_body]
pub(crate) fn sha256_new() -> (hasher: Sha256)
    ensures
        absorbed(hasher) == Seq::<u8>::empty(),
{
    Sha256::new()
}

/// `Digest::update` takes in the bytes after those that came before.
#[verifier::external_body]
pub(crate) fn sha256_update(hasher: &mut Sha256, bytes: &[u8])
    ensures
        absorbed(*final(hasher)) == absorbed(*old(hasher)) + bytes@,
{
    hasher.update(bytes);
}

/// `Digest::finalize` on a clone: the digest of all that was taken in, which is
/// 32 bytes long.
#[verifier::external_body]
pub(crate) fn sha256_finish(hasher: &Sha256) -> (digest: [u8; 32])
    ensures
        digest@ == sha256(absorbed(*hasher)),
{
    hasher.clone().finalize().into()
}

/// The SHA-256 digest of a byte string.
pub fn digest_of(data: &[u8]) -> (digest: [u8; 32])
    ensures
        digest@ == sha256(data@),
{
    let mut hasher = sha256_new();
    sha256_update(&mut hasher, data);
    proof {
        assert(Seq::<u8>::empty() + data@ == data@);
    }
    sha256_finish(&hasher)
}

} // verus!
