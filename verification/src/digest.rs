//! SHA-256, over a whole byte string and over one that arrives in pieces.

use sha2::Digest;
use vstd::prelude::*;

verus! {

/// A SHA-256 computation in progress.
#[verifier::external_type_specification]
#[verifier::external_body]
pub struct ExSha256(sha2::Sha256);

/// The SHA-256 digest of `bytes`.
pub uninterp spec fn sha256(bytes: Seq<u8>) -> Seq<u8>;

/// The bytes that a computation in progress has taken in so far.
pub uninterp spec fn absorbed(hasher: sha2::Sha256) -> Seq<u8>;

/// `sha2::Sha256::new`: a computation that has taken in nothing.
#[verifier::external_body]
pub(crate) fn start() -> (r: sha2::Sha256)
    ensures
        absorbed(r) == Seq::<u8>::empty(),
{
    sha2::Sha256::new()
}

/// `sha2::Sha256::update`: takes in `bytes` after what came before.
#[verifier::external_body]
pub(crate) fn absorb(hasher: &mut sha2::Sha256, bytes: &[u8])
    ensures
        absorbed(*final(hasher)) == absorbed(*old(hasher)) + bytes@,
{
    hasher.update(bytes)
}

/// `sha2::Sha256::finalize`: the digest of everything taken in, 32 bytes.
#[verifier::external_body]
pub(crate) fn finish(hasher: sha2::Sha256) -> (r: Vec<u8>)
    ensures
        r@ == sha256(absorbed(hasher)),
        r@.len() == 32,
{
    hasher.finalize().to_vec()
}

/// The SHA-256 digest of `bytes`.
pub fn digest(bytes: &[u8]) -> (r: Vec<u8>)
    ensures
        r@ == sha256(bytes@),
        r@.len() == 32,
{
    let mut hasher = start();
    absorb(&mut hasher, bytes);
    assert(Seq::<u8>::empty() + bytes@ =~= bytes@);
    finish(hasher)
}

} // verus!
