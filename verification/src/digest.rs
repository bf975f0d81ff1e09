//! Full-content digests: the discriminator of the final pipeline stage.
//!
//! Digest equality is the engine's final proof of duplication — no
//! byte-for-byte comparison follows it — so the digest must be
//! collision-resistant; SHA-256 is used.  Reading file contents is the
//! caller's concern: the functions here map bytes already in memory to their
//! digest.

use sha2::Digest;
use vstd::prelude::*;

verus! {

/// The SHA-256 digest of a byte sequence.
pub uninterp spec fn sha256_of(data: Seq<u8>) -> Seq<u8>;

/// Relies on sha2::Sha256: the 32-byte digest depends on the input bytes
/// alone (FIPS 180-4).
#[verifier::external_body]
fn sha256(data: &[u8]) -> (r: Vec<u8>)
    ensures
        r@ == sha256_of(data@),
        r@.len() == 32,
{
    sha2::Sha256::digest(data).to_vec()
}

/// The digest of the empty input: what every zero-byte file hashes to.
pub fn empty_digest() -> (r: Vec<u8>)
    ensures
        r@ == sha256_of(Seq::<u8>::empty()),
        r@.len() == 32,
{
    let none: Vec<u8> = Vec::new();
    let r = sha256(none.as_slice());
    proof {
        assert(none@ =~= Seq::<u8>::empty());
    }
    r
}

/// The digest of one file's full contents.  A zero-size file is never read:
/// its digest is the digest of the empty input by construction, so `content`
/// may simply be an empty slice there — as it is for any file whose size
/// matches its contents.
pub fn file_digest(size: u64, content: &[u8]) -> (r: Vec<u8>)
    requires
        content@.len() == size,
    ensures
        r@ == sha256_of(content@),
        r@.len() == 32,
{
    if size == 0 {
        let r = empty_digest();
        proof {
            assert(content@ =~= Seq::<u8>::empty());
        }
        r
    } else {
        sha256(content)
    }
}

} // verus!
