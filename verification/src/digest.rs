//! SHA-1, as the `crypto` crate computes it.

use crypto::digest::Digest;
use crypto::sha1::Sha1;
use vstd::prelude::*;

verus! {

/// The number of bytes of a SHA-1 digest.
pub const DIGEST_LEN: usize = 20;

/// The SHA-1 digest of a message.
pub uninterp spec fn sha1_digest(message: Seq<u8>) -> Seq<u8>;

/// Feeds the message to a fresh `crypto::sha1::Sha1` and reads its result.
///
/// Not proved: that the result is the SHA-1 digest of the message, which has
/// 20 bytes. The hasher counts the message's bits in 64 bits and gives up
/// beyond that, so that the message is to be shorter than 2^61 bytes.
#[verifier::external_body]
pub(crate) fn sha1(message: &[u8]) -> (digest: Vec<u8>)
    requires
        message@.len() < 0x2000_0000_0000_0000,
    ensures
        digest@ == sha1_digest(message@),
        digest@.len() == DIGEST_LEN,
{
    let mut hasher = Sha1::new();
    hasher.input(message);
    let mut digest = vec![0u8; DIGEST_LEN];
    hasher.result(&mut digest);
    digest
}

} // verus!
