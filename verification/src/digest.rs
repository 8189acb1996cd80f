//! The hash that names stored nouns.

use crypto::blake2b::Blake2b;
use vstd::prelude::*;

verus! {

/// The length of a digest in bytes.
pub const DIGEST_BYTES: usize = 64;

/// The tag byte that starts every storage key.
pub const KEY_TAG: u8 = 1;

/// The BLAKE2b digest of `input` that is `length` bytes long, without key,
/// salt or personalization.
pub uninterp spec fn blake2b_digest(input: Seq<u8>, length: nat) -> Seq<u8>;

/// `crypto::blake2b::Blake2b::blake2b`, called with an output buffer of
/// `length` bytes and an empty key. It fills the whole buffer with the
/// digest of `input`, which depends on `input` and `length` alone. It
/// refuses a length of 0 and one above 64.
#[verifier::external_body]
pub(crate) fn blake2b(input: &[u8], length: usize) -> (digest: Vec<u8>)
    requires
        1 <= length <= 64,
    ensures
        digest@ == blake2b_digest(input@, length as nat),
        digest@.len() == length,
{
    let mut digest = vec![0u8; length];
    Blake2b::blake2b(&mut digest[..], input, &[][..]);
    digest
}

/// The digest that names a noun's bytes.
pub open spec fn blake2b_512(input: Seq<u8>) -> Seq<u8> {
    blake2b_digest(input, DIGEST_BYTES as nat)
}

/// The storage key for a digest: the tag byte, then the digest.
pub open spec fn key_of(digest: Seq<u8>) -> Seq<u8> {
    seq![KEY_TAG] + digest
}

/// The storage key for `digest`.
pub fn storage_key(digest: &[u8]) -> (key: Vec<u8>)
    ensures
        key@ == key_of(digest@),
{
    let mut key: Vec<u8> = Vec::new();
    key.push(KEY_TAG);
    key.extend_from_slice(digest);
    key
}

} // verus!
