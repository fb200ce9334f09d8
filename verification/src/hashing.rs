//! Content hashing: the SHA-256 digest of a payload, rendered as the
//! 64-character lowercase hex string that addresses an object.

use vstd::prelude::*;
use crate::bytes::{hex_of, lemma_hex_of_len, to_hex};

verus! {

/// The SHA-256 digest of a byte string; a function of the bytes alone.
pub uninterp spec fn sha256_of(data: Seq<u8>) -> Seq<u8>;

/// The object hash of a payload: its SHA-256 digest in lowercase hex.
pub open spec fn hash_hex_of(data: Seq<u8>) -> Seq<u8> {
    hex_of(sha256_of(data))
}

/// Relies on sha2's `Sha256`: the digest is 32 bytes and depends on the
/// input bytes alone.
#[verifier::external_body]
fn sha256_digest(data: &Vec<u8>) -> (r: Vec<u8>)
    ensures
        r@ == sha256_of(data@),
        r@.len() == 32,
{
    <sha2::Sha256 as sha2::Digest>::digest(data.as_slice()).as_slice().to_vec()
}

/// The 64-character lowercase hex SHA-256 hash of a byte string.
pub fn hash_hex(data: &Vec<u8>) -> (r: Vec<u8>)
    ensures
        r@ == hash_hex_of(data@),
        r@.len() == 64,
{
    let digest = sha256_digest(data);
    proof {
        lemma_hex_of_len(digest@);
    }
    to_hex(&digest)
}

} // verus!
