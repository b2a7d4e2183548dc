//! The node hash.

use vstd::prelude::*;

verus! {

/// Length in bytes of a node hash.
pub const HASH_LEN: usize = 32;

/// The 256-bit BLAKE2b digest of a byte string.
pub uninterp spec fn blake2_256_of(data: Seq<u8>) -> Seq<u8>;

/// The node hash of a byte string: its BLAKE2b-256 digest, which is always
/// `HASH_LEN` bytes long (the other arm only makes that visible to proofs).
pub open spec fn digest(data: Seq<u8>) -> Seq<u8> {
    let h = blake2_256_of(data);
    if h.len() == HASH_LEN {
        h
    } else {
        Seq::new(HASH_LEN as nat, |i: int| 0u8)
    }
}

/// Relies on sp_crypto_hashing::blake2_256: a 32-byte digest that depends
/// on the input bytes alone.
#[verifier::external_body]
fn blake2_256(data: &Vec<u8>) -> (r: Vec<u8>)
    ensures
        r@ == blake2_256_of(data@),
        r@.len() == HASH_LEN,
{
    polkadot_sdk::sp_crypto_hashing::blake2_256(data.as_slice()).to_vec()
}

} // verus!

verus! {

/// Hashes a node encoding.
pub fn hash_node(data: &Vec<u8>) -> (r: Vec<u8>)
    ensures
        r@ == digest(data@),
        r@.len() == HASH_LEN,
{
    blake2_256(data)
}

} // verus!
