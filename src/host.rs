use vstd::prelude::*;

verus! {

/// The longest byte string hashed in one call. A fresh host environment hashes it well within
/// its default budget of 100,000,000 CPU instructions and 40 MiB of memory; SHA-256 is charged
/// at about 55 instructions per byte.
pub const MAX_PREIMAGE_LEN: usize = 1_000_000;

/// The SHA-256 digest of a byte string, as the ledger host computes it.
pub uninterp spec fn sha256_of(data: Seq<u8>) -> Seq<u8>;

/// Relies on soroban_sdk::crypto::Crypto::sha256 (reached through Env::crypto) for the digest
/// of the bytes, and on Bytes::from_slice and Hash::to_array to carry them across. Each call
/// hashes in an environment of its own, made by Env::default, so that no budget spent elsewhere
/// counts against it.
#[verifier::external_body]
pub(crate) fn sha256(data: &Vec<u8>) -> (r: [u8; 32])
    requires
        data.len() <= MAX_PREIMAGE_LEN,
    ensures
        r@ == sha256_of(data@),
{
    let env = soroban_sdk::Env::default();
    let bytes = soroban_sdk::Bytes::from_slice(&env, data.as_slice());
    env.crypto().sha256(&bytes).to_array()
}

} // verus!
