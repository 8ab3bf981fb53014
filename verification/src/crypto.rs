//! Hashing through the ledger host.
use soroban_sdk::Bytes;
use soroban_sdk::Env;
use vstd::prelude::*;

verus! {

/// The ledger host environment, carried through opaquely.
#[verifier::external_type_specification]
#[verifier::external_body]
pub struct ExEnv(Env);

/// SHA-256 digest of a byte string, as the ledger host computes it.
pub uninterp spec fn sha256_digest(data: Seq<u8>) -> Seq<u8>;

/// Calls `Crypto::sha256` of the host behind `env` on `data`.
/// Claimed: the 32 returned bytes are the digest named `sha256_digest`
/// of the input bytes, a function of the input alone.
#[verifier::external_body]
pub fn sha256(env: &Env, data: &Vec<u8>) -> (r: [u8; 32])
    ensures
        r@ == sha256_digest(data@),
{
    env.crypto().sha256(&Bytes::from_slice(env, data.as_slice())).to_array()
}

} // verus!
