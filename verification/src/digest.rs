//! The content hash of a room state.

use crate::state_set::{blobs_of, concat, lemma_lists_set_unique, push_blobs, sorted_blobs, StateSet};
use vstd::prelude::*;

verus! {

/// The SHA-256 digest of `data`.
pub uninterp spec fn sha256(data: Seq<u8>) -> Seq<u8>;

/// The digest that names a state: the hash of its blobs in byte order, one
/// after another with nothing between them.
pub open spec fn spec_state_hash(state: Set<Seq<u8>>) -> Seq<u8> {
    sha256(concat(sorted_blobs(state)))
}

/// Calls `sha2::Sha256::digest` on `data`. The digest is a function of the
/// bytes alone and is 32 bytes long.
#[verifier::external_body]
pub(crate) fn sha256_digest(data: &[u8]) -> (d: Vec<u8>)
    ensures
        d@ == sha256(data@),
        d@.len() == 32,
{
    <sha2::Sha256 as sha2::Digest>::digest(data).to_vec()
}

/// The bytes that are hashed for `state`.
pub fn hash_input(state: &StateSet) -> (out: Vec<u8>)
    ensures
        out@ == concat(sorted_blobs(state@)),
{
    let blobs = state.to_vec();
    let mut out: Vec<u8> = Vec::new();
    push_blobs(&mut out, &blobs);
    proof {
        lemma_lists_set_unique(blobs_of(blobs@), sorted_blobs(state@), state@);
        assert(out@ =~= concat(blobs_of(blobs@)));
    }
    out
}

/// The 32-byte digest that names `state`.
pub fn calculate_hash(state: &StateSet) -> (d: Vec<u8>)
    ensures
        d@ == spec_state_hash(state@),
        d@.len() == 32,
{
    let input = hash_input(state);
    sha256_digest(input.as_slice())
}

} // verus!
