//! BLAKE2b with a personalization.

use crate::bytes::to_array;
use vstd::prelude::*;

verus! {

/// The BLAKE2b digest of `data`, `len` bytes long, under a personalization.
pub uninterp spec fn blake2b(personal: Seq<u8>, len: nat, data: Seq<u8>) -> Seq<u8>;

/// `blake2b_simd::Params` with a hash length and a personalization, over one input: a
/// digest of that length.
#[verifier::external_body]
fn blake2b_digest(personal: &[u8; 16], len: usize, data: &[u8]) -> (r: Vec<u8>)
    requires
        1 <= len <= 64,
    ensures
        r@ == blake2b(personal@, len as nat, data@),
        r@.len() == len,
{
    let mut state = blake2b_simd::Params::new().hash_length(len).personal(personal).to_state();
    state.update(data);
    state.finalize().as_bytes().to_vec()
}

/// The 32-byte digest of `data`.
pub fn blake2b_256(personal: &[u8; 16], data: &[u8]) -> (r: [u8; 32])
    ensures
        r@ == blake2b(personal@, 32, data@),
{
    to_array::<32>(blake2b_digest(personal, 32, data).as_slice())
}

/// The 64-byte digest of `data`.
pub fn blake2b_512(personal: &[u8; 16], data: &[u8]) -> (r: [u8; 64])
    ensures
        r@ == blake2b(personal@, 64, data@),
{
    to_array::<64>(blake2b_digest(personal, 64, data).as_slice())
}

} // verus!
