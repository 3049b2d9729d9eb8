use vstd::prelude::*;

verus! {

/// The Keccak-256 digest of a byte string.
pub uninterp spec fn keccak_of(data: Seq<u8>) -> Seq<u8>;

/// Relies on `alloy_primitives::keccak256`: the 32-byte Keccak-256 digest of
/// the input, which depends on the input bytes alone.
#[verifier::external_body]
pub(crate) fn keccak256(data: &[u8]) -> (r: Vec<u8>)
    ensures
        r@ == keccak_of(data@),
        r@.len() == 32,
{
    alloy_primitives::keccak256(data).0.to_vec()
}

} // verus!
