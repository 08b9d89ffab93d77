use vstd::prelude::*;

verus! {

/// The 32-byte keccak-256 digest of a byte string. The digest is a function
/// of the input bytes alone; only the external hasher computes it, so the
/// function is left without a definition and everything proved about digests
/// holds for whatever it returns.
pub uninterp spec fn keccak_of(bytes: Seq<u8>) -> Seq<u8>;

/// Relies on solana_program::keccak::hash: a keccak-256 digest of the input,
/// converted to its 32-byte array. The digest depends on the input bytes
/// alone.
#[verifier::external_body]
pub(crate) fn keccak256(data: &[u8]) -> (r: [u8; 32])
    ensures
        r@ == keccak_of(data@),
{
    solana_program::keccak::hash(data).to_bytes()
}

} // verus!
