use vstd::prelude::*;

verus! {

/// The Keccak-256 digest of a run of bytes.
pub uninterp spec fn keccak256_digest(bytes: Seq<u8>) -> Seq<u8>;

/// Trusted: calls `zksync_basic_types::web3::keccak256`, which feeds the bytes to a
/// Keccak-256 hasher and returns its 32-byte output. The contract only gives that
/// output a name; nothing about the digest itself is claimed.
#[verifier::external_body]
pub(crate) fn keccak256(bytes: &[u8]) -> (digest: [u8; 32])
    ensures
        digest@ == keccak256_digest(bytes@),
{
    zksync_basic_types::web3::keccak256(bytes)
}

} // verus!
