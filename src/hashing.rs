use vstd::prelude::*;

verus! {

/// The Keccak-256 digest of a byte sequence.
pub uninterp spec fn keccak_of(data: Seq<u8>) -> Seq<u8>;

/// Relies on `sp_io::hashing::keccak_256`: the 32-byte Keccak-256 digest of
/// `data`, which depends on the bytes of `data` alone.
#[verifier::external_body]
pub(crate) fn keccak_256(data: &[u8]) -> (r: [u8; 32])
    ensures
        r@ == keccak_of(data@),
{
    sp_io::hashing::keccak_256(data)
}

} // verus!
