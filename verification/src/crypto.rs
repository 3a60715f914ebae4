use vstd::prelude::*;

verus! {

/// The SHA3-256 digest of a byte string. The digest is a function of
/// the input bytes alone, the same in every process and on every
/// machine; what it is takes pages to state, so it only gets a name.
pub uninterp spec fn sha3_256_of(data: Seq<u8>) -> Seq<u8>;

/// The Keccak-256 digest of a byte string, a function of the input
/// bytes alone.
pub uninterp spec fn keccak256_of(data: Seq<u8>) -> Seq<u8>;

/// Relies on `sha3::Sha3_256` through the `Digest` trait: a 32-byte
/// digest computed from the input bytes alone. (The host names this
/// operation `sha256`; the algorithm it runs is SHA3-256.)
#[verifier::external_body]
pub fn sha256(data: &[u8]) -> (r: [u8; 32])
    ensures
        r@ == sha3_256_of(data@),
{
    let digest = <sha3::Sha3_256 as sha3::Digest>::digest(data);
    digest.into()
}

/// Relies on `sha3::Keccak256` through the `Digest` trait: a 32-byte
/// digest computed from the input bytes alone.
#[verifier::external_body]
pub fn keccak256(data: &[u8]) -> (r: [u8; 32])
    ensures
        r@ == keccak256_of(data@),
{
    let digest = <sha3::Keccak256 as sha3::Digest>::digest(data);
    digest.into()
}

} // verus!
