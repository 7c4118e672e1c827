use vstd::prelude::*;

verus! {

/// The SHA-256 digest of a byte sequence. It depends on the bytes alone, so
/// it can be named but not stated; what the library proves about hashes is
/// stated through this name.
pub uninterp spec fn sha256_of(data: Seq<u8>) -> Seq<u8>;

/// Relies on sha2's `Sha256`: the one-shot digest of the input bytes, which
/// is a function of those bytes alone, 32 bytes long.
#[verifier::external_body]
pub fn sha256_digest(data: &[u8]) -> (r: Vec<u8>)
    ensures
        r@ == sha256_of(data@),
        r@.len() == 32,
{
    let digest = <sha2::Sha256 as sha2::Digest>::digest(data);
    digest.as_slice().to_vec()
}

} // verus!
