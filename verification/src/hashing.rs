//! The one digest the wire format and addressing rest on: SHA3-256.

use sha3::Digest;
use vstd::prelude::*;

verus! {

/// The SHA3-256 digest of a byte sequence. The digest itself is not spelled
/// out here; every use goes through `sha3_256`, which computes it.
pub uninterp spec fn sha3_256_of(data: Seq<u8>) -> Seq<u8>;

/// Relies on sha3::Sha3_256 of the sha3 crate: the digest is 32 bytes and
/// depends on the input bytes alone.
#[verifier::external_body]
pub(crate) fn sha3_256(data: &[u8]) -> (r: Vec<u8>)
    ensures
        r@ == sha3_256_of(data@),
        r@.len() == 32,
{
    let out = <sha3::Sha3_256 as Digest>::digest(data);
    out.to_vec()
}

} // verus!
