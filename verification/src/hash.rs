use vstd::prelude::*;

verus! {

/// The SHA-1 digest of a byte string. The algorithm is not written out here:
/// the name stands for what the `sha1` crate computes.
pub uninterp spec fn sha1_digest(data: Seq<u8>) -> Seq<u8>;

/// Calls `sha1::Sha1::digest`. The contract names the digest and claims its
/// length, which the crate fixes at twenty bytes.
#[verifier::external_body]
pub(crate) fn sha1_of(data: &[u8]) -> (digest: Vec<u8>)
    ensures
        digest@ == sha1_digest(data@),
        digest@.len() == 20,
{
    <sha1::Sha1 as sha1::Digest>::digest(data).to_vec()
}

} // verus!
