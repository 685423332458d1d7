//! SHA-1.
use vstd::prelude::*;

verus! {

/// The SHA-1 digest of `data`.
pub uninterp spec fn sha1(data: Seq<u8>) -> Seq<u8>;

/// The digest of `data`, by `sha1::Sha1`: what `Digest::digest` of the `sha1`
/// crate returns is a function of the data alone, and has 20 bytes.
#[verifier::external_body]
pub(crate) fn sha1_digest(data: &[u8]) -> (out: [u8; 20])
    ensures
        out@ == sha1(data@),
{
    <sha1::Sha1 as sha1::Digest>::digest(data).into()
}

} // verus!
