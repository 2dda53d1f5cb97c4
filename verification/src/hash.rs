//! The BLAKE3 hash function, as provided by the `blake3` crate.
use vstd::prelude::*;

verus! {

/// The 32-byte BLAKE3 hash of the input.
pub uninterp spec fn blake3_digest(data: Seq<u8>) -> Seq<u8>;

/// The first 64 bytes of the BLAKE3 extendable output of the input.
pub uninterp spec fn blake3_xof64(data: Seq<u8>) -> Seq<u8>;

/// `blake3::hash`: the default 32-byte hash of the input.
#[verifier::external_body]
pub(crate) fn blake3_hash(data: &[u8]) -> (r: [u8; 32])
    ensures
        r@ == blake3_digest(data@),
{
    *blake3::hash(data).as_bytes()
}

/// `blake3::Hasher::finalize_xof`, after one `update` with the input,
/// read into 64 bytes with `OutputReader::fill`.
#[verifier::external_body]
pub(crate) fn blake3_xof(data: &[u8]) -> (r: [u8; 64])
    ensures
        r@ == blake3_xof64(data@),
{
    let mut hasher = blake3::Hasher::new();
    hasher.update(data);
    let mut out = [0u8; 64];
    hasher.finalize_xof().fill(&mut out);
    out
}

} // verus!
