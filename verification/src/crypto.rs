use vstd::prelude::*;

verus! {

/// The 32-byte digest that hashing a byte sequence yields. It stands
/// for what `blake3::hash` returns: a function of the input alone.
pub uninterp spec fn blake3_of(data: Seq<u8>) -> Seq<u8>;

/// Relies on blake3::hash: a pure 32-byte digest of the input bytes,
/// the same on every machine and in every process.
#[verifier::external_body]
pub(crate) fn blake3_hash(data: &[u8]) -> (r: [u8; 32])
    ensures
        r@ == blake3_of(data@),
        r@.len() == 32,
{
    blake3::hash(data).into()
}

/// The hash function both mempool Merkle trees and block identities use.
#[derive(Clone, Copy)]
pub struct TransactionHasher;

impl TransactionHasher {
    /// Digest arbitrary bytes to a 32-byte leaf or identity hash.
    pub fn hash(data: &[u8]) -> (r: [u8; 32])
        ensures
            r@ == blake3_of(data@),
    {
        blake3_hash(data)
    }
}

} // verus!
