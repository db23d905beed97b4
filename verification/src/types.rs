use vstd::prelude::*;

verus! {

/// An opaque transaction payload with its creation time in seconds.
pub struct Transaction {
    pub data: Vec<u8>,
    pub timestamp: u64,
}

impl Clone for Transaction {
    fn clone(&self) -> (r: Self)
        ensures
            r.data@ == self.data@,
            r.timestamp == self.timestamp,
    {
        Transaction { data: clone_bytes(&self.data), timestamp: self.timestamp }
    }
}

/// The kind of a pooled sub-block.
#[derive(Clone, Copy, Debug, PartialEq, Eq, Structural)]
pub enum BlockType {
    Main,
    Fruit,
}

/// The header every block carries: chain link, transaction commitment,
/// wall-clock second and proof-of-work nonce.
#[derive(Clone, Copy, Debug)]
pub struct BlockHeader {
    pub previous_hash: [u8; 32],
    pub merkle_root: [u8; 32],
    pub timestamp: u64,
    pub nonce: u64,
}

/// The fruit-specific part of a fruit sub-block: which block it points
/// at and its own nonce.
#[derive(Clone, Copy, Debug)]
pub struct FruitHeader {
    pub parent_hash: [u8; 32],
    pub nonce: u64,
}

/// A signed block-shaped unit as the mempool pools it: a header, its
/// kind tag, the fruit-specific header when it is a fruit, and the
/// producer's signature bytes.
pub struct SignedBlock {
    pub block_type: BlockType,
    pub header: BlockHeader,
    pub fruit_header: Option<FruitHeader>,
    pub signature: Vec<u8>,
}

impl Clone for SignedBlock {
    fn clone(&self) -> (r: Self)
        ensures
            r.block_type == self.block_type,
            r.header == self.header,
            r.fruit_header == self.fruit_header,
            r.signature@ == self.signature@,
    {
        SignedBlock {
            block_type: self.block_type,
            header: self.header,
            fruit_header: self.fruit_header,
            signature: clone_bytes(&self.signature),
        }
    }
}

/// A full block: its header and the ordered transactions it commits to.
pub struct Block {
    pub header: BlockHeader,
    pub transactions: Vec<Transaction>,
}

/// An element-wise copy of a byte vector.
pub fn clone_bytes(v: &Vec<u8>) -> (r: Vec<u8>)
    ensures
        r@ == v@,
{
    let mut r: Vec<u8> = Vec::new();
    let mut i: usize = 0;
    while i < v.len()
        invariant
            i <= v@.len(),
            r@ == v@.take(i as int),
        decreases v@.len() - i,
    {
        r.push(v[i]);
        proof {
            assert(v@.take(i + 1) =~= v@.take(i as int).push(v@[i as int]));
        }
        i = i + 1;
    }
    proof {
        assert(v@.take(v@.len() as int) =~= v@);
    }
    r
}

} // verus!
