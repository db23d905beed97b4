use xtal_core::crypto::TransactionHasher;
use xtal_core::mempool::{Mempool, MempoolError};
use xtal_core::merkle::verify_merkle_proof;
use xtal_core::types::{BlockHeader, BlockType, FruitHeader, SignedBlock, Transaction};

fn tx(data: Vec<u8>, timestamp: u64) -> Transaction {
    Transaction { data, timestamp }
}

fn header(ts: u64) -> BlockHeader {
    BlockHeader { previous_hash: [0u8; 32], merkle_root: [0u8; 32], timestamp: ts, nonce: 0 }
}

fn fruit(ts: u64, nonce: u64) -> SignedBlock {
    SignedBlock {
        block_type: BlockType::Fruit,
        header: header(ts),
        fruit_header: Some(FruitHeader { parent_hash: [7u8; 32], nonce }),
        signature: vec![9, 9, 9],
    }
}

#[test]
fn add_and_snapshot_in_insertion_order() {
    let mut pool = Mempool::new(1, 600, 600);
    pool.add_transaction(tx(vec![1], 0)).unwrap();
    pool.add_transaction(tx(vec![2, 2], 0)).unwrap();
    let txs = pool.get_transactions();
    assert_eq!(txs.len(), 2);
    assert_eq!(txs[0].data, vec![1]);
    assert_eq!(txs[1].data, vec![2, 2]);
    // One encoded transaction is 16 bytes of framing plus its payload.
    assert_eq!(pool.current_size_bytes(), 17 + 18);
}

#[test]
fn capacity_error_leaves_pool_unchanged() {
    let mut pool = Mempool::new(1, 600, 600);
    // 1 MB budget; this transaction fills it exactly.
    let big = tx(vec![0u8; 1024 * 1024 - 16], 0);
    pool.add_transaction(big).unwrap();
    assert_eq!(pool.current_size_bytes(), 1024 * 1024);

    let before = pool.get_transactions().len();
    let r = pool.add_transaction(tx(vec![], 0));
    assert!(matches!(r, Err(MempoolError::PoolFull)));
    assert_eq!(pool.get_transactions().len(), before);
    assert_eq!(pool.current_size_bytes(), 1024 * 1024);
}

#[test]
fn removal_frees_exactly_the_serialized_size() {
    let mut pool = Mempool::new(1, 600, 600);
    let filler = tx(vec![3u8; 1024 * 1024 - 16 - 32], 0);
    let small = tx(vec![5u8; 16], 1);
    pool.add_transaction(Transaction { data: filler.data.clone(), timestamp: filler.timestamp })
        .unwrap();
    pool.add_transaction(Transaction { data: small.data.clone(), timestamp: small.timestamp })
        .unwrap();
    assert_eq!(pool.current_size_bytes(), 1024 * 1024);
    assert!(matches!(pool.add_transaction(tx(vec![], 0)), Err(MempoolError::PoolFull)));

    let freed = pool.remove_transactions(&vec![small]);
    assert_eq!(freed, 32);
    assert_eq!(pool.current_size_bytes(), 1024 * 1024 - 32);

    // An insert of equal size fits again.
    pool.add_transaction(tx(vec![6u8; 16], 2)).unwrap();
    assert_eq!(pool.current_size_bytes(), 1024 * 1024);
}

#[test]
fn removed_hashes_vanish_from_pool_and_proofs() {
    let mut pool = Mempool::new(1, 600, 600);
    let a = tx(vec![1], 0);
    let b = tx(vec![2], 0);
    let hash_a = a.hash();
    let hash_b = b.hash();
    pool.add_transaction(Transaction { data: a.data.clone(), timestamp: a.timestamp }).unwrap();
    pool.add_transaction(Transaction { data: b.data.clone(), timestamp: b.timestamp }).unwrap();
    assert!(pool.get_transaction_proof(&hash_a).is_some());

    pool.remove_transactions(&vec![a]);
    assert!(pool.get_transaction_proof(&hash_a).is_none());
    assert!(pool.get_transaction_proof(&hash_b).is_some());
    let txs = pool.get_transactions();
    assert_eq!(txs.len(), 1);
    assert_eq!(txs[0].data, vec![2]);
}

#[test]
fn transaction_proofs_verify_against_root() {
    let mut pool = Mempool::new(1, 600, 600);
    let items = vec![tx(vec![1], 0), tx(vec![2], 0), tx(vec![3], 0)];
    let mut hashes = Vec::new();
    for t in items {
        hashes.push(t.hash());
        pool.add_transaction(t).unwrap();
    }
    let root = pool.get_transaction_merkle_root();
    for (i, h) in hashes.iter().enumerate() {
        let proof = pool.get_transaction_proof(h).expect("pooled hash must have a proof");
        assert!(verify_merkle_proof(&root, h, i, hashes.len(), &proof));
    }
    // A hash never inserted has no proof.
    assert!(pool.get_transaction_proof(&[0xEE; 32]).is_none());
}

#[test]
fn fruit_proofs_verify_against_root() {
    let mut pool = Mempool::new(1, 600, 600);
    let f1 = fruit(10, 1);
    let f2 = fruit(11, 2);
    let h1 = f1.hash();
    let h2 = f2.hash();
    pool.add_fruit(f1).unwrap();
    pool.add_fruit(f2).unwrap();
    let root = pool.get_fruit_merkle_root();
    let p1 = pool.get_fruit_proof(&h1).unwrap();
    let p2 = pool.get_fruit_proof(&h2).unwrap();
    assert!(verify_merkle_proof(&root, &h1, 0, 2, &p1));
    assert!(verify_merkle_proof(&root, &h2, 1, 2, &p2));
    assert!(pool.get_fruit_proof(&[0xEE; 32]).is_none());
}

#[test]
fn non_fruit_block_is_rejected() {
    let mut pool = Mempool::new(1, 600, 600);
    let not_fruit = SignedBlock {
        block_type: BlockType::Main,
        header: header(0),
        fruit_header: None,
        signature: vec![],
    };
    let r = pool.add_fruit(not_fruit);
    assert!(matches!(r, Err(MempoolError::InvalidHash(_))));
    assert_eq!(pool.get_fruits().len(), 0);
}

#[test]
fn remove_fruits_matches_by_header() {
    let mut pool = Mempool::new(1, 600, 600);
    let f1 = fruit(10, 1);
    let f2 = fruit(11, 2);
    let keep_hash = f2.hash();
    pool.add_fruit(f1).unwrap();
    pool.add_fruit(f2).unwrap();

    pool.remove_fruits(&vec![FruitHeader { parent_hash: [7u8; 32], nonce: 1 }]);
    let fruits = pool.get_fruits();
    assert_eq!(fruits.len(), 1);
    assert_eq!(fruits[0].hash(), keep_hash);

    // A header nothing matches removes nothing.
    pool.remove_fruits(&vec![FruitHeader { parent_hash: [8u8; 32], nonce: 1 }]);
    assert_eq!(pool.get_fruits().len(), 1);
}

#[test]
fn cleanup_is_rate_limited_then_expires() {
    let mut pool = Mempool::new(1, 10, 20);
    pool.add_transaction(tx(vec![1], 0)).unwrap();
    pool.add_fruit(fruit(0, 1)).unwrap();

    // Five seconds in, less than the smaller timeout has elapsed
    // since the last run, so nothing happens.
    pool.cleanup_expired(5);
    assert_eq!(pool.get_transactions().len(), 1);
    assert_eq!(pool.get_fruits().len(), 1);

    // At 15 seconds the run happens: the transaction (age 15 >= 10)
    // expires, the fruit (age 15 < 20) stays.
    pool.cleanup_expired(15);
    assert_eq!(pool.get_transactions().len(), 0);
    assert_eq!(pool.get_fruits().len(), 1);

    // At 40 the fruit has expired too; 25 elapsed since the last run.
    pool.cleanup_expired(40);
    assert_eq!(pool.get_fruits().len(), 0);
    assert_eq!(pool.current_size_bytes(), 0);
}

#[test]
fn empty_roots_are_zero_sentinel() {
    let pool = Mempool::new(1, 600, 600);
    assert_eq!(pool.get_transaction_merkle_root(), [0u8; 32]);
    assert_eq!(pool.get_fruit_merkle_root(), [0u8; 32]);
}

#[test]
fn calculate_merkle_root_matches_hashes() {
    // A single item's root is its own leaf hash.
    let one = vec![vec![1u8, 2, 3]];
    assert_eq!(Mempool::calculate_merkle_root(&one), TransactionHasher::hash(&[1, 2, 3]));

    // Two items combine under one inner hash over both leaves,
    // which the real hash function reproduces.
    let two = vec![vec![1u8], vec![2u8]];
    let l1 = TransactionHasher::hash(&[1]);
    let l2 = TransactionHasher::hash(&[2]);
    let mut cat = Vec::new();
    cat.extend_from_slice(&l1);
    cat.extend_from_slice(&l2);
    let expected: [u8; 32] = blake3::hash(&cat).into();
    assert_eq!(Mempool::calculate_merkle_root(&two), expected);

    assert_eq!(Mempool::calculate_merkle_root(&Vec::new()), [0u8; 32]);
}

#[test]
fn hashes_match_the_real_digest() {
    let t = tx(vec![1, 2, 3], 5);
    let encoded = t.encode();
    let expected: [u8; 32] = blake3::hash(&encoded).into();
    assert_eq!(t.hash(), expected);
    // The digest is not the input handed back.
    assert_ne!(&encoded[..], &expected[..]);
}

#[test]
fn duplicate_submissions_pool_twice() {
    let mut pool = Mempool::new(1, 600, 600);
    pool.add_transaction(tx(vec![1], 0)).unwrap();
    pool.add_transaction(tx(vec![1], 0)).unwrap();
    assert_eq!(pool.get_transactions().len(), 2);
    assert_eq!(pool.current_size_bytes(), 2 * 17);

    // Removal by the shared hash purges both entries.
    pool.remove_transactions(&vec![tx(vec![1], 0)]);
    assert_eq!(pool.get_transactions().len(), 0);
    assert_eq!(pool.current_size_bytes(), 0);
}
