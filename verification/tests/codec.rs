use xtal_core::codec::decode_block;
use xtal_core::types::{Block, BlockHeader, Transaction};

#[test]
fn transaction_encoding_is_length_prefixed_little_endian() {
    let t = Transaction { data: vec![1, 2, 3], timestamp: 5 };
    let mut expected: Vec<u8> = Vec::new();
    expected.extend_from_slice(&3u64.to_le_bytes());
    expected.extend_from_slice(&[1, 2, 3]);
    expected.extend_from_slice(&5u64.to_le_bytes());
    assert_eq!(t.encode(), expected);
}

#[test]
fn block_encoding_layout() {
    let b = Block {
        header: BlockHeader {
            previous_hash: [0xAA; 32],
            merkle_root: [0xBB; 32],
            timestamp: 0x0102030405060708,
            nonce: 42,
        },
        transactions: vec![Transaction { data: vec![7], timestamp: 9 }],
    };
    let bytes = b.encode();
    let mut expected: Vec<u8> = Vec::new();
    expected.extend_from_slice(&[0xAA; 32]);
    expected.extend_from_slice(&[0xBB; 32]);
    expected.extend_from_slice(&0x0102030405060708u64.to_le_bytes());
    expected.extend_from_slice(&42u64.to_le_bytes());
    expected.extend_from_slice(&1u64.to_le_bytes());
    expected.extend_from_slice(&1u64.to_le_bytes());
    expected.push(7);
    expected.extend_from_slice(&9u64.to_le_bytes());
    assert_eq!(bytes, expected);
}

#[test]
fn block_round_trip() {
    let b = Block {
        header: BlockHeader {
            previous_hash: [1; 32],
            merkle_root: [2; 32],
            timestamp: 1234567,
            nonce: u64::MAX,
        },
        transactions: vec![
            Transaction { data: vec![], timestamp: 0 },
            Transaction { data: vec![0xFF; 300], timestamp: 77 },
        ],
    };
    let bytes = b.encode();
    let back = decode_block(&bytes).expect("a well-formed encoding decodes");
    assert_eq!(back.header.previous_hash, b.header.previous_hash);
    assert_eq!(back.header.merkle_root, b.header.merkle_root);
    assert_eq!(back.header.timestamp, b.header.timestamp);
    assert_eq!(back.header.nonce, b.header.nonce);
    assert_eq!(back.transactions.len(), 2);
    assert_eq!(back.transactions[0].data, b.transactions[0].data);
    assert_eq!(back.transactions[0].timestamp, b.transactions[0].timestamp);
    assert_eq!(back.transactions[1].data, b.transactions[1].data);
    assert_eq!(back.transactions[1].timestamp, b.transactions[1].timestamp);
}

#[test]
fn truncated_block_does_not_decode() {
    let b = Block {
        header: BlockHeader {
            previous_hash: [1; 32],
            merkle_root: [2; 32],
            timestamp: 3,
            nonce: 4,
        },
        transactions: vec![Transaction { data: vec![5, 6], timestamp: 7 }],
    };
    let mut bytes = b.encode();
    bytes.pop();
    assert!(decode_block(&bytes).is_none());
    assert!(decode_block(&vec![0u8; 10]).is_none());
}
