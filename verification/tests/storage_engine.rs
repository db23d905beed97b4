use xtal_core::block_files::{decompress_block_frame, BlockStorage};
use xtal_core::storage::{BlockLocation, Storage};

#[test]
fn test_storage_operations() {
    let temp_dir = tempfile::TempDir::new().unwrap();
    let mut storage = Storage::new(temp_dir.path().to_str().unwrap()).unwrap();

    let block_hash = vec![0u8; 32];
    let location = BlockLocation { file_name: "test_file.dat".to_string(), byte_offset: 1000 };

    storage.store_block_location(&block_hash, &location).unwrap();

    let retrieved = storage.retrieve_block_location(&block_hash).unwrap();
    let got = retrieved.expect("a stored hash resolves");
    assert_eq!(got.file_name, location.file_name);
    assert_eq!(got.byte_offset, location.byte_offset);

    storage.delete_block_location(&block_hash).unwrap();
    let deleted = storage.retrieve_block_location(&block_hash).unwrap();
    assert!(deleted.is_none());
}

#[test]
fn unknown_hash_is_absent_not_an_error() {
    let storage = Storage::new("anywhere").unwrap();
    let missing = storage.retrieve_block_location(&[9u8; 32]).unwrap();
    assert!(missing.is_none());
}

#[test]
fn store_overwrites_same_hash() {
    let mut storage = Storage::new("anywhere").unwrap();
    let hash = [3u8; 32];
    storage
        .store_block_location(&hash, &BlockLocation {
            file_name: "a".to_string(),
            byte_offset: 1,
        })
        .unwrap();
    storage
        .store_block_location(&hash, &BlockLocation {
            file_name: "b".to_string(),
            byte_offset: 2,
        })
        .unwrap();
    let got = storage.retrieve_block_location(&hash).unwrap().unwrap();
    assert_eq!(got.file_name, "b");
    assert_eq!(got.byte_offset, 2);
}

#[test]
fn latest_hash_is_largest_key() {
    let mut storage = Storage::new("anywhere").unwrap();
    assert!(storage.get_latest_block_hash().unwrap().is_none());
    for key in [[1u8; 32], [2u8; 32], [0u8; 32]] {
        storage
            .store_block_location(&key, &BlockLocation {
                file_name: "f".to_string(),
                byte_offset: 0,
            })
            .unwrap();
    }
    let latest = storage.get_latest_block_hash().unwrap().unwrap();
    assert_eq!(latest, vec![2u8; 32]);
}

/// Deterministic incompressible-looking bytes.
fn noise(len: usize, mut seed: u64) -> Vec<u8> {
    let mut out = Vec::with_capacity(len);
    for _ in 0..len {
        seed = seed.wrapping_mul(6364136223846793005).wrapping_add(1442695040888963407);
        out.push((seed >> 33) as u8);
    }
    out
}

#[test]
fn compression_round_trips_and_is_not_identity() {
    let mut store = BlockStorage::new("blocks", 1_000_000, 0).unwrap();
    let data = noise(100, 7);
    let (_, frame) = store.append_block(&data).unwrap();
    assert_ne!(frame, data);
    let back = decompress_block_frame(&frame).unwrap();
    assert_eq!(back, data);

    // A frame with trailing bytes, as a read to end-of-file sees it,
    // still decompresses to the one record.
    let mut with_rest = frame.clone();
    with_rest.extend_from_slice(&noise(50, 8));
    assert_eq!(decompress_block_frame(&with_rest).unwrap(), data);
}

#[test]
fn file_naming_and_rotation() {
    // Per-file cap of 100 compressed bytes; ~60-byte frames land two
    // to a file, the third opens the next file.
    let mut store = BlockStorage::new("/tmp/blocks", 100, 0).unwrap();

    let (name1, frame1) = store.append_block(&noise(40, 1)).unwrap();
    let (name2, frame2) = store.append_block(&noise(40, 2)).unwrap();
    let (name3, frame3) = store.append_block(&noise(40, 3)).unwrap();

    assert!(frame1.len() > 50 && frame1.len() < 100, "frame sized {}", frame1.len());
    assert_eq!(name1, "/tmp/blocks/block_file_1.dat.lz4");
    assert_eq!(name2, "/tmp/blocks/block_file_1.dat.lz4");
    assert_eq!(name3, "/tmp/blocks/block_file_2.dat.lz4");

    // Every record stays readable from its own frame.
    assert_eq!(decompress_block_frame(&frame1).unwrap(), noise(40, 1));
    assert_eq!(decompress_block_frame(&frame2).unwrap(), noise(40, 2));
    assert_eq!(decompress_block_frame(&frame3).unwrap(), noise(40, 3));
}

#[test]
fn non_ascii_paths_are_rejected() {
    assert!(BlockStorage::new("blöcke", 100, 0).is_err());
    let mut storage = Storage::new("x").unwrap();
    let r = storage.store_block_location(&[1u8; 32], &BlockLocation {
        file_name: "blöcke".to_string(),
        byte_offset: 0,
    });
    assert!(r.is_err());
}
