//! Tests for the Merkle root computation and the integrity-checked save
//! format.

use packed_data::merkle::merkle_root;
use packed_data::save::{decode_save, encode_save, SaveError};

#[test]
fn merkle_root_single_chunk_is_leaf_hash() {
    let data = vec![1u8, 2, 3, 4, 5];
    let root = merkle_root(&data, 4096);
    assert_eq!(root, blake3::hash(&data).as_bytes().to_vec());
}

#[test]
fn merkle_root_empty_hashes_empty_leaf() {
    let root = merkle_root(&Vec::new(), 16);
    assert_eq!(root, blake3::hash(b"").as_bytes().to_vec());
}

#[test]
fn merkle_root_two_chunks_combine() {
    let data: Vec<u8> = (0..32).collect();
    let root = merkle_root(&data, 16);
    let left = blake3::hash(&data[0..16]);
    let right = blake3::hash(&data[16..32]);
    let mut cat = left.as_bytes().to_vec();
    cat.extend_from_slice(right.as_bytes());
    assert_eq!(root, blake3::hash(&cat).as_bytes().to_vec());
}

#[test]
fn merkle_root_odd_tail_chunk() {
    // Three chunks: the first two pair up, the third folds in last.
    let data: Vec<u8> = (0..40).collect();
    let root = merkle_root(&data, 16);
    let h0 = blake3::hash(&data[0..16]);
    let h1 = blake3::hash(&data[16..32]);
    let h2 = blake3::hash(&data[32..40]);
    let mut cat01 = h0.as_bytes().to_vec();
    cat01.extend_from_slice(h1.as_bytes());
    let p01 = blake3::hash(&cat01);
    let mut cat = p01.as_bytes().to_vec();
    cat.extend_from_slice(h2.as_bytes());
    assert_eq!(root, blake3::hash(&cat).as_bytes().to_vec());
}

#[test]
fn save_roundtrip_in_memory() {
    // Two 12-byte records.
    let payload: Vec<u8> = (0..24).collect();
    let saved = encode_save(&payload, 12, 2);
    let loaded = decode_save(&saved, 12).unwrap();
    assert_eq!(loaded, payload);
}

#[test]
fn save_detects_corruption() {
    let payload: Vec<u8> = (0..24).collect();
    let mut saved = encode_save(&payload, 12, 2);
    saved[50] ^= 0xFF;
    assert!(matches!(decode_save(&saved, 12), Err(SaveError::HashMismatch)));
}

#[test]
fn save_rejects_wrong_element_size() {
    let payload: Vec<u8> = (0..24).collect();
    let saved = encode_save(&payload, 12, 2);
    assert!(matches!(decode_save(&saved, 8), Err(SaveError::InvalidVersion)));
}

#[test]
fn empty_save_roundtrip() {
    let saved = encode_save(&Vec::new(), 12, 0);
    let loaded = decode_save(&saved, 12).unwrap();
    assert_eq!(loaded.len(), 0);
}

#[test]
fn save_error_cases() {
    assert!(matches!(
        decode_save(&vec![0u8; 10], 4),
        Err(SaveError::TruncatedInput)
    ));
    let payload = vec![1u8, 2, 3, 4];
    let good = encode_save(&payload, 4, 1);
    let mut bad_magic = good.clone();
    bad_magic[0] = 0;
    assert!(matches!(
        decode_save(&bad_magic, 4),
        Err(SaveError::InvalidMagic)
    ));
    let mut bad_version = good.clone();
    bad_version[4] = 9;
    assert!(matches!(
        decode_save(&bad_version, 4),
        Err(SaveError::InvalidVersion)
    ));
    let mut zero_chunk = good.clone();
    zero_chunk[12] = 0;
    zero_chunk[13] = 0;
    assert!(matches!(
        decode_save(&zero_chunk, 4),
        Err(SaveError::InvalidChunkSize)
    ));
    let mut truncated = good.clone();
    truncated.truncate(50);
    assert!(matches!(
        decode_save(&truncated, 4),
        Err(SaveError::TruncatedInput)
    ));
}
