//! Tests for the bit-ops primitive, the packed bit-array container and the
//! flags layer.

use packed_data::bit_ops::{get_bits, set_bits};
use packed_data::error::PackedBitsError;
use packed_data::flags::{FlagsContainer, FlagsIter};
use packed_data::packed::{PackedBits, PackedBitsContainer};

#[test]
fn roundtrip_bits() {
    let mut buf = vec![0u8; 8];
    set_bits(&mut buf, 3, 5, 0b10101);
    assert_eq!(get_bits(&buf, 3, 5), 0b10101);
}

#[test]
fn roundtrip_bits_all_offsets() {
    // Bit round-trip across every byte alignment of the offset.
    for offset in 0..16 {
        for width in 1..=32 {
            let mut buf = vec![0u8; 8];
            let value = 0xA5A5_A5A5u64 & ((1u64 << width) - 1);
            set_bits(&mut buf, offset, width, value);
            assert_eq!(get_bits(&buf, offset, width), value);
        }
    }
}

#[test]
fn set_bits_no_cross_contamination() {
    // Writing one bit range must not alter bits outside it: plant a marker
    // pattern first and check it survives.
    let mut buf = vec![0u8; 8];
    set_bits(&mut buf, 0, 8, 0xFF);
    set_bits(&mut buf, 40, 8, 0xFF);
    set_bits(&mut buf, 16, 12, 0xABC);
    assert_eq!(get_bits(&buf, 0, 8), 0xFF);
    assert_eq!(get_bits(&buf, 40, 8), 0xFF);
    assert_eq!(get_bits(&buf, 16, 12), 0xABC);
    assert_eq!(get_bits(&buf, 8, 8), 0);
    assert_eq!(get_bits(&buf, 28, 12), 0);
}

#[test]
fn basic_in_memory() {
    let mut pb = PackedBitsContainer::<12>::new_in_memory().unwrap();
    pb.push(0xABC).unwrap();
    pb.push(0x123).unwrap();
    pb.push(0xFFF).unwrap();
    assert_eq!(pb.len(), 3);
    assert_eq!(pb.get(0), Some(0xABC));
    assert_eq!(pb.get(1), Some(0x123));
    assert_eq!(pb.get(2), Some(0xFFF));
    pb.set(1, 0x456).unwrap();
    assert_eq!(pb.get(1), Some(0x456));

    let collected: Vec<u32> = pb.iter();
    assert_eq!(collected, vec![0xABC, 0x456, 0xFFF]);
}

#[test]
fn test_header_persistence() {
    let mut pb = PackedBitsContainer::<7>::new_in_memory().unwrap();
    pb.push(100).unwrap();
    pb.push(50).unwrap();
    let bytes = pb.storage().clone();
    let pb2 = PackedBitsContainer::<7>::from_storage(bytes).unwrap();
    assert_eq!(pb2.len(), 2);
    assert_eq!(pb2.get(0), Some(100));
    assert_eq!(pb2.get(1), Some(50));
}

#[test]
fn test_n32() {
    let mut pb = PackedBitsContainer::<32>::new_in_memory().unwrap();
    pb.push(u32::MAX).unwrap();
    pb.push(12345).unwrap();
    assert_eq!(pb.get(0), Some(u32::MAX));
    assert_eq!(pb.get(1), Some(12345));
}

#[test]
fn container_test_clear() {
    let mut pb = PackedBitsContainer::<5>::new_in_memory().unwrap();
    pb.push(10).unwrap();
    pb.push(20).unwrap();
    assert_eq!(pb.len(), 2);
    pb.clear().unwrap();
    assert_eq!(pb.len(), 0);
    assert!(pb.is_empty());
}

#[test]
fn container_test_with_capacity() {
    let mut pb = PackedBitsContainer::<8>::with_capacity(100).unwrap();
    assert!(pb.capacity() >= 100);
    assert_eq!(pb.len(), 0);
    for i in 0..50 {
        pb.push(i as u32).unwrap();
    }
    assert_eq!(pb.len(), 50);
}

#[test]
fn test_wrong_n() {
    // Width mismatch rejection: a buffer persisted with one width must not
    // be reinterpreted at another.
    let mut pb = PackedBitsContainer::<7>::new_in_memory().unwrap();
    pb.push(100).unwrap();
    let bytes = pb.storage().clone();
    let result = PackedBitsContainer::<12>::from_storage(bytes);
    assert!(matches!(
        result,
        Err(PackedBitsError::InvalidN {
            expected: 12,
            found: 7
        })
    ));
}

#[test]
fn persistence_roundtrip_many_widths() {
    // Packed-array persistence round-trip: all pushed values survive a
    // save and reload at the same width.
    let mut pb = PackedBitsContainer::<11>::new_in_memory().unwrap();
    let values: Vec<u32> = (0..100).map(|i| (i * 37) % 2048).collect();
    for &v in &values {
        pb.push(v).unwrap();
    }
    let bytes = pb.storage().clone();
    let pb2 = PackedBitsContainer::<11>::from_storage(bytes).unwrap();
    assert_eq!(pb2.len(), pb.len());
    for (i, &v) in values.iter().enumerate() {
        assert_eq!(pb2.get(i), Some(v));
    }
}

#[test]
fn container_error_cases() {
    // Invalid width.
    assert!(matches!(
        PackedBitsContainer::<0>::new_in_memory(),
        Err(PackedBitsError::InvalidBitWidth(0))
    ));
    assert!(matches!(
        PackedBitsContainer::<33>::new_in_memory(),
        Err(PackedBitsError::InvalidBitWidth(33))
    ));
    // Value overflow on push and set.
    let mut pb = PackedBitsContainer::<4>::new_in_memory().unwrap();
    assert!(matches!(
        pb.push(16),
        Err(PackedBitsError::ValueOverflow(16, 4))
    ));
    pb.push(15).unwrap();
    assert!(matches!(
        pb.set(0, 99),
        Err(PackedBitsError::ValueOverflow(99, 4))
    ));
    // Index out of bounds on set.
    assert!(matches!(
        pb.set(5, 1),
        Err(PackedBitsError::IndexOutOfBounds(5, 1))
    ));
    // Reads past the end yield nothing.
    assert_eq!(pb.get(1), None);
    // Persisted buffers that are too short or tagged wrong are rejected.
    assert!(matches!(
        PackedBitsContainer::<4>::from_storage(vec![0u8; 5]),
        Err(PackedBitsError::StorageTooSmall)
    ));
    let mut bad = pb.storage().clone();
    bad[0] = b'X';
    assert!(matches!(
        PackedBitsContainer::<4>::from_storage(bad),
        Err(PackedBitsError::InvalidMagic)
    ));
    // A header that declares more elements than the buffer holds.
    let mut truncated = pb.storage().clone();
    truncated[8] = 200;
    assert!(matches!(
        PackedBitsContainer::<4>::from_storage(truncated),
        Err(PackedBitsError::InsufficientBytes(200))
    ));
}

#[test]
fn packed_bits_plain_array() {
    let mut pb = PackedBits::<10>::new();
    assert!(pb.is_empty());
    pb.push(512).unwrap();
    pb.push(1023).unwrap();
    assert_eq!(pb.len(), 2);
    assert_eq!(pb.get(0), Some(512));
    assert_eq!(pb.get(1), Some(1023));
    assert_eq!(pb.get(2), None);
    assert!(matches!(
        pb.push(1024),
        Err(PackedBitsError::ValueOverflow(1024, 10))
    ));
}

#[test]
fn basic_flags_ops() {
    const FLAG0: u32 = 1 << 0;
    const FLAG1: u32 = 1 << 1;
    const FLAG2: u32 = 1 << 2;
    let mut fc = FlagsContainer::<3>::new_in_memory().unwrap();
    fc.push(FLAG0 | FLAG2).unwrap();
    fc.push(FLAG1).unwrap();
    assert!(fc.contains(0, FLAG0));
    assert!(!fc.contains(0, FLAG1));
    fc.set_mask(1, FLAG2).unwrap();
    assert_eq!(fc.get(1).unwrap(), FLAG1 | FLAG2);
}

#[test]
fn iter_flags_works() {
    const FLAG0: u32 = 1 << 0;
    const FLAG1: u32 = 1 << 1;
    const FLAG2: u32 = 1 << 2;
    let mut fc = FlagsContainer::<3>::new_in_memory().unwrap();
    fc.push(FLAG0 | FLAG2).unwrap();
    fc.push(FLAG1).unwrap();

    let mut all_flags: Vec<Vec<u32>> = vec![];
    for i in 0..fc.len() {
        if let Some(it) = fc.iter_flags(i) {
            all_flags.push(it);
        }
    }
    assert_eq!(all_flags, vec![vec![FLAG0, FLAG2], vec![FLAG1]]);
}

#[test]
fn flags_iter_yields_masks_ascending() {
    let mut it = FlagsIter::new(0b1001_0010);
    assert_eq!(it.next(), Some(0b10));
    assert_eq!(it.next(), Some(0b1_0000));
    assert_eq!(it.next(), Some(0b1000_0000));
    assert_eq!(it.next(), None);
}

#[test]
fn flags_clear_and_toggle() {
    let mut fc = FlagsContainer::<8>::new_in_memory().unwrap();
    fc.push(0b1111).unwrap();
    fc.clear_mask(0, 0b0101).unwrap();
    assert_eq!(fc.get(0), Some(0b1010));
    fc.toggle_mask(0, 0b0110).unwrap();
    assert_eq!(fc.get(0), Some(0b1100));
    assert!(matches!(
        fc.set_mask(9, 1),
        Err(PackedBitsError::StorageTooSmall)
    ));
}
