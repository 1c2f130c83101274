//! Tests for the builders and the byte-conversion and parsing helpers.

use packed_data::builder::{EntityBuilder, PackedDataBuilder};
use packed_data::convert::{batch, try_parse_iter, FromBytes, PackedConvert, ToBytes};
use packed_data::parse::SliceParseExt;

#[derive(Debug, PartialEq, Clone)]
struct Dummy(u32, u32);

#[test]
fn test_entity_builder_try_add() -> Result<(), Box<dyn std::error::Error>> {
    // Start with an empty builder.
    let err = EntityBuilder::<Dummy>::new()
        .try_add::<&'static str>(Ok(Dummy(10, 20)))?
        .try_add::<&'static str>(Ok(Dummy(30, 40)))?
        .try_add::<&'static str>(Err("fail"))
        .unwrap_err();
    assert_eq!(err, "fail");

    // Collect items into a Vec.
    let result: Vec<Dummy> = EntityBuilder::<Dummy>::new()
        .try_add::<&'static str>(Ok(Dummy(1, 2)))?
        .try_add::<&'static str>(Ok(Dummy(3, 4)))?
        .build();
    assert_eq!(result, vec![Dummy(1, 2), Dummy(3, 4)]);

    Ok(())
}

#[test]
fn test_entity_builder_extend() {
    let items = vec![Dummy(5, 6), Dummy(7, 8)];
    let builder = EntityBuilder::<Dummy>::new().extend(items.clone());
    assert_eq!(builder.items, items);
}

#[test]
fn packed_data_builder_collects() {
    let v: Vec<u32> = PackedDataBuilder::new()
        .push(1)
        .push(2)
        .extend(vec![3, 4])
        .build();
    assert_eq!(v, vec![1, 2, 3, 4]);
}

#[test]
fn test_batch() {
    let data = vec![1u32, 2, 3, 4, 5, 6];

    let first: Option<Vec<u32>> = batch::<4, u32>(&data, 0);
    assert_eq!(first, Some(vec![1, 2, 3, 4]));

    let middle: Option<Vec<u32>> = batch::<3, u32>(&data, 2);
    assert_eq!(middle, Some(vec![3, 4, 5]));

    let none: Option<Vec<u32>> = batch::<4, u32>(&data, 4);
    assert_eq!(none, None);
}

#[derive(Debug, PartialEq)]
struct Pair(u32, u32);

impl TryFrom<&[u8]> for Pair {
    type Error = &'static str;

    fn try_from(bytes: &[u8]) -> Result<Self, Self::Error> {
        if bytes.len() < 8 {
            return Err("need 8 bytes");
        }
        let a = u32::from_le_bytes(bytes[0..4].try_into().unwrap());
        let b = u32::from_le_bytes(bytes[4..8].try_into().unwrap());
        Ok(Pair(a, b))
    }
}

#[test]
fn test_try_parse_iter() {
    let bytes = vec![1, 0, 0, 0, 2, 0, 0, 0, 3, 0, 0, 0, 4, 0, 0, 0];

    let pairs: Vec<Pair> = try_parse_iter::<Pair, _, 8>(&bytes)
        .into_iter()
        .collect::<Result<Vec<_>, _>>()
        .unwrap();

    assert_eq!(pairs, vec![Pair(1, 2), Pair(3, 4)]);
}

#[test]
fn test_slice_parse_batches() {
    let bytes: Vec<u8> = (0..16).collect();
    let batches: Vec<Vec<u32>> = bytes.batches::<2, u32>();

    assert_eq!(batches.len(), 2);
    assert_eq!(batches[0], vec![0x03020100, 0x07060504]);
}

#[test]
fn test_try_parse_with() {
    let bytes = vec![1u8, 0, 0, 0, 2, 0, 0, 0];
    let numbers: Vec<u32> = bytes
        .try_parse(4, |chunk: &[u8]| -> Result<u32, ()> {
            Ok(u32::from_le_bytes(chunk.try_into().unwrap()))
        })
        .into_iter()
        .collect::<Result<Vec<_>, ()>>()
        .unwrap();

    assert_eq!(numbers, vec![1, 2]);
}

#[test]
fn to_bytes_from_bytes_roundtrip() {
    let values = vec![0x01020304u32, 0xAABBCCDD];
    let bytes = values.to_bytes();
    assert_eq!(bytes, vec![0x04, 0x03, 0x02, 0x01, 0xDD, 0xCC, 0xBB, 0xAA]);
    let back: Vec<u32> = <[u32]>::from_bytes(&bytes);
    assert_eq!(back, values);
    // u16 and u64 field values take the same path.
    let small = vec![0x0102u16];
    assert_eq!(small.to_bytes(), vec![0x02, 0x01]);
    let wide: Vec<u64> = <[u64]>::from_bytes(&[1, 0, 0, 0, 0, 0, 0, 0]);
    assert_eq!(wide, vec![1u64]);
}

#[test]
fn packed_convert_prefix() {
    let mut buffer: Vec<u8> = Vec::new();
    0x01020304u32.pack_into(&mut buffer);
    assert_eq!(buffer, vec![0x04, 0x03, 0x02, 0x01]);
    assert_eq!(u32::packed_size(), 4);
    let v = u32::unpack_prefix(&buffer).unwrap();
    assert_eq!(v, 0x01020304);
    assert_eq!(u32::unpack_prefix(&buffer[0..3]), None);
    // The unpack reads the front of a longer buffer.
    buffer.push(0xFF);
    assert_eq!(u32::unpack_prefix(&buffer), Some(0x01020304));
}
