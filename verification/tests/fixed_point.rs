//! Tests for the fixed-point type and its storage backends.

use packed_data::fixed::{
    FixedPointArray, FixedPointContainerPacked, FixedPointContainerStd, FixedPointContainerTrait,
    FixedSmall,
};

#[test]
fn test_array_creation() {
    let array: FixedPointArray<16, 8> = FixedPointArray::new();
    assert_eq!(array.len(), 0);
    assert!(array.is_empty());
}

#[test]
fn array_push_get_and_iter() {
    let mut array: FixedPointArray<16, 8> = FixedPointArray::new();
    array.push(FixedSmall::from_raw(0x0180)).unwrap();
    array.push(FixedSmall::from_raw(-0x0240)).unwrap();
    assert_eq!(array.len(), 2);
    assert_eq!(array.get(0).unwrap().raw_value(), 0x0180);
    assert_eq!(array.get(1).unwrap().raw_value(), -0x0240);
    assert!(array.get(2).is_none());
    let all = array.iter();
    assert_eq!(all.len(), 2);
    assert_eq!(all[0].raw_value(), 0x0180);
    let slice = array.as_slice().unwrap();
    assert_eq!(slice[1].raw_value(), -0x0240);
}

#[test]
fn array_as_bytes_little_endian() {
    let mut array: FixedPointArray<16, 8> = FixedPointArray::new();
    array.push(FixedSmall::from_raw(0x0102_0304)).unwrap();
    array.push(FixedSmall::from_raw(-1)).unwrap();
    let bytes = array.as_bytes();
    assert_eq!(bytes, vec![0x04, 0x03, 0x02, 0x01, 0xFF, 0xFF, 0xFF, 0xFF]);
}

#[test]
fn fixed_small_constants() {
    let zero = FixedSmall::<16, 8>::zero();
    let one = FixedSmall::<16, 8>::one();
    assert_eq!(zero.raw_value(), 0);
    assert_eq!(one.raw_value(), 256);
    assert_eq!(FixedSmall::<16, 8>::max_value().raw_value(), 32767);
    assert_eq!(FixedSmall::<16, 8>::min_value().raw_value(), -32768);
    assert_eq!(FixedSmall::<32, 8>::max_value().raw_value(), i32::MAX);
    assert_eq!(FixedSmall::<32, 8>::min_value().raw_value(), i32::MIN);
}

#[test]
fn fixed_small_arithmetic() {
    // 1.5 + 2.5 == 4.0 in the 8.8 format.
    let x = FixedSmall::<16, 8>::from_raw(384);
    let y = FixedSmall::<16, 8>::from_raw(640);
    assert_eq!(x.add(y).raw_value(), 1024);
    // 5.0 - 3.0 == 2.0.
    let a = FixedSmall::<16, 8>::from_raw(1280);
    let b = FixedSmall::<16, 8>::from_raw(768);
    assert_eq!(a.sub(b).raw_value(), 512);
    // 2.0 * 3.0 == 6.0.
    let p = FixedSmall::<16, 8>::from_raw(512);
    let q = FixedSmall::<16, 8>::from_raw(768);
    assert_eq!(p.mul(q).raw_value(), 1536);
    // Negation and absolute value.
    let n = FixedSmall::<16, 8>::from_raw(896);
    assert_eq!(n.neg().raw_value(), -896);
    assert_eq!(n.neg().abs().raw_value(), 896);
    // Saturation at the i32 bounds.
    let big = FixedSmall::<32, 8>::from_raw(i32::MAX);
    assert_eq!(big.add(big).raw_value(), i32::MAX);
    let small = FixedSmall::<32, 8>::from_raw(i32::MIN);
    assert_eq!(small.sub(big).raw_value(), i32::MIN);
    assert_eq!(small.neg().raw_value(), i32::MAX);
}

#[test]
fn fixed_small_mul_clamps_to_format() {
    // The product of two large 8.8 values exceeds the format and clamps.
    let x = FixedSmall::<16, 8>::from_raw(32767);
    assert_eq!(x.mul(x).raw_value(), 32767);
    let y = FixedSmall::<16, 8>::from_raw(-32768);
    assert_eq!(y.mul(x).raw_value(), -32768);
}

#[test]
fn std_container_stores_raw_values() {
    let mut c: FixedPointContainerStd<16, 8> = FixedPointContainerTrait::new();
    c.push(FixedSmall::from_raw(7)).unwrap();
    c.push(FixedSmall::from_raw(-7)).unwrap();
    assert_eq!(c.len(), 2);
    assert!(!c.is_empty());
    assert_eq!(c.get(0).unwrap().raw_value(), 7);
    assert_eq!(c.get(1).unwrap().raw_value(), -7);
    assert_eq!(c.get(2), None);
    let bytes = c.as_bytes();
    assert_eq!(bytes.len(), 8);
    assert_eq!(&bytes[0..4], &[7, 0, 0, 0]);
}

#[test]
fn packed_container_sign_extension_roundtrip() {
    // The packed backend stores only 16 of the 32 raw bits; values in the
    // 16-bit two's-complement range survive the store and sign-extend back.
    let mut c: FixedPointContainerPacked<16, 8> = FixedPointContainerTrait::new();
    c.push(FixedSmall::from_raw(300)).unwrap();
    c.push(FixedSmall::from_raw(-300)).unwrap();
    c.push(FixedSmall::from_raw(32767)).unwrap();
    c.push(FixedSmall::from_raw(-32768)).unwrap();
    assert_eq!(c.len(), 4);
    assert_eq!(c.get(0).unwrap().raw_value(), 300);
    assert_eq!(c.get(1).unwrap().raw_value(), -300);
    assert_eq!(c.get(2).unwrap().raw_value(), 32767);
    assert_eq!(c.get(3).unwrap().raw_value(), -32768);
    assert!(c.as_slice().is_none());
}

#[test]
fn packed_container_width_32_edge() {
    // At the full 32-bit width the store keeps every raw bit.
    let mut c: FixedPointContainerPacked<32, 16> = FixedPointContainerTrait::new();
    c.push(FixedSmall::from_raw(i32::MIN)).unwrap();
    c.push(FixedSmall::from_raw(i32::MAX)).unwrap();
    c.push(FixedSmall::from_raw(-1)).unwrap();
    assert_eq!(c.get(0).unwrap().raw_value(), i32::MIN);
    assert_eq!(c.get(1).unwrap().raw_value(), i32::MAX);
    assert_eq!(c.get(2).unwrap().raw_value(), -1);
}

#[test]
fn std_container_helpers() {
    let mut c: FixedPointContainerStd<16, 8> = FixedPointContainerTrait::with_capacity(10);
    c.push(FixedSmall::from_raw(1)).unwrap();
    c.reserve(5);
    assert_eq!(c.len(), 1);
    c.clear();
    assert_eq!(c.len(), 0);
    let c2 = FixedPointContainerStd::<16, 8>::from_vec(vec![FixedSmall::from_raw(9)]);
    let v = c2.into_vec();
    assert_eq!(v[0].raw_value(), 9);
}
