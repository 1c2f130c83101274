//! Tests for the self-describing type format, the dynamic reflective
//! accessor and the blob emitter.

use packed_data::blob::{build_type_blob, primitive_size_bytes};
use packed_data::dynamic::DynamicContainer;
use packed_data::mtf::{
    build_string_table, encode_with_metadata, read_mtf, read_string, write_mtf, FieldDef, MTFError,
    TypeDef, MTF_VERSION,
};

fn create_test_blob() -> Vec<u8> {
    let mut blob = Vec::new();
    blob.extend_from_slice(b"MTF\0");
    blob.extend_from_slice(&1u32.to_le_bytes());
    blob.extend_from_slice(&1u32.to_le_bytes());
    blob.extend_from_slice(&0u32.to_le_bytes());
    blob.extend_from_slice(&64u32.to_le_bytes());
    blob.extend_from_slice(&2u32.to_le_bytes());

    blob.extend_from_slice(&5u32.to_le_bytes());
    blob.extend_from_slice(&0u32.to_le_bytes());
    blob.extend_from_slice(&32u32.to_le_bytes());

    blob.extend_from_slice(&7u32.to_le_bytes());
    blob.extend_from_slice(&32u32.to_le_bytes());
    blob.extend_from_slice(&32u32.to_le_bytes());

    blob.extend_from_slice(&9u32.to_le_bytes());
    blob.extend_from_slice(b"Test\0x\0y\0");

    blob
}

#[test]
fn test_mtf_magic() {
    assert_eq!(MTF_VERSION, 1);
    let blob = write_mtf(&vec![], &vec![]);
    assert_eq!(&blob[0..4], b"MTF\0");
}

#[test]
fn test_build_string_table() {
    let names = vec!["foo".to_string(), "bar".to_string(), "baz".to_string()];
    let (table, offsets) = build_string_table(&names);

    assert_eq!(offsets, vec![0, 4, 8]);

    assert_eq!(&table[0..4], b"foo\0");
    assert_eq!(&table[4..8], b"bar\0");
    assert_eq!(&table[8..12], b"baz\0");
}

#[test]
fn test_read_string() {
    let strings = b"hello\0world\0test\0".to_vec();

    assert_eq!(read_string(&strings, 0).unwrap(), "hello");
    assert_eq!(read_string(&strings, 6).unwrap(), "world");
    assert_eq!(read_string(&strings, 12).unwrap(), "test");
}

#[test]
fn read_string_validates_eagerly() {
    let strings = b"ok\0".to_vec();
    assert!(matches!(
        read_string(&strings, 9),
        Err(MTFError::InvalidStringOffset(9))
    ));
    let unterminated = b"oops".to_vec();
    assert!(matches!(
        read_string(&unterminated, 0),
        Err(MTFError::UnexpectedEof)
    ));
    let bad_utf8 = vec![0xFFu8, 0xFE, 0x00];
    assert!(matches!(
        read_string(&bad_utf8, 0),
        Err(MTFError::InvalidUtf8)
    ));
    // Multi-byte UTF-8 names decode whole.
    let accented = "caf\u{e9}\0rest".as_bytes().to_vec();
    assert_eq!(read_string(&accented, 0).unwrap(), "caf\u{e9}");
}

#[test]
fn test_write_and_read_mtf() {
    let type_def = TypeDef {
        name_offset: 0,
        size_bits: 64,
        fields: vec![
            FieldDef {
                name_offset: 5,
                offset_bits: 0,
                size_bits: 32,
            },
            FieldDef {
                name_offset: 7,
                offset_bits: 32,
                size_bits: 32,
            },
        ],
    };

    let strings = b"Test\0x\0y\0".to_vec();
    let output = write_mtf(&vec![type_def.clone()], &strings);

    let (parsed_types, parsed_strings) = read_mtf(&output).unwrap();

    assert_eq!(parsed_types.len(), 1);
    assert_eq!(parsed_types[0], type_def);
    assert_eq!(parsed_strings, strings);
}

#[test]
fn read_mtf_error_cases() {
    assert!(matches!(
        read_mtf(&vec![1, 2, 3]),
        Err(MTFError::UnexpectedEof)
    ));
    let mut bad_magic = create_test_blob();
    bad_magic[0] = b'X';
    assert!(matches!(
        read_mtf(&bad_magic),
        Err(MTFError::InvalidMagic)
    ));
    let mut bad_version = create_test_blob();
    bad_version[4] = 9;
    assert!(matches!(
        read_mtf(&bad_version),
        Err(MTFError::UnsupportedVersion(9))
    ));
    let mut truncated = create_test_blob();
    truncated.truncate(20);
    assert!(matches!(
        read_mtf(&truncated),
        Err(MTFError::UnexpectedEof)
    ));
}

#[test]
fn test_primitive_sizes() {
    assert_eq!(primitive_size_bytes("u8"), Some(1));
    assert_eq!(primitive_size_bytes("i8"), Some(1));
    assert_eq!(primitive_size_bytes("bool"), Some(1));
    assert_eq!(primitive_size_bytes("u16"), Some(2));
    assert_eq!(primitive_size_bytes("i16"), Some(2));
    assert_eq!(primitive_size_bytes("u32"), Some(4));
    assert_eq!(primitive_size_bytes("i32"), Some(4));
    assert_eq!(primitive_size_bytes("f32"), Some(4));
    assert_eq!(primitive_size_bytes("u64"), Some(8));
    assert_eq!(primitive_size_bytes("i64"), Some(8));
    assert_eq!(primitive_size_bytes("f64"), Some(8));
    assert_eq!(primitive_size_bytes("u128"), Some(16));
    assert_eq!(primitive_size_bytes("i128"), Some(16));
    assert_eq!(primitive_size_bytes("String"), None);
    assert_eq!(primitive_size_bytes("Vec"), None);
}

#[test]
fn build_type_blob_matches_hand_built() {
    // The emitter reproduces, byte for byte, the hand-assembled blob for a
    // two-field u32 struct named Test.
    let fields = vec![("x".to_string(), 4u32), ("y".to_string(), 4u32)];
    let blob = build_type_blob(&"Test".to_string(), &fields);
    assert_eq!(blob, create_test_blob());
}

#[test]
fn test_dynamic_container_creation() {
    let data = vec![1u8, 2, 3, 4, 5, 6, 7, 8];
    let blob = create_test_blob();

    let container = DynamicContainer::from_raw(data, &blob).unwrap();
    assert_eq!(container.len(), 1);
    assert_eq!(container.name().unwrap(), "Test");
    assert!(!container.is_empty());
}

#[test]
fn test_field_names() {
    let data = vec![1u8, 2, 3, 4, 5, 6, 7, 8];
    let blob = create_test_blob();

    let container = DynamicContainer::from_raw(data, &blob).unwrap();
    let names = container.field_names();

    assert_eq!(names.len(), 2);
    assert!(names.contains(&"x".to_string()));
    assert!(names.contains(&"y".to_string()));
}

#[test]
fn test_field_access() {
    let data = vec![0x01, 0x02, 0x03, 0x04, 0x05, 0x06, 0x07, 0x08];
    let blob = create_test_blob();

    let mut container = DynamicContainer::from_raw(data, &blob).unwrap();

    let x: u32 = container.field(0, "x").unwrap();
    assert_eq!(x, 0x04030201);

    container.field_mut::<u32>(0, "y").set(&mut container, 0xDEADBEEF_u32);

    let y: u32 = container.field(0, "y").unwrap();
    assert_eq!(y, 0xDEADBEEF);
}

#[test]
fn test_field_handle_operations() {
    let data = vec![0x0A, 0x00, 0x00, 0x00, 0x14, 0x00, 0x00, 0x00];
    let blob = create_test_blob();

    let mut container = DynamicContainer::from_raw(data, &blob).unwrap();

    // Add.
    container.field_mut::<u32>(0, "x").add(&mut container, 5);
    let x: u32 = container.field(0, "x").unwrap();
    assert_eq!(x, 15);

    // Subtract.
    container.field_mut::<u32>(0, "y").sub(&mut container, 4);
    let y: u32 = container.field(0, "y").unwrap();
    assert_eq!(y, 16);

    // Apply.
    container
        .field_mut::<u32>(0, "x")
        .apply(&mut container, |v| v * 2);
    let x: u32 = container.field(0, "x").unwrap();
    assert_eq!(x, 30);
}

#[test]
fn field_mutation_chains() {
    // Chained mutation: add then apply composes left to right.
    let data = vec![0x0A, 0x00, 0x00, 0x00, 0x14, 0x00, 0x00, 0x00];
    let blob = create_test_blob();
    let mut container = DynamicContainer::from_raw(data, &blob).unwrap();

    container
        .field_mut::<u32>(0, "x")
        .add(&mut container, 10)
        .apply(&mut container, |v| v * 2);
    let x: u32 = container.field(0, "x").unwrap();
    assert_eq!(x, 40);

    // Chains on a missing field degrade to no-ops.
    container
        .field_mut::<u32>(0, "missing")
        .add(&mut container, 10)
        .apply(&mut container, |v| v * 2);
    assert_eq!(container.field::<u32>(0, "x").unwrap(), 40);
}

#[test]
fn test_field_handle_none() {
    let data = vec![0x01, 0x02, 0x03, 0x04, 0x05, 0x06, 0x07, 0x08];
    let blob = create_test_blob();

    let mut container = DynamicContainer::from_raw(data, &blob).unwrap();

    // Non-existent field.
    let handle = container.field_mut::<u32>(0, "nonexistent");
    assert!(!handle.is_some());
    assert!(handle.get(&container).is_none());

    // Out of bounds index.
    let handle = container.field_mut::<u32>(99, "x");
    assert!(!handle.is_some());
    assert!(handle.get(&container).is_none());
    // Mutators on an empty handle are no-ops.
    handle.set(&mut container, 7u32);
    assert_eq!(container.field::<u32>(0, "x").unwrap(), 0x04030201);
}

#[test]
fn field_type_safety() {
    // A field declared 32 bits wide reads as u32 and refuses u16 and u64.
    let data = vec![0x01, 0x02, 0x03, 0x04, 0x05, 0x06, 0x07, 0x08];
    let blob = create_test_blob();
    let container = DynamicContainer::from_raw(data, &blob).unwrap();

    assert_eq!(container.field::<u16>(0, "x"), None);
    assert_eq!(container.field::<u64>(0, "x"), None);
    assert_eq!(container.field::<u32>(0, "x"), Some(0x04030201));
}

#[test]
fn dynamic_test_iterator() {
    let data = vec![
        0x01, 0x02, 0x03, 0x04, 0x05, 0x06, 0x07, 0x08, 0x11, 0x12, 0x13, 0x14, 0x15, 0x16, 0x17,
        0x18, 0x21, 0x22, 0x23, 0x24, 0x25, 0x26, 0x27, 0x28,
    ];
    let blob = create_test_blob();

    let container = DynamicContainer::from_raw(data, &blob).unwrap();

    assert_eq!(container.len(), 3);

    let indices: Vec<usize> = container.iter();
    assert_eq!(indices, vec![0, 1, 2]);

    assert_eq!(container.iter().len(), 3);
}

#[test]
fn construction_validates_descriptor_eagerly() {
    let data = vec![1u8, 2, 3, 4, 5, 6, 7, 8];

    // A type-name offset past the string table is rejected at construction,
    // not deferred to the first name lookup.
    let mut bad_type_name = create_test_blob();
    bad_type_name[12..16].copy_from_slice(&100u32.to_le_bytes());
    assert!(matches!(
        DynamicContainer::from_raw(data.clone(), &bad_type_name),
        Err(MTFError::InvalidStringOffset(100))
    ));

    // A field reaching past the struct's declared bit size is rejected:
    // shrink the struct to 32 bits so field y (bits 32..64) sticks out.
    let mut field_out_of_bounds = create_test_blob();
    field_out_of_bounds[16..20].copy_from_slice(&32u32.to_le_bytes());
    assert!(matches!(
        DynamicContainer::from_raw(data.clone(), &field_out_of_bounds),
        Err(MTFError::InvalidFieldLayout)
    ));

    // Overlapping fields are rejected: move field y to bit 16 so it shares
    // bits 16..32 with field x.
    let mut overlapping = create_test_blob();
    overlapping[40..44].copy_from_slice(&16u32.to_le_bytes());
    assert!(matches!(
        DynamicContainer::from_raw(data, &overlapping),
        Err(MTFError::InvalidFieldLayout)
    ));
}

#[test]
fn composite_file_roundtrip() {
    // End-to-end: frame raw data with embedded metadata, locate it by
    // magic-scan, and access fields by name.
    let data = vec![1u8, 2, 3, 4, 5, 6, 7, 8];
    let blob = create_test_blob();
    let all = encode_with_metadata(&data, &blob);

    let container = DynamicContainer::from_file_bytes(all).unwrap();
    assert_eq!(container.len(), 1);
    assert_eq!(container.name().unwrap(), "Test");
    assert_eq!(container.field::<u32>(0, "x"), Some(0x04030201));
    assert_eq!(container.field::<u32>(0, "y"), Some(0x08070605));

    // A buffer without embedded metadata is rejected.
    assert!(matches!(
        DynamicContainer::from_file_bytes(vec![1, 2, 3, 4, 5, 6, 7, 8]),
        Err(MTFError::InvalidMagic)
    ));
}
