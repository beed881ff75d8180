//! Decoding values.

use oxih5::global_heap_writer::GlobalHeapWriter;
use oxih5::values::{
    decode_compound, decode_compound_element, decode_object_refs, decode_one_value,
    decode_vlen_strings, parse_vlen_ref,
};
use oxih5::{ByteOrder, Charset, CompoundField, Dtype, Float, RefType, Value};
use std::collections::HashMap;

fn build_gcol_for_test(objects: &[(u16, &[u8])]) -> Vec<u8> {
    // Build a minimal GCOL collection in memory for testing
    let mut data = Vec::new();
    data.extend_from_slice(b"GCOL");
    data.push(1); // version
    data.extend_from_slice(&[0u8; 3]); // reserved
                                       // placeholder for collection size (will fill in at end)
    let size_pos = data.len();
    data.extend_from_slice(&[0u8; 8]);

    for (idx, obj_data) in objects {
        data.extend_from_slice(&idx.to_le_bytes());
        data.extend_from_slice(&1u16.to_le_bytes()); // ref_count
        data.extend_from_slice(&[0u8; 4]); // reserved
        data.extend_from_slice(&(obj_data.len() as u64).to_le_bytes());
        data.extend_from_slice(obj_data);
        // pad to 8-byte alignment
        let pad = (8 - (data.len() % 8)) % 8;
        data.extend(std::iter::repeat(0u8).take(pad));
    }

    // NIL terminator
    data.extend_from_slice(&[0u8; 16]);

    // Fill in collection size
    let total = data.len() as u64;
    data[size_pos..size_pos + 8].copy_from_slice(&total.to_le_bytes());
    data
}

// ------------------------------------------------------------------
// parse_vlen_ref

#[test]
fn test_parse_vlen_ref_basic() {
    let mut ref_bytes = [0u8; 16];
    // length = 3
    ref_bytes[0..4].copy_from_slice(&3u32.to_le_bytes());
    // object index = 7
    ref_bytes[4..6].copy_from_slice(&7u16.to_le_bytes());
    // heap address = 0x1000
    ref_bytes[8..16].copy_from_slice(&0x1000u64.to_le_bytes());

    let (len, addr, idx) = parse_vlen_ref(&ref_bytes).unwrap();
    assert_eq!(len, 3);
    assert_eq!(addr, 0x1000);
    assert_eq!(idx, 7);
}

#[test]
fn test_parse_vlen_ref_too_short() {
    assert!(parse_vlen_ref(&[0u8; 10]).is_err());
}

// ------------------------------------------------------------------
// decode_vlen_strings

#[test]
fn test_decode_vlen_strings_basic() {
    // Build a GCOL at offset 0 with one object: "hello"
    let gcol = build_gcol_for_test(&[(1, b"hello")]);

    // Build the vlen-ref buffer: one 16-byte ref pointing to obj 1
    let mut refs = [0u8; 16];
    refs[0..4].copy_from_slice(&1u32.to_le_bytes()); // seq_len = 1 (ignored for strings; we use heap data directly)
    refs[4..6].copy_from_slice(&1u16.to_le_bytes()); // obj_idx = 1
    refs[8..16].copy_from_slice(&0u64.to_le_bytes()); // heap at offset 0

    let strings = decode_vlen_strings(&gcol, &refs, 1).unwrap();
    assert_eq!(strings, vec!["hello".to_string()]);
}

#[test]
fn test_decode_vlen_strings_empty_element() {
    let gcol = build_gcol_for_test(&[]);

    let mut refs = [0u8; 16];
    // seq_len = 0 → empty string, no heap lookup
    refs[0..4].copy_from_slice(&0u32.to_le_bytes());

    let strings = decode_vlen_strings(&gcol, &refs, 1).unwrap();
    assert_eq!(strings, vec![String::new()]);
}

#[test]
fn test_decode_vlen_strings_multiple() {
    let gcol = build_gcol_for_test(&[(1, b"alpha"), (2, b"beta")]);

    let mut refs = [0u8; 32];
    // ref 0: obj 1 at offset 0
    refs[0..4].copy_from_slice(&1u32.to_le_bytes());
    refs[4..6].copy_from_slice(&1u16.to_le_bytes());
    // refs[8..16] = 0 (heap addr 0)
    // ref 1: obj 2 at offset 0
    refs[16..20].copy_from_slice(&1u32.to_le_bytes());
    refs[20..22].copy_from_slice(&2u16.to_le_bytes());
    // refs[24..32] = 0

    let strings = decode_vlen_strings(&gcol, &refs, 2).unwrap();
    assert_eq!(strings[0], "alpha");
    assert_eq!(strings[1], "beta");
}

// ------------------------------------------------------------------
// decode_object_refs

#[test]
fn test_decode_object_refs_basic() {
    let mut data = [0u8; 16];
    data[0..8].copy_from_slice(&0x0800u64.to_le_bytes());
    data[8..16].copy_from_slice(&u64::MAX.to_le_bytes()); // undefined ref

    let refs = decode_object_refs(&data, 2).unwrap();
    assert_eq!(refs[0], 0x0800);
    assert_eq!(refs[1], u64::MAX);
}

#[test]
fn test_decode_object_refs_too_short() {
    assert!(decode_object_refs(&[0u8; 4], 1).is_err());
}

// ------------------------------------------------------------------
// decode_one_value — primitives

#[test]
fn test_decode_int_signed() {
    let bytes = (-42i32).to_le_bytes();
    let dtype = Dtype::Int {
        size: 4,
        signed: true,
        order: ByteOrder::Little,
    };
    let v = decode_one_value(&[], &bytes, &dtype, &mut HashMap::new(), 0).unwrap();
    assert_eq!(v, Value::Int(-42));
}

#[test]
fn test_decode_int_unsigned() {
    let bytes = 255u8.to_le_bytes();
    let dtype = Dtype::Int {
        size: 1,
        signed: false,
        order: ByteOrder::Little,
    };
    let v = decode_one_value(&[], &bytes, &dtype, &mut HashMap::new(), 0).unwrap();
    assert_eq!(v, Value::Uint(255));
}

#[test]
fn test_decode_float_f64() {
    let pi = std::f64::consts::PI;
    let bytes = pi.to_le_bytes();
    let dtype = Dtype::Float {
        size: 8,
        order: ByteOrder::Little,
    };
    let v = decode_one_value(&[], &bytes, &dtype, &mut HashMap::new(), 0).unwrap();
    if let Value::Float(Float::Double(bits)) = v {
        let f = f64::from_bits(bits);
        assert!((f - pi).abs() < 1e-10);
    } else {
        panic!("expected Value::Float");
    }
}

#[test]
fn test_decode_fixed_string() {
    let mut bytes = b"rust\0\0\0\0".to_vec();
    bytes.resize(8, 0);
    let dtype = Dtype::String {
        fixed_len: Some(8),
        charset: Charset::Utf8,
    };
    let v = decode_one_value(&[], &bytes, &dtype, &mut HashMap::new(), 0).unwrap();
    assert_eq!(v, Value::Str("rust".into()));
}

#[test]
fn test_decode_object_ref() {
    let addr = 0xDEADBEEFu64;
    let bytes = addr.to_le_bytes();
    let dtype = Dtype::Reference {
        ref_type: RefType::Object,
    };
    let v = decode_one_value(&[], &bytes, &dtype, &mut HashMap::new(), 0).unwrap();
    assert_eq!(v, Value::ObjectRef(0xDEADBEEF));
}

// ------------------------------------------------------------------
// decode_compound_element

#[test]
fn test_decode_compound_basic() {
    // Compound: {x: i32 LE at offset 0, y: f64 LE at offset 4}
    let fields = vec![
        CompoundField {
            name: "x".into(),
            offset: 0,
            dtype: Dtype::Int {
                size: 4,
                signed: true,
                order: ByteOrder::Little,
            },
        },
        CompoundField {
            name: "y".into(),
            offset: 4,
            dtype: Dtype::Float {
                size: 8,
                order: ByteOrder::Little,
            },
        },
    ];
    let mut elem = [0u8; 12];
    elem[0..4].copy_from_slice(&7i32.to_le_bytes());
    elem[4..12].copy_from_slice(&2.5f64.to_le_bytes());

    let v = decode_compound_element(&[], &elem, &fields, &mut HashMap::new(), 0).unwrap();
    if let Value::Compound(pairs) = v {
        assert_eq!(pairs[0].0, "x");
        assert_eq!(pairs[0].1, Value::Int(7));
        assert_eq!(pairs[1].0, "y");
        if let Value::Float(Float::Double(bits)) = pairs[1].1 {
            let f = f64::from_bits(bits);
            assert!((f - 2.5).abs() < 1e-12);
        } else {
            panic!("expected Float for y");
        }
    } else {
        panic!("expected Compound");
    }
}

// ------------------------------------------------------------------
// decode_compound (multi-element)

#[test]
fn test_decode_compound_multiple_elems() {
    let fields = vec![CompoundField {
        name: "val".into(),
        offset: 0,
        dtype: Dtype::Int {
            size: 4,
            signed: true,
            order: ByteOrder::Little,
        },
    }];
    let mut data = Vec::new();
    for v in [10i32, 20, 30] {
        data.extend_from_slice(&v.to_le_bytes());
    }
    let result = decode_compound(&[], &data, &fields, 3, 0).unwrap();
    assert_eq!(result.len(), 3);
    assert_eq!(
        result[0],
        Value::Compound(vec![("val".into(), Value::Int(10))])
    );
    assert_eq!(
        result[2],
        Value::Compound(vec![("val".into(), Value::Int(30))])
    );
}

// ------------------------------------------------------------------
// depth guard

#[test]
fn test_decode_depth_limit() {
    // Build a deeply nested Array<Array<...<i32>...>> that exceeds depth limit
    let inner = Dtype::Int {
        size: 4,
        signed: true,
        order: ByteOrder::Little,
    };
    // 20 levels of Array wrapping — exceeds MAX_DECODE_DEPTH (16)
    let mut dtype = inner;
    for _ in 0..20 {
        dtype = Dtype::Array {
            base: Box::new(dtype),
            dims: vec![1],
        };
    }
    let bytes = 0i32.to_le_bytes();
    let result = decode_one_value(&[], &bytes, &dtype, &mut HashMap::new(), 0);
    assert!(
        result.is_err(),
        "expected depth limit error, got: {:?}",
        result
    );
}

#[test]
fn only_references_fill_the_cache_of_collections() {
    let mut heap = GlobalHeapWriter::new();
    let index = heap.write_string("text");
    let file = heap.build();
    let mut cache = HashMap::new();
    let int = Dtype::Int {
        size: 8,
        signed: false,
        order: ByteOrder::Little,
    };
    decode_one_value(&file, &[0; 8], &int, &mut cache, 0).unwrap();
    assert!(cache.is_empty());
    let mut reference = Vec::new();
    reference.extend_from_slice(&5u32.to_le_bytes());
    reference.extend_from_slice(&index.to_le_bytes());
    reference.extend_from_slice(&0u64.to_le_bytes());
    let text = Dtype::String {
        fixed_len: None,
        charset: Charset::Utf8,
    };
    let v = decode_one_value(&file, &reference, &text, &mut cache, 0).unwrap();
    assert_eq!(v, Value::Str("text".to_string()));
    assert_eq!(cache.len(), 1);
}
