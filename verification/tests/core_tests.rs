//! Datatypes and datasets.

use oxih5::{ByteOrder, Charset, CompoundField, Dataset, Dtype, OxiH5Error, RefType};

fn singles(bits: &[u32]) -> Vec<f32> {
    bits.iter().map(|b| f32::from_bits(*b)).collect()
}

#[test]
fn test_dtype_size() {
    assert_eq!(
        Dtype::Int {
            size: 4,
            signed: true,
            order: ByteOrder::Little
        }
        .size(),
        Some(4)
    );
    assert_eq!(
        Dtype::Float {
            size: 8,
            order: ByteOrder::Big
        }
        .size(),
        Some(8)
    );
    assert_eq!(
        Dtype::String {
            fixed_len: Some(10),
            charset: Charset::Ascii
        }
        .size(),
        Some(10)
    );
    // Variable-length string has no fixed element size.
    assert_eq!(
        Dtype::String {
            fixed_len: None,
            charset: Charset::Utf8
        }
        .size(),
        None
    );
    // Array: base size * product(dims).
    assert_eq!(
        Dtype::Array {
            base: Box::new(Dtype::Int {
                size: 2,
                signed: false,
                order: ByteOrder::Little
            }),
            dims: vec![3, 4]
        }
        .size(),
        Some(2 * 12)
    );
    // Enum inherits its base type's size.
    assert_eq!(
        Dtype::Enum {
            base: Box::new(Dtype::Int {
                size: 4,
                signed: true,
                order: ByteOrder::Little
            }),
            members: vec![("a".into(), 0), ("b".into(), 1)]
        }
        .size(),
        Some(4)
    );
    // Compound: max(offset + member size).
    assert_eq!(
        Dtype::Compound {
            fields: vec![
                CompoundField {
                    name: "x".into(),
                    offset: 0,
                    dtype: Dtype::Int {
                        size: 4,
                        signed: true,
                        order: ByteOrder::Little
                    }
                },
                CompoundField {
                    name: "y".into(),
                    offset: 4,
                    dtype: Dtype::Float {
                        size: 8,
                        order: ByteOrder::Little
                    }
                }
            ]
        }
        .size(),
        Some(12)
    );
    // Object reference is 8 bytes, variable-length has no fixed size.
    assert_eq!(
        Dtype::Reference {
            ref_type: RefType::Object
        }
        .size(),
        Some(8)
    );
    assert_eq!(
        Dtype::VarLen {
            base: Box::new(Dtype::Int {
                size: 4,
                signed: true,
                order: ByteOrder::Little
            })
        }
        .size(),
        None
    );
}

fn make_f32_le_dataset(values: &[f32]) -> Dataset {
    let data: Vec<u8> = values.iter().flat_map(|v| v.to_le_bytes()).collect();
    Dataset {
        data,
        shape: vec![values.len()],
        dtype: Dtype::Float {
            size: 4,
            order: ByteOrder::Little,
        },
        attributes: vec![],
    }
}

fn make_i32_le_dataset(values: &[i32]) -> Dataset {
    let data: Vec<u8> = values.iter().flat_map(|v| v.to_le_bytes()).collect();
    Dataset {
        data,
        shape: vec![values.len()],
        dtype: Dtype::Int {
            size: 4,
            signed: true,
            order: ByteOrder::Little,
        },
        attributes: vec![],
    }
}

#[test]
fn test_byte_orders() {
    let ds = make_f32_le_dataset(&[1.0_f32, 2.0, 3.0]);
    let v = singles(&ds.as_f32().unwrap());
    assert_eq!(v, vec![1.0_f32, 2.0, 3.0]);

    let data: Vec<u8> = [1.0_f32, 2.0]
        .iter()
        .flat_map(|v| v.to_be_bytes())
        .collect();
    let ds = Dataset {
        data,
        shape: vec![2],
        dtype: Dtype::Float {
            size: 4,
            order: ByteOrder::Big,
        },
        attributes: vec![],
    };
    let v = singles(&ds.as_f32().unwrap());
    assert_eq!(v, vec![1.0_f32, 2.0]);

    let ds = make_i32_le_dataset(&[10, -5]);
    assert_eq!(ds.as_i32().unwrap(), vec![10, -5]);
}

#[test]
fn test_type_mismatch() {
    let ds = make_f32_le_dataset(&[1.0]);
    assert!(matches!(ds.as_i32(), Err(OxiH5Error::TypeMismatch)));
    assert!(matches!(ds.as_u8(), Err(OxiH5Error::TypeMismatch)));
}

#[test]
fn test_dataset_len() {
    let ds = Dataset {
        data: vec![0_u8; 4],
        shape: vec![],
        dtype: Dtype::Float {
            size: 4,
            order: ByteOrder::Little,
        },
        attributes: vec![],
    };
    assert_eq!(ds.len(), 1);
    assert!(!ds.is_empty());

    let ds = make_f32_le_dataset(&[0.0; 5]);
    assert_eq!(ds.len(), 5);

    let data: Vec<u8> = vec![0_u8; 24];
    let ds = Dataset {
        data,
        shape: vec![2, 3],
        dtype: Dtype::Float {
            size: 4,
            order: ByteOrder::Little,
        },
        attributes: vec![],
    };
    assert_eq!(ds.len(), 6);
}

#[test]
fn test_dtype_eq_clone() {
    let f = Dtype::Float {
        size: 4,
        order: ByteOrder::Little,
    };
    assert_eq!(f.clone(), f);
    let i = Dtype::Int {
        size: 4,
        signed: true,
        order: ByteOrder::Little,
    };
    assert_ne!(f, i);
    let s = Dtype::String {
        fixed_len: Some(10),
        charset: Charset::Utf8,
    };
    assert_eq!(s.clone(), s);
}

#[test]
fn test_error_display() {
    let errors: Vec<OxiH5Error> = vec![
        OxiH5Error::BadSignature,
        OxiH5Error::UnsupportedSuperblock(3),
        OxiH5Error::TypeMismatch,
        OxiH5Error::NotFound("foo".into()),
        OxiH5Error::UnsupportedFilter("lzf".into()),
        OxiH5Error::Corrupted("bad checksum".into()),
    ];
    for e in errors {
        assert!(
            !e.message().is_empty(),
            "OxiH5Error display was empty for: {:?}",
            e
        );
    }
}

#[test]
fn test_f16_decode() {
    let data = vec![0x3C_u8, 0x00, 0x38, 0x00];
    let ds = Dataset {
        data,
        shape: vec![2],
        dtype: Dtype::Float {
            size: 2,
            order: ByteOrder::Big,
        },
        attributes: vec![],
    };
    let v = singles(&ds.as_f16().unwrap());
    assert!((v[0] - 1.0_f32).abs() < 1e-6);
    assert!((v[1] - 0.5_f32).abs() < 1e-6);
}

#[test]
fn test_integer_converters() {
    let data: Vec<u8> = [100_u16, 200_u16]
        .iter()
        .flat_map(|v| v.to_le_bytes())
        .collect();
    let ds = Dataset {
        data,
        shape: vec![2],
        dtype: Dtype::Int {
            size: 2,
            signed: false,
            order: ByteOrder::Little,
        },
        attributes: vec![],
    };
    assert_eq!(ds.as_u16().unwrap(), vec![100_u16, 200_u16]);

    let ds = Dataset {
        data: vec![0x7F, 0x80],
        shape: vec![2],
        dtype: Dtype::Int {
            size: 1,
            signed: true,
            order: ByteOrder::Little,
        },
        attributes: vec![],
    };
    assert_eq!(ds.as_i8().unwrap(), vec![127_i8, -128_i8]);
}

#[test]
fn test_slice_1d() {
    let data: Vec<u8> = (0u8..10).collect();
    let ds = Dataset {
        data,
        shape: vec![10],
        dtype: Dtype::Int {
            size: 1,
            signed: false,
            order: ByteOrder::Little,
        },
        attributes: vec![],
    };
    let ranges = [std::ops::Range { start: 2, end: 5 }];
    let sliced = ds.slice(&ranges).unwrap();
    assert_eq!(sliced.shape, vec![3]);
    assert_eq!(sliced.data, vec![2u8, 3, 4]);
}

#[test]
fn test_slice_2d() {
    // 3x4 matrix of u8 = [0..12]
    let data: Vec<u8> = (0u8..12).collect();
    let ds = Dataset {
        data,
        shape: vec![3, 4],
        dtype: Dtype::Int {
            size: 1,
            signed: false,
            order: ByteOrder::Little,
        },
        attributes: vec![],
    };
    // Row 1: [4,5,6,7], Row 2: [8,9,10,11]
    // Slice rows 1..3, cols 1..3 = [5,6,9,10]
    let ranges = [
        std::ops::Range { start: 1, end: 3 },
        std::ops::Range { start: 1, end: 3 },
    ];
    let sliced = ds.slice(&ranges).unwrap();
    assert_eq!(sliced.shape, vec![2, 2]);
    assert_eq!(sliced.data, vec![5u8, 6, 9, 10]);
}

#[test]
fn test_slice_out_of_bounds() {
    let ds = Dataset {
        data: vec![0u8; 4],
        shape: vec![4],
        dtype: Dtype::Int {
            size: 1,
            signed: false,
            order: ByteOrder::Little,
        },
        attributes: vec![],
    };
    let ranges = [std::ops::Range { start: 0, end: 10 }];
    assert!(ds.slice(&ranges).is_err());
}

#[test]
fn test_slice_empty() {
    let ds = Dataset {
        data: vec![0u8; 4],
        shape: vec![4],
        dtype: Dtype::Int {
            size: 1,
            signed: false,
            order: ByteOrder::Little,
        },
        attributes: vec![],
    };
    let ranges = [std::ops::Range { start: 2, end: 2 }];
    let empty = ds.slice(&ranges).unwrap();
    assert_eq!(empty.shape, vec![0]);
    assert!(empty.data.is_empty());
}

#[test]
fn test_reshape() {
    let ds = Dataset {
        data: vec![0u8; 12],
        shape: vec![3, 4],
        dtype: Dtype::Int {
            size: 1,
            signed: false,
            order: ByteOrder::Little,
        },
        attributes: vec![],
    };
    let reshaped = ds.reshape(&[2, 6]).unwrap();
    assert_eq!(reshaped.shape, vec![2, 6]);
    assert_eq!(reshaped.data.len(), 12);

    // Wrong element count should fail
    assert!(ds.reshape(&[2, 7]).is_err());
}

#[test]
fn test_to_array_i32_2d() {
    let data: Vec<u8> = (0i32..6).flat_map(|v| v.to_le_bytes()).collect();
    let ds = Dataset {
        data,
        shape: vec![2, 3],
        dtype: Dtype::Int {
            size: 4,
            signed: true,
            order: ByteOrder::Little,
        },
        attributes: vec![],
    };
    let arr = ds.to_array_i32().unwrap();
    assert_eq!(arr.shape(), vec![2, 3]);
    assert_eq!(arr.get(&[0, 0]), Some(0));
    assert_eq!(arr.get(&[1, 2]), Some(5));
}
