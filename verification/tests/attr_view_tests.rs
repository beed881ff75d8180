//! Attributes.

use oxih5::{
    AttrView, Attribute, ByteOrder, Charset, CompoundField, Dataspace, Dtype, RefType, Value,
};

#[test]
fn test_attr_view_fixed_strings() {
    let data: Vec<u8> = b"hello\0\0\0world\0\0\0".to_vec();
    let attr = Attribute {
        name: "label".into(),
        dtype: Dtype::String {
            fixed_len: Some(8),
            charset: Charset::Utf8,
        },
        dataspace: Dataspace::Simple {
            dims: vec![2],
            max_dims: None,
        },
        data,
    };
    let view = AttrView::new(attr, &[]);
    let strings = view.as_strings().unwrap();
    assert_eq!(strings, vec!["hello".to_string(), "world".to_string()]);
}

#[test]
fn test_attr_view_object_refs() {
    let mut data = Vec::new();
    data.extend_from_slice(&0x1000u64.to_le_bytes());
    data.extend_from_slice(&0x2000u64.to_le_bytes());
    let attr = Attribute {
        name: "refs".into(),
        dtype: Dtype::Reference {
            ref_type: RefType::Object,
        },
        dataspace: Dataspace::Simple {
            dims: vec![2],
            max_dims: None,
        },
        data,
    };
    let view = AttrView::new(attr, &[]);
    let refs = view.as_object_refs().unwrap();
    assert_eq!(refs, vec![0x1000u64, 0x2000u64]);
}

#[test]
fn test_attr_view_scalar_i64() {
    let attr = Attribute {
        name: "count".into(),
        dtype: Dtype::Int {
            size: 4,
            signed: true,
            order: ByteOrder::Little,
        },
        dataspace: Dataspace::Scalar,
        data: 99i32.to_le_bytes().to_vec(),
    };
    let view = AttrView::new(attr, &[]);
    assert_eq!(view.as_i64(), Some(99));
    assert!(view.is_scalar());
}

#[test]
fn test_attr_view_type_mismatch_string_on_int() {
    let attr = Attribute {
        name: "num".into(),
        dtype: Dtype::Int {
            size: 4,
            signed: false,
            order: ByteOrder::Little,
        },
        dataspace: Dataspace::Scalar,
        data: 42u32.to_le_bytes().to_vec(),
    };
    let view = AttrView::new(attr, &[]);
    assert!(view.as_strings().is_err());
}

#[test]
fn test_attr_view_compound() {
    let fields = vec![
        CompoundField {
            name: "x".into(),
            offset: 0,
            dtype: Dtype::Int {
                size: 4,
                signed: true,
                order: ByteOrder::Little,
            },
        },
        CompoundField {
            name: "y".into(),
            offset: 4,
            dtype: Dtype::Float {
                size: 4,
                order: ByteOrder::Little,
            },
        },
    ];
    let mut data = Vec::new();
    data.extend_from_slice(&5i32.to_le_bytes());
    data.extend_from_slice(&1.5f32.to_le_bytes());
    let attr = Attribute {
        name: "point".into(),
        dtype: Dtype::Compound { fields },
        dataspace: Dataspace::Scalar,
        data,
    };
    let view = AttrView::new(attr, &[]);
    let values = view.as_compound().unwrap();
    assert_eq!(values.len(), 1);
    if let Value::Compound(ref pairs) = values[0] {
        assert_eq!(pairs[0].0, "x");
        assert_eq!(pairs[0].1, Value::Int(5));
    } else {
        panic!("expected Compound value");
    }
}
