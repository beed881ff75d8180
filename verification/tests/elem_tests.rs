//! Element types and attributes as written.

use oxih5::datatype::parse_datatype;
use oxih5::write::attr::{
    fill_obj_refs, resolve_attrs, str_array_width, AddressMap, AttrDesc, AttrKind, ResolvedAttr,
    ResolvedAttrKind,
};
use oxih5::write::elem::{
    dtype_to_elem_type, write_datatype_body, write_float_dtype, ElemType, FIXED_DT_BODY,
    FLOAT_DT_BODY, REF_DT_BODY, SCALAR_DSPACE_BODY, VECTOR_DSPACE_BODY, VLEN_REF_SIZE,
};
use oxih5::{ByteOrder, Charset, Dtype, RefType};

fn body_of(elem_type: ElemType) -> Vec<u8> {
    let size = elem_type.dt_body_size();
    let mut buf = vec![0u8; size];
    let wrote = write_datatype_body(&mut buf, 0, elem_type).expect("write_datatype_body");
    assert_eq!(wrote, size, "{elem_type:?} wrote the wrong length");
    buf
}

#[test]
fn generated_dtype_bodies_match_the_historic_literals() {
    let f32_literal: [u8; 24] = [
        0x11, 0x20, 0x1f, 0x00, 0x04, 0x00, 0x00, 0x00, 0x00, 0x00, 0x20, 0x00, 0x17, 0x08,
        0x00, 0x17, 0x7f, 0x00, 0x00, 0x00, 0x00, 0x00, 0x00, 0x00,
    ];
    let f64_literal: [u8; 24] = [
        0x11, 0x20, 0x3f, 0x00, 0x08, 0x00, 0x00, 0x00, 0x00, 0x00, 0x40, 0x00, 0x34, 0x0b,
        0x00, 0x34, 0xff, 0x03, 0x00, 0x00, 0x00, 0x00, 0x00, 0x00,
    ];
    let i32_literal: [u8; 16] = [
        0x10, 0x08, 0x00, 0x00, 0x04, 0x00, 0x00, 0x00, 0x00, 0x00, 0x20, 0x00, 0x00, 0x00,
        0x00, 0x00,
    ];
    let i64_literal: [u8; 16] = [
        0x10, 0x08, 0x00, 0x00, 0x08, 0x00, 0x00, 0x00, 0x00, 0x00, 0x40, 0x00, 0x00, 0x00,
        0x00, 0x00,
    ];
    let u8_literal: [u8; 16] = [
        0x10, 0x00, 0x00, 0x00, 0x01, 0x00, 0x00, 0x00, 0x00, 0x00, 0x08, 0x00, 0x00, 0x00,
        0x00, 0x00,
    ];
    let vlen_literal: [u8; 16] = [
        0x19, 0x01, 0x00, 0x00, 0x10, 0x00, 0x00, 0x00, 0x13, 0x10, 0x00, 0x00, 0x01, 0x00,
        0x00, 0x00,
    ];

    assert_eq!(body_of(ElemType::F32), f32_literal, "F32");
    assert_eq!(body_of(ElemType::F64), f64_literal, "F64");
    assert_eq!(body_of(ElemType::I32), i32_literal, "I32");
    assert_eq!(body_of(ElemType::I64), i64_literal, "I64");
    assert_eq!(body_of(ElemType::U8), u8_literal, "U8");
    assert_eq!(body_of(ElemType::VlenStr), vlen_literal, "VlenStr");
}

#[test]
fn all_lists_every_variant_exactly_once() {
    for elem_type in ElemType::ALL {
        match elem_type {
            ElemType::F32
            | ElemType::F64
            | ElemType::I8
            | ElemType::I16
            | ElemType::I32
            | ElemType::I64
            | ElemType::U8
            | ElemType::U16
            | ElemType::U32
            | ElemType::U64
            | ElemType::VlenStr => {}
        }
    }
    for (i, a) in ElemType::ALL.iter().enumerate() {
        for b in &ElemType::ALL[i + 1..] {
            assert_ne!(a, b, "{a:?} appears twice in ElemType::ALL");
        }
    }
}

#[test]
fn new_int_dtype_bodies_carry_class_size_and_precision() {
    let cases: [(ElemType, u16, bool); 5] = [
        (ElemType::I8, 1, true),
        (ElemType::I16, 2, true),
        (ElemType::U16, 2, false),
        (ElemType::U32, 4, false),
        (ElemType::U64, 8, false),
    ];
    for (elem_type, size, signed) in cases {
        let body = body_of(elem_type);
        assert_eq!(body.len(), FIXED_DT_BODY, "{elem_type:?}: body size");
        assert_eq!(body[0] & 0x0F, 0, "{elem_type:?}: class must be 0");
        assert_eq!(body[0] >> 4, 1, "{elem_type:?}: version must be 1");
        assert_eq!(body[1] & 0x01, 0, "{elem_type:?}: must be little-endian");
        assert_eq!(body[1] & 0x08 != 0, signed, "{elem_type:?}: sign flag");
        assert_eq!(
            u32::from_le_bytes([body[4], body[5], body[6], body[7]]),
            u32::from(size),
            "{elem_type:?}: element size"
        );
        assert_eq!(
            u16::from_le_bytes([body[8], body[9]]),
            0,
            "{elem_type:?}: bit offset"
        );
        assert_eq!(
            u16::from_le_bytes([body[10], body[11]]),
            size * 8,
            "{elem_type:?}: bit precision"
        );
    }
}

#[test]
fn every_dtype_body_parses_back_through_the_reader() {
    let le = ByteOrder::Little;
    let int = |size, signed| Dtype::Int {
        size,
        signed,
        order: le,
    };
    let expected: [(ElemType, Dtype); 11] = [
        (ElemType::F32, Dtype::Float { size: 4, order: le }),
        (ElemType::F64, Dtype::Float { size: 8, order: le }),
        (ElemType::I8, int(1, true)),
        (ElemType::I16, int(2, true)),
        (ElemType::I32, int(4, true)),
        (ElemType::I64, int(8, true)),
        (ElemType::U8, int(1, false)),
        (ElemType::U16, int(2, false)),
        (ElemType::U32, int(4, false)),
        (ElemType::U64, int(8, false)),
        (
            ElemType::VlenStr,
            Dtype::String {
                fixed_len: None,
                charset: Charset::Utf8,
            },
        ),
    ];
    assert_eq!(
        expected.len(),
        ElemType::ALL.len(),
        "every ElemType must be covered here"
    );

    for (elem_type, want) in expected {
        let body = body_of(elem_type);
        let got = parse_datatype(&body).unwrap_or_else(|e| {
            panic!("{elem_type:?}: the reader rejected the writer's own bytes: {e:?}")
        });
        assert_eq!(got, want, "{elem_type:?}");

        // Variable-length strings are not chosen by a datatype.
        if elem_type != ElemType::VlenStr {
            assert_eq!(
                dtype_to_elem_type(&got).expect("dtype_to_elem_type"),
                elem_type,
                "{elem_type:?}: round trip"
            );
        }
    }
}

#[test]
fn attr_dtype_bodies_match_the_historic_literals() {
    let cases: [(ResolvedAttrKind<'_>, &[u8]); 4] = [
        (
            ResolvedAttrKind::F64(0.0f64.to_bits()),
            &[
                0x11, 0x20, 0x3f, 0x00, 0x08, 0x00, 0x00, 0x00, 0x00, 0x00, 0x40, 0x00, 0x34,
                0x0b, 0x00, 0x34, 0xff, 0x03, 0x00, 0x00, 0x00, 0x00, 0x00, 0x00,
            ],
        ),
        (
            ResolvedAttrKind::I64(0),
            &[
                0x10, 0x08, 0x00, 0x00, 0x08, 0x00, 0x00, 0x00, 0x00, 0x00, 0x40, 0x00, 0x00,
                0x00, 0x00, 0x00,
            ],
        ),
        (
            ResolvedAttrKind::I32(0),
            &[
                0x10, 0x08, 0x00, 0x00, 0x04, 0x00, 0x00, 0x00, 0x00, 0x00, 0x20, 0x00, 0x00,
                0x00, 0x00, 0x00,
            ],
        ),
        (
            ResolvedAttrKind::FixedStr("abc"),
            &[0x13, 0x10, 0x00, 0x00, 0x03, 0x00, 0x00, 0x00],
        ),
    ];
    for (kind, expected) in cases {
        let attr = ResolvedAttr { name: "a", kind };
        let mut buf = vec![0u8; expected.len()];
        let wrote = attr.write_dtype_body(&mut buf, 0).expect("dtype body");
        assert_eq!(wrote, expected.len());
        assert_eq!(buf, expected);
    }

    // Object references: class 7, version 1, one 8-byte address.
    let attr = ResolvedAttr {
        name: "r",
        kind: ResolvedAttrKind::ObjRefs {
            names: &[],
            addrs: Vec::new(),
        },
    };
    let mut buf = vec![0u8; REF_DT_BODY];
    assert_eq!(attr.write_dtype_body(&mut buf, 0).expect("ref dtype"), 8);
    assert_eq!(buf, [0x17, 0x00, 0x00, 0x00, 0x08, 0x00, 0x00, 0x00]);
}

#[test]
fn byte_sizes_match_the_element_widths() {
    assert_eq!(ElemType::F32.byte_size(), 4);
    assert_eq!(ElemType::F64.byte_size(), 8);
    assert_eq!(ElemType::I8.byte_size(), 1);
    assert_eq!(ElemType::I16.byte_size(), 2);
    assert_eq!(ElemType::I32.byte_size(), 4);
    assert_eq!(ElemType::I64.byte_size(), 8);
    assert_eq!(ElemType::U8.byte_size(), 1);
    assert_eq!(ElemType::U16.byte_size(), 2);
    assert_eq!(ElemType::U32.byte_size(), 4);
    assert_eq!(ElemType::U64.byte_size(), 8);
    assert_eq!(ElemType::VlenStr.byte_size(), VLEN_REF_SIZE);
}

#[test]
fn dt_body_sizes_match_the_encoders() {
    for elem_type in ElemType::ALL {
        assert_eq!(
            body_of(elem_type).len(),
            elem_type.dt_body_size(),
            "{elem_type:?}"
        );
    }
}

#[test]
fn float_encoder_rejects_non_ieee_widths() {
    let mut buf = vec![0u8; FLOAT_DT_BODY];
    assert!(write_float_dtype(&mut buf, 0, 3).is_err());
    assert!(write_float_dtype(&mut buf, 0, 4).is_ok());
}

#[test]
fn attr_body_size_matches_bytes_written() {
    let names = vec!["lat".to_string(), "lon".to_string()];
    let cases = [
        ResolvedAttrKind::FixedStr("degrees_north"),
        ResolvedAttrKind::F64(2.5f64.to_bits()),
        ResolvedAttrKind::I64(i64::MIN),
        ResolvedAttrKind::I32(-7),
        ResolvedAttrKind::ObjRefs {
            names: &names,
            addrs: vec![1, 2],
        },
    ];
    for kind in cases {
        let attr = ResolvedAttr {
            name: "an_attribute",
            kind,
        };
        let expected = attr.body_size();
        let mut buf = vec![0u8; expected + 64];
        assert_eq!(attr.write_body(&mut buf, 0).expect("write_body"), expected);
    }
}

#[test]
fn obj_refs_keep_their_length_through_resolution() {
    let descs = vec![AttrDesc {
        name: "DIMENSION_LIST".to_string(),
        kind: AttrKind::ObjRefsByName(vec!["lat".to_string(), "grp/lon".to_string()]),
    }];
    let mut resolved = resolve_attrs(&descs);
    let before = resolved[0].body_size();

    let mut map = AddressMap::new();
    map.insert("lat".to_string(), 0x1234);
    map.insert("grp/lon".to_string(), 0x5678);
    fill_obj_refs(&mut resolved, &map).expect("both targets exist");

    assert_eq!(resolved[0].body_size(), before, "sizing must be stable");
    match &resolved[0].kind {
        ResolvedAttrKind::ObjRefs { addrs, .. } => {
            assert_eq!(addrs, &[0x1234, 0x5678]);
        }
        _ => panic!("expected ObjRefs"),
    }
}

#[test]
fn an_unresolvable_obj_ref_is_reported_not_silently_undefined() {
    let descs = vec![AttrDesc {
        name: "DIMENSION_LIST".to_string(),
        kind: AttrKind::ObjRefsByName(vec!["lat".to_string(), "typo".to_string()]),
    }];
    let mut resolved = resolve_attrs(&descs);
    let mut map = AddressMap::new();
    map.insert("lat".to_string(), 0x1234);

    let err = fill_obj_refs(&mut resolved, &map).expect_err("must refuse");
    let msg = err.message();
    assert!(msg.contains("'typo'"), "must name the target: {msg}");
    assert!(msg.contains("DIMENSION_LIST"), "must name the attr: {msg}");
}

#[test]
fn obj_ref_targets_may_be_written_absolutely() {
    let descs = vec![AttrDesc {
        name: "refs".to_string(),
        kind: AttrKind::ObjRefsByName(vec!["/a/b/x".to_string()]),
    }];
    let mut resolved = resolve_attrs(&descs);
    let mut map = AddressMap::new();
    map.insert("a/b/x".to_string(), 0x99);
    fill_obj_refs(&mut resolved, &map).expect("absolute target");
    match &resolved[0].kind {
        ResolvedAttrKind::ObjRefs { addrs, .. } => assert_eq!(addrs, &[0x99]),
        _ => panic!("expected ObjRefs"),
    }
}

#[test]
fn array_attr_body_sizes_match_bytes_written() {
    let strings: Vec<String> = ["a", "", "much longer entry"]
        .iter()
        .map(|s| (*s).to_string())
        .collect();
    let empty: Vec<String> = Vec::new();
    let floats = [1.5f64.to_bits(), (-2.5f64).to_bits(), f64::NAN.to_bits()];
    let ints = [i64::MIN, 0, i64::MAX];

    let cases = [
        ResolvedAttrKind::F64Array(&floats),
        ResolvedAttrKind::F64Array(&[]),
        ResolvedAttrKind::I64Array(&ints),
        ResolvedAttrKind::I64Array(&[]),
        ResolvedAttrKind::StrArray {
            values: &strings,
            width: str_array_width(&strings),
        },
        ResolvedAttrKind::StrArray {
            values: &empty,
            width: str_array_width(&empty),
        },
    ];
    for kind in cases {
        let attr = ResolvedAttr {
            name: "an_array",
            kind,
        };
        let expected = attr.body_size();
        let mut buf = vec![0u8; expected + 64];
        assert_eq!(attr.write_body(&mut buf, 0).expect("write_body"), expected);
    }
}

#[test]
fn string_arrays_are_nul_padded_to_a_common_width() {
    assert_eq!(str_array_width(&["ab".to_string(), "cdef".to_string()]), 4);
    // A zero-byte string type is not representable, so all-empty is 1.
    assert_eq!(str_array_width(&[String::new(), String::new()]), 1);
    assert_eq!(str_array_width(&[]), 1);

    let values: Vec<String> = ["ab", "cdef", ""]
        .iter()
        .map(|s| (*s).to_string())
        .collect();
    let attr = ResolvedAttr {
        name: "labels",
        kind: ResolvedAttrKind::StrArray {
            values: &values,
            width: 4,
        },
    };
    let total = attr.body_size();
    let mut buf = vec![0xAAu8; total];
    attr.write_body(&mut buf, 0).expect("write_body");
    let data = &buf[total - 12..];
    assert_eq!(data, b"ab\0\0cdef\0\0\0\0");
}

#[test]
fn vector_len_decides_the_dataspace_shape() {
    let values = [1.0f64.to_bits()];
    let strings = ["x".to_string()];
    assert_eq!(ResolvedAttrKind::F64(1.0f64.to_bits()).vector_len(), None);
    assert_eq!(ResolvedAttrKind::I64(1).vector_len(), None);
    assert_eq!(ResolvedAttrKind::I32(1).vector_len(), None);
    assert_eq!(ResolvedAttrKind::FixedStr("x").vector_len(), None);
    assert_eq!(ResolvedAttrKind::F64Array(&values).vector_len(), Some(1));
    assert_eq!(ResolvedAttrKind::I64Array(&[7]).vector_len(), Some(1));
    assert_eq!(
        ResolvedAttrKind::StrArray {
            values: &strings,
            width: 1
        }
        .vector_len(),
        Some(1)
    );

    for kind in [
        ResolvedAttrKind::F64(1.0f64.to_bits()),
        ResolvedAttrKind::F64Array(&values),
    ] {
        let want = match kind.vector_len() {
            None => SCALAR_DSPACE_BODY,
            Some(_) => VECTOR_DSPACE_BODY,
        };
        assert_eq!(kind.sizes().dspace, want);
    }
}

#[test]
fn array_datatypes_match_their_scalar_counterparts() {
    let floats = [0.0f64.to_bits()];
    let ints = [0i64];
    let pairs = [
        (
            ResolvedAttrKind::F64(0.0f64.to_bits()),
            ResolvedAttrKind::F64Array(&floats),
        ),
        (ResolvedAttrKind::I64(0), ResolvedAttrKind::I64Array(&ints)),
    ];
    for (scalar, array) in pairs {
        let mut a = vec![0u8; 32];
        let mut b = vec![0u8; 32];
        let scalar_attr = ResolvedAttr {
            name: "s",
            kind: scalar,
        };
        let array_attr = ResolvedAttr {
            name: "a",
            kind: array,
        };
        let n = scalar_attr.write_dtype_body(&mut a, 0).expect("scalar");
        let m = array_attr.write_dtype_body(&mut b, 0).expect("array");
        assert_eq!(n, m);
        assert_eq!(a, b);
    }
}

#[test]
fn dtype_mapping_covers_the_writable_set() {
    let le = ByteOrder::Little;
    let int = |size, signed| Dtype::Int {
        size,
        signed,
        order: le,
    };
    let cases: [(Dtype, ElemType); 10] = [
        (Dtype::Float { size: 4, order: le }, ElemType::F32),
        (Dtype::Float { size: 8, order: le }, ElemType::F64),
        (int(1, true), ElemType::I8),
        (int(2, true), ElemType::I16),
        (int(4, true), ElemType::I32),
        (int(8, true), ElemType::I64),
        (int(1, false), ElemType::U8),
        (int(2, false), ElemType::U16),
        (int(4, false), ElemType::U32),
        (int(8, false), ElemType::U64),
    ];
    for (dtype, want) in cases {
        assert_eq!(
            dtype_to_elem_type(&dtype).unwrap_or_else(|e| panic!("{dtype:?}: {e:?}")),
            want
        );
    }

    // Widths the writer has no encoding for stay rejected.
    assert!(dtype_to_elem_type(&Dtype::Float { size: 2, order: le }).is_err());
    assert!(dtype_to_elem_type(&int(3, true)).is_err());
    assert!(dtype_to_elem_type(&Dtype::Reference {
        ref_type: RefType::Object
    })
    .is_err());
}

#[test]
fn big_endian_dtypes_are_rejected() {
    let be = ByteOrder::Big;
    let candidates = [
        Dtype::Float { size: 4, order: be },
        Dtype::Float { size: 8, order: be },
        Dtype::Int {
            size: 4,
            signed: true,
            order: be,
        },
        Dtype::Int {
            size: 2,
            signed: false,
            order: be,
        },
        Dtype::Int {
            size: 8,
            signed: false,
            order: be,
        },
    ];
    for dtype in candidates {
        let err = dtype_to_elem_type(&dtype)
            .expect_err("big-endian must not be silently written as little-endian");
        let msg = err.message();
        assert!(
            msg.contains("big-endian"),
            "{dtype:?}: error should name big-endian, got {msg:?}"
        );
    }

    // The little-endian twin of each rejected dtype is still accepted, so
    // the guard rejects the byte order and not the type.
    let le = ByteOrder::Little;
    assert!(dtype_to_elem_type(&Dtype::Float { size: 4, order: le }).is_ok());
    assert!(dtype_to_elem_type(&Dtype::Int {
        size: 2,
        signed: false,
        order: le
    })
    .is_ok());
}
