//! Element types and attributes as the writer encodes them.
//!
//! A datatype message body starts with the class and version in one byte, three
//! bytes of bit fields and the element size (4 bytes). Bit field 0 holds the byte
//! order in bit 0 and, for integers, the sign flag in bit 3. All types that can
//! be written are little-endian.

use vstd::prelude::*;
use vstd::string::*;
use crate::bytes::{
    le_bytes, lemma_le_bytes_len, push_all, push_le, push_zeros, put, put_bytes, zeros,
};
use crate::dtype::{ByteOrder, Dtype, DtypeModel};
use crate::error::{text, text_around, ErrorKind, OxiH5Error};

verus! {

/// Size of a reference to a variable-length value.
pub const VLEN_REF_SIZE: usize = 16;

/// Size of an integer type's body: 12 bytes in use and 4 of padding.
pub const FIXED_DT_BODY: usize = 16;

/// Size of a floating-point type's body: 20 bytes in use and 4 of padding.
pub const FLOAT_DT_BODY: usize = 24;

/// Size of a fixed-length string type's body.
pub const STRING_DT_BODY: usize = 8;

/// Size of an object reference type's body.
pub const REF_DT_BODY: usize = 8;

/// Size of a variable-length string type's body: its own and that of a character.
pub const VLEN_DT_BODY: usize = 16;

/// Size of a scalar attribute's dataspace body.
pub const SCALAR_DSPACE_BODY: usize = 8;

/// Size of the dataspace body of an attribute with one dimension.
pub const VECTOR_DSPACE_BODY: usize = 24;

/// Size of the fixed part of an attribute body.
pub const ATTR_BODY_PREFIX: usize = 8;

/// The address that stands for none.
pub const UNDEFINED_ADDR: u64 = u64::MAX;

/// Element type of a dataset that can be written.
#[derive(Debug, Clone, Copy, PartialEq, Eq, Structural)]
pub enum ElemType {
    /// IEEE 754 binary32.
    F32,
    /// IEEE 754 binary64.
    F64,
    I8,
    I16,
    I32,
    I64,
    U8,
    U16,
    U32,
    U64,
    /// Variable-length string; an element is a reference into a global heap.
    VlenStr,
}

/// How the elements of a type are encoded.
#[derive(Debug, Clone, Copy, PartialEq, Eq, Structural)]
pub enum ElemSpec {
    /// Integer of `size` bytes.
    Fixed { size: u8, signed: bool },
    /// IEEE 754 number of `size` bytes.
    FloatIeee { size: u8 },
    /// Reference to a variable-length string.
    VlenStr,
}

/// The encoding of an element type.
pub open spec fn encoding_of(e: ElemType) -> ElemSpec {
    match e {
        ElemType::F32 => ElemSpec::FloatIeee { size: 4 },
        ElemType::F64 => ElemSpec::FloatIeee { size: 8 },
        ElemType::I8 => ElemSpec::Fixed { size: 1, signed: true },
        ElemType::I16 => ElemSpec::Fixed { size: 2, signed: true },
        ElemType::I32 => ElemSpec::Fixed { size: 4, signed: true },
        ElemType::I64 => ElemSpec::Fixed { size: 8, signed: true },
        ElemType::U8 => ElemSpec::Fixed { size: 1, signed: false },
        ElemType::U16 => ElemSpec::Fixed { size: 2, signed: false },
        ElemType::U32 => ElemSpec::Fixed { size: 4, signed: false },
        ElemType::U64 => ElemSpec::Fixed { size: 8, signed: false },
        ElemType::VlenStr => ElemSpec::VlenStr,
    }
}

/// Bytes per element.
pub open spec fn byte_size_of(e: ElemType) -> nat {
    match encoding_of(e) {
        ElemSpec::Fixed { size, .. } => size as nat,
        ElemSpec::FloatIeee { size } => size as nat,
        ElemSpec::VlenStr => 16,
    }
}

/// Size of the datatype body.
pub open spec fn dt_body_size_of(e: ElemType) -> nat {
    match encoding_of(e) {
        ElemSpec::Fixed { .. } => 16,
        ElemSpec::FloatIeee { .. } => 24,
        ElemSpec::VlenStr => 16,
    }
}

impl ElemType {
    /// Every element type.
    pub const ALL: [ElemType; 11] = [
        ElemType::F32,
        ElemType::F64,
        ElemType::I8,
        ElemType::I16,
        ElemType::I32,
        ElemType::I64,
        ElemType::U8,
        ElemType::U16,
        ElemType::U32,
        ElemType::U64,
        ElemType::VlenStr,
    ];

    /// How the elements of the type are encoded.
    pub fn encoding(self) -> (r: ElemSpec)
        ensures
            r == encoding_of(self),
    {
        match self {
            ElemType::F32 => ElemSpec::FloatIeee { size: 4 },
            ElemType::F64 => ElemSpec::FloatIeee { size: 8 },
            ElemType::I8 => ElemSpec::Fixed { size: 1, signed: true },
            ElemType::I16 => ElemSpec::Fixed { size: 2, signed: true },
            ElemType::I32 => ElemSpec::Fixed { size: 4, signed: true },
            ElemType::I64 => ElemSpec::Fixed { size: 8, signed: true },
            ElemType::U8 => ElemSpec::Fixed { size: 1, signed: false },
            ElemType::U16 => ElemSpec::Fixed { size: 2, signed: false },
            ElemType::U32 => ElemSpec::Fixed { size: 4, signed: false },
            ElemType::U64 => ElemSpec::Fixed { size: 8, signed: false },
            ElemType::VlenStr => ElemSpec::VlenStr,
        }
    }

    /// Bytes per element in the file.
    pub fn byte_size(self) -> (r: usize)
        ensures
            r == byte_size_of(self),
    {
        match self.encoding() {
            ElemSpec::Fixed { size, .. } => size as usize,
            ElemSpec::FloatIeee { size } => size as usize,
            ElemSpec::VlenStr => VLEN_REF_SIZE,
        }
    }

    /// Size of the type's datatype message body.
    pub fn dt_body_size(self) -> (r: usize)
        ensures
            r == dt_body_size_of(self),
    {
        match self.encoding() {
            ElemSpec::Fixed { .. } => FIXED_DT_BODY,
            ElemSpec::FloatIeee { .. } => FLOAT_DT_BODY,
            ElemSpec::VlenStr => VLEN_DT_BODY,
        }
    }
}

/// Exponent bits of the IEEE 754 format of `size` bytes.
pub open spec fn exponent_bits(size: u8) -> Option<u8> {
    if size == 2 {
        Some(5)
    } else if size == 4 {
        Some(8)
    } else if size == 8 {
        Some(11)
    } else if size == 16 {
        Some(15)
    } else {
        None
    }
}

/// Exponent bits of the IEEE 754 format of `size` bytes, if there is one.
pub fn ieee_exp_bits(size: u8) -> (r: Option<u8>)
    ensures
        r == exponent_bits(size),
{
    match size {
        2 => Some(5),
        4 => Some(8),
        8 => Some(11),
        16 => Some(15),
        _ => None,
    }
}

/// An integer type's body: class 0, version 1; the sign flag; the size; the bit
/// offset 0 and the precision.
pub open spec fn fixed_image(size: u8, signed: bool) -> Seq<u8> {
    seq![
        0x10u8,
        if signed {
            8u8
        } else {
            0u8
        },
        0u8,
        0u8,
    ] + le_bytes(size as nat, 4) + zeros(2) + le_bytes(size as nat * 8, 2) + zeros(4)
}

/// A floating-point type's body: class 1, version 1; an implied leading bit and
/// the place of the sign bit; the size; the bit offset 0 and the precision; the
/// places and sizes of exponent and mantissa; the exponent bias.
pub open spec fn float_image(size: u8, exponent: u8) -> Seq<u8> {
    let precision = (size * 8) as u8;
    let mantissa = (precision - exponent - 1) as u8;
    seq![0x11u8, 0x20u8, (precision - 1) as u8, 0u8] + le_bytes(size as nat, 4) + zeros(2)
        + le_bytes(precision as nat, 2) + seq![mantissa, exponent, 0u8, mantissa] + le_bytes(
        exponent_bias(exponent),
        4,
    ) + zeros(4)
}

/// The bias of an exponent of that many bits.
pub open spec fn exponent_bias(bits: u8) -> nat {
    if bits == 5 {
        15
    } else if bits == 8 {
        127
    } else if bits == 11 {
        1023
    } else {
        16383
    }
}

/// A fixed-length string type's body: class 3, version 1; padded with zeros,
/// UTF-8; the length.
pub open spec fn string_image(len: nat) -> Seq<u8> {
    seq![0x13u8, 0x10u8, 0u8, 0u8] + le_bytes(len, 4)
}

/// An object reference type's body: class 7, version 1; 8 bytes.
pub open spec fn ref_image() -> Seq<u8> {
    seq![0x17u8, 0u8, 0u8, 0u8] + le_bytes(8, 4)
}

/// A variable-length string type's body: class 9, version 1; a string; the size of
/// a reference; then the type of one character.
pub open spec fn vlen_image() -> Seq<u8> {
    seq![0x19u8, 1u8, 0u8, 0u8] + le_bytes(16, 4) + string_image(1)
}

/// The datatype body of an element type.
pub open spec fn datatype_image(e: ElemType) -> Seq<u8> {
    match encoding_of(e) {
        ElemSpec::Fixed { size, signed } => fixed_image(size, signed),
        ElemSpec::FloatIeee { size } => float_image(size, exponent_bits(size)->0),
        ElemSpec::VlenStr => vlen_image(),
    }
}

/// A datatype body is as long as is set aside for it.
pub proof fn lemma_image_lens(len: nat)
    ensures
        forall|size: u8, signed: bool| #[trigger] fixed_image(size, signed).len() == 16,
        forall|size: u8, exponent: u8| #[trigger] float_image(size, exponent).len() == 24,
        string_image(len).len() == 8,
        ref_image().len() == 8,
        vlen_image().len() == 16,
{
    assert forall|size: u8, signed: bool| #[trigger] fixed_image(size, signed).len() == 16 by {
        lemma_le_bytes_len(size as nat, 4);
        lemma_le_bytes_len(size as nat * 8, 2);
    }
    assert forall|size: u8, exponent: u8| #[trigger] float_image(size, exponent).len() == 24 by {
        let precision = (size * 8) as u8;
        lemma_le_bytes_len(size as nat, 4);
        lemma_le_bytes_len(precision as nat, 2);
        lemma_le_bytes_len(exponent_bias(exponent), 4);
    }
    lemma_le_bytes_len(len, 4);
    lemma_le_bytes_len(1, 4);
    lemma_le_bytes_len(8, 4);
    lemma_le_bytes_len(16, 4);
}

/// The datatype body of every element type is as long as is set aside for it.
pub proof fn law_datatype_body_size(e: ElemType)
    ensures
        datatype_image(e).len() == dt_body_size_of(e),
{
    lemma_image_lens(1);
}

fn fixed_bytes(size: u8, signed: bool) -> (r: Vec<u8>)
    ensures
        r@ == fixed_image(size, signed),
{
    let mut body: Vec<u8> = Vec::new();
    body.push(0x10);
    body.push(
        if signed {
            8
        } else {
            0
        },
    );
    body.push(0);
    body.push(0);
    push_le(&mut body, size as u64, 4);
    push_zeros(&mut body, 2);
    push_le(&mut body, size as u64 * 8, 2);
    push_zeros(&mut body, 4);
    proof {
        assert(body@ =~= fixed_image(size, signed));
    }
    body
}

fn float_bytes(size: u8, exponent: u8) -> (r: Vec<u8>)
    requires
        exponent_bits(size) == Some(exponent),
    ensures
        r@ == float_image(size, exponent),
{
    let precision: u8 = size * 8;
    let mantissa: u8 = precision - exponent - 1;
    let bias: u64 = match exponent {
        5 => 15,
        8 => 127,
        11 => 1023,
        _ => 16383,
    };
    let mut body: Vec<u8> = Vec::new();
    body.push(0x11);
    body.push(0x20);
    body.push(precision - 1);
    body.push(0);
    push_le(&mut body, size as u64, 4);
    push_zeros(&mut body, 2);
    push_le(&mut body, precision as u64, 2);
    body.push(mantissa);
    body.push(exponent);
    body.push(0);
    body.push(mantissa);
    push_le(&mut body, bias, 4);
    push_zeros(&mut body, 4);
    proof {
        assert(body@ =~= float_image(size, exponent));
    }
    body
}

fn string_bytes(len: u32) -> (r: Vec<u8>)
    ensures
        r@ == string_image(len as nat),
{
    let mut body: Vec<u8> = Vec::new();
    body.push(0x13);
    body.push(0x10);
    body.push(0);
    body.push(0);
    push_le(&mut body, len as u64, 4);
    proof {
        assert(body@ =~= string_image(len as nat));
    }
    body
}

fn ref_bytes() -> (r: Vec<u8>)
    ensures
        r@ == ref_image(),
{
    let mut body: Vec<u8> = Vec::new();
    body.push(0x17);
    body.push(0);
    body.push(0);
    body.push(0);
    push_le(&mut body, 8, 4);
    proof {
        assert(body@ =~= ref_image());
    }
    body
}

fn vlen_bytes() -> (r: Vec<u8>)
    ensures
        r@ == vlen_image(),
{
    let mut body: Vec<u8> = Vec::new();
    body.push(0x19);
    body.push(1);
    body.push(0);
    body.push(0);
    push_le(&mut body, 16, 4);
    let base: Vec<u8> = string_bytes(1);
    push_all(&mut body, &base);
    proof {
        assert(body@ =~= vlen_image());
    }
    body
}

/// The datatype body of an element type.
pub fn datatype_bytes(e: ElemType) -> (r: Vec<u8>)
    ensures
        r@ == datatype_image(e),
{
    match e.encoding() {
        ElemSpec::Fixed { size, signed } => fixed_bytes(size, signed),
        ElemSpec::FloatIeee { size } => {
            let exponent: u8 = if size == 4 {
                8
            } else {
                11
            };
            float_bytes(size, exponent)
        },
        ElemSpec::VlenStr => vlen_bytes(),
    }
}

/// Write an integer type's body; returns the number of bytes.
pub fn write_fixed_dtype(buf: &mut Vec<u8>, start: usize, size: u8, signed: bool) -> (r: usize)
    requires
        start + 16 <= old(buf)@.len(),
    ensures
        r == 16,
        final(buf)@ == put(old(buf)@, start as int, fixed_image(size, signed)),
{
    proof {
        lemma_image_lens(0);
    }
    let body: Vec<u8> = fixed_bytes(size, signed);
    put_bytes(buf, start, &body);
    FIXED_DT_BODY
}

/// Write a floating-point type's body; returns the number of bytes, or an error if
/// there is no IEEE 754 format of `size` bytes.
pub fn write_float_dtype(buf: &mut Vec<u8>, start: usize, size: u8) -> (r: Result<
    usize,
    OxiH5Error,
>)
    requires
        start + 24 <= old(buf)@.len(),
    ensures
        match exponent_bits(size) {
            Some(exponent) => {
                &&& r == Ok::<usize, OxiH5Error>(24)
                &&& final(buf)@ == put(old(buf)@, start as int, float_image(size, exponent))
            },
            None => {
                &&& r is Err
                &&& r->Err_0@ == ErrorKind::Format
                &&& final(buf)@ == old(buf)@
            },
        },
{
    proof {
        lemma_image_lens(0);
    }
    match ieee_exp_bits(size) {
        Some(exponent) => {
            let body: Vec<u8> = float_bytes(size, exponent);
            put_bytes(buf, start, &body);
            Ok(FLOAT_DT_BODY)
        },
        None => Err(
            OxiH5Error::Format(
                text(
                    &[
                        "internal writer error: no IEEE-754 layout for a ",
                        &size.to_string(),
                        "-byte float",
                    ],
                ),
            ),
        ),
    }
}

/// Write a fixed-length string type's body; returns the number of bytes.
pub fn write_string_dtype(buf: &mut Vec<u8>, start: usize, len: u32) -> (r: usize)
    requires
        start + 8 <= old(buf)@.len(),
    ensures
        r == 8,
        final(buf)@ == put(old(buf)@, start as int, string_image(len as nat)),
{
    proof {
        lemma_image_lens(len as nat);
    }
    let body: Vec<u8> = string_bytes(len);
    put_bytes(buf, start, &body);
    STRING_DT_BODY
}

/// Write an object reference type's body; returns the number of bytes.
pub fn write_ref_dtype(buf: &mut Vec<u8>, start: usize) -> (r: usize)
    requires
        start + 8 <= old(buf)@.len(),
    ensures
        r == 8,
        final(buf)@ == put(old(buf)@, start as int, ref_image()),
{
    proof {
        lemma_image_lens(0);
    }
    let body: Vec<u8> = ref_bytes();
    put_bytes(buf, start, &body);
    REF_DT_BODY
}

/// Write a variable-length string type's body; returns the number of bytes.
pub fn write_vlen_str_dtype(buf: &mut Vec<u8>, start: usize) -> (r: usize)
    requires
        start + 16 <= old(buf)@.len(),
    ensures
        r == 16,
        final(buf)@ == put(old(buf)@, start as int, vlen_image()),
{
    proof {
        lemma_image_lens(0);
    }
    let body: Vec<u8> = vlen_bytes();
    put_bytes(buf, start, &body);
    VLEN_DT_BODY
}

/// Write the datatype body of an element type; returns the number of bytes.
pub fn write_datatype_body(buf: &mut Vec<u8>, start: usize, elem_type: ElemType) -> (r: Result<
    usize,
    OxiH5Error,
>)
    requires
        start + dt_body_size_of(elem_type) <= old(buf)@.len(),
    ensures
        r is Ok,
        r->Ok_0 == dt_body_size_of(elem_type),
        final(buf)@ == put(old(buf)@, start as int, datatype_image(elem_type)),
{
    match elem_type.encoding() {
        ElemSpec::Fixed { size, signed } => Ok(write_fixed_dtype(buf, start, size, signed)),
        ElemSpec::FloatIeee { size } => write_float_dtype(buf, start, size),
        ElemSpec::VlenStr => Ok(write_vlen_str_dtype(buf, start)),
    }
}

/// The element type for a datatype, if the writer has one.
pub open spec fn elem_type_of(m: DtypeModel) -> Option<ElemType> {
    match m {
        DtypeModel::Float { size, order: ByteOrder::Little } => if size == 4 {
            Some(ElemType::F32)
        } else if size == 8 {
            Some(ElemType::F64)
        } else {
            None
        },
        DtypeModel::Int { size, signed, order: ByteOrder::Little } => if size == 1 {
            Some(
                if signed {
                    ElemType::I8
                } else {
                    ElemType::U8
                },
            )
        } else if size == 2 {
            Some(
                if signed {
                    ElemType::I16
                } else {
                    ElemType::U16
                },
            )
        } else if size == 4 {
            Some(
                if signed {
                    ElemType::I32
                } else {
                    ElemType::U32
                },
            )
        } else if size == 8 {
            Some(
                if signed {
                    ElemType::I64
                } else {
                    ElemType::U64
                },
            )
        } else {
            None
        },
        _ => None,
    }
}

/// The datatype that an element type is written as.
pub open spec fn dtype_of(e: ElemType) -> DtypeModel {
    match encoding_of(e) {
        ElemSpec::Fixed { size, signed } => DtypeModel::Int {
            size: size as nat,
            signed,
            order: ByteOrder::Little,
        },
        ElemSpec::FloatIeee { size } => DtypeModel::Float {
            size: size as nat,
            order: ByteOrder::Little,
        },
        ElemSpec::VlenStr => DtypeModel::String {
            fixed_len: None,
            charset: crate::dtype::Charset::Utf8,
        },
    }
}

/// Choosing the element type for a type that can be written loses nothing.
pub proof fn law_elem_type_round_trip(e: ElemType)
    requires
        e != ElemType::VlenStr,
    ensures
        elem_type_of(dtype_of(e)) == Some(e),
{
}

/// Whether a datatype is a number with its most significant byte first.
pub open spec fn is_big_endian(m: DtypeModel) -> bool {
    match m {
        DtypeModel::Int { order, .. } => order == ByteOrder::Big,
        DtypeModel::Float { order, .. } => order == ByteOrder::Big,
        _ => false,
    }
}

/// Choose the element type for a datatype.
///
/// Elements are written as they are given, least significant byte first; a
/// big-endian type is refused, since its elements would read back wrong, and the error
/// says so.
pub fn dtype_to_elem_type(dtype: &Dtype) -> (r: Result<ElemType, OxiH5Error>)
    ensures
        match elem_type_of(dtype@) {
            Some(e) => r == Ok::<ElemType, OxiH5Error>(e),
            None => r is Err && r->Err_0@ == ErrorKind::Format,
        },
        is_big_endian(dtype@) ==> r is Err && r->Err_0.says("big-endian"@),
{
    match dtype {
        Dtype::Int { order: ByteOrder::Big, .. } | Dtype::Float { order: ByteOrder::Big, .. } => {
            Err(
                OxiH5Error::Format(
                    text_around(
                        &[
                            "unsupported dtype ",
                            dtype.describe().as_str(),
                            ": the writer emits little-endian only, ",
                        ],
                        "big-endian",
                        &[" is not supported"],
                    ),
                ),
            )
        },
        Dtype::Float { size: 4, .. } => Ok(ElemType::F32),
        Dtype::Float { size: 8, .. } => Ok(ElemType::F64),
        Dtype::Int { size: 1, signed: true, .. } => Ok(ElemType::I8),
        Dtype::Int { size: 2, signed: true, .. } => Ok(ElemType::I16),
        Dtype::Int { size: 4, signed: true, .. } => Ok(ElemType::I32),
        Dtype::Int { size: 8, signed: true, .. } => Ok(ElemType::I64),
        Dtype::Int { size: 1, signed: false, .. } => Ok(ElemType::U8),
        Dtype::Int { size: 2, signed: false, .. } => Ok(ElemType::U16),
        Dtype::Int { size: 4, signed: false, .. } => Ok(ElemType::U32),
        Dtype::Int { size: 8, signed: false, .. } => Ok(ElemType::U64),
        _ => Err(
            OxiH5Error::Format(text(&["unsupported dtype ", dtype.describe().as_str()])),
        ),
    }
}

} // verus!
