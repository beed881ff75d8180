//! Attributes with access to the file that they come from.
//!
//! An attribute by itself holds bytes, a type and an extent. Variable-length
//! values are references into the file's global heaps, so reading those takes the
//! file as well.

use vstd::prelude::*;
use vstd::slice::{slice_subrange, slice_to_vec};
use crate::bytes::{lemma_pow256_values, twos_complement};
use crate::dataset::{decode_strings, fixed_strings};
use crate::dims::{exact_total64, ints64, lemma_product_non_negative, product};
use crate::dtype::{
    exact_extent, extent_of, lemma_compound_model, views, Dtype, DtypeModel, ElemSize, RefType,
};
use crate::error::{outcome, outcomes, ErrorKind, OxiH5Error};
use crate::float::Float;
use crate::object::{Attribute, AttributeModel, Dataspace, DataspaceModel};
use crate::values::{
    compounds_in, decode_compound, decode_object_refs, decode_text, decode_vlen_sequences,
    decode_vlen_strings, file_heaps, is_word_size, object_refs_in, read_uint, sequences_in,
    text_in, uint_in, vlen_strings_in, Heaps, Value, ValueModel,
};

verus! {

/// The number of elements in a dataspace.
pub open spec fn count_in(space: DataspaceModel) -> nat {
    match space {
        DataspaceModel::Scalar => 1,
        DataspaceModel::Null => 0,
        DataspaceModel::Simple { dims, .. } => product(ints64(dims)) as nat,
    }
}

/// Whether a dataspace is that of one value: a scalar, or a simple one of a single
/// element.
pub open spec fn is_single(space: DataspaceModel) -> bool {
    !(space is Null) && count_in(space) == 1
}

/// The integer that a scalar attribute of an integer type holds.
pub open spec fn scalar_int(attr: AttributeModel) -> Option<int> {
    match attr.dtype {
        DtypeModel::Int { size, signed, order } => {
            if is_single(attr.dataspace) && is_word_size(size) && attr.data.len() >= size {
                let v = uint_in(attr.data, size, order);
                Some(
                    if signed {
                        twos_complement(v, size)
                    } else {
                        v as int
                    },
                )
            } else {
                None
            }
        },
        _ => None,
    }
}

/// The text of a fixed-length string attribute, up to its first zero byte.
pub open spec fn fixed_text(attr: AttributeModel) -> Option<Seq<char>> {
    match attr.dtype {
        DtypeModel::String { fixed_len: Some(n), .. } => {
            if attr.data.len() < n {
                None
            } else {
                match text_in(attr.data.subrange(0, n as int)) {
                    Ok(chars) => Some(chars),
                    Err(_) => None,
                }
            }
        },
        _ => None,
    }
}

/// The number that a scalar attribute of a single- or double-precision type holds.
pub open spec fn scalar_float(attr: AttributeModel) -> Option<Float> {
    match attr.dtype {
        DtypeModel::Float { size, order } => {
            if !is_single(attr.dataspace) || attr.data.len() < size {
                None
            } else if size == 4 {
                Some(Float::Single(uint_in(attr.data, 4, order) as u32))
            } else if size == 8 {
                Some(Float::Double(uint_in(attr.data, 8, order) as u64))
            } else {
                None
            }
        },
        _ => None,
    }
}

/// The strings that an attribute holds, fixed-length or variable-length.
pub open spec fn attr_strings(heaps: Heaps, attr: AttributeModel) -> Result<
    Seq<Seq<char>>,
    ErrorKind,
> {
    match attr.dtype {
        DtypeModel::String { fixed_len: Some(n), .. } => if n == 0 {
            Ok(Seq::empty())
        } else {
            fixed_strings(attr.data, n)
        },
        DtypeModel::String { fixed_len: None, .. } => vlen_strings_in(
            heaps,
            attr.data,
            count_in(attr.dataspace),
        ),
        _ => Err(ErrorKind::TypeMismatch),
    }
}

/// The object references that an attribute holds.
pub open spec fn attr_object_refs(attr: AttributeModel) -> Result<Seq<u64>, ErrorKind> {
    match attr.dtype {
        DtypeModel::Reference { ref_type: RefType::Object } => object_refs_in(
            attr.data,
            count_in(attr.dataspace),
        ),
        _ => Err(ErrorKind::TypeMismatch),
    }
}

/// The compound values that an attribute holds.
pub open spec fn attr_compounds(heaps: Heaps, attr: AttributeModel) -> Result<
    Seq<ValueModel>,
    ErrorKind,
> {
    match attr.dtype {
        DtypeModel::Compound { fields } => compounds_in(
            heaps,
            attr.data,
            fields,
            count_in(attr.dataspace),
            0,
        ),
        _ => Err(ErrorKind::TypeMismatch),
    }
}

/// The variable-length sequences that an attribute holds.
pub open spec fn attr_sequences(heaps: Heaps, attr: AttributeModel) -> Result<
    Seq<ValueModel>,
    ErrorKind,
> {
    match attr.dtype {
        DtypeModel::VarLen { base } => sequences_in(
            heaps,
            attr.data,
            count_in(attr.dataspace),
            *base,
        ),
        _ => Err(ErrorKind::TypeMismatch),
    }
}

impl Dataspace {
    /// The number of elements, where it is a `usize`.
    fn count(&self) -> (r: Option<usize>)
        ensures
            match r {
                Some(n) => n == count_in(self@),
                None => count_in(self@) > usize::MAX,
            },
    {
        match self {
            Dataspace::Scalar => Some(1),
            Dataspace::Null => Some(0),
            Dataspace::Simple { dims, .. } => {
                proof {
                    lemma_product_non_negative(ints64(dims@));
                }
                exact_total64(dims)
            },
        }
    }
}

impl Attribute {
    /// Whether the attribute is a single value.
    pub fn is_scalar(&self) -> (r: bool)
        ensures
            r == is_single(self@.dataspace),
    {
        match &self.dataspace {
            Dataspace::Null => false,
            _ => match self.dataspace.count() {
                Some(n) => n == 1,
                None => false,
            },
        }
    }

    /// The extents of the attribute; none for a scalar.
    pub fn shape(&self) -> (r: Vec<u64>)
        ensures
            r@ == (match self@.dataspace {
                DataspaceModel::Simple { dims, .. } => dims,
                _ => Seq::empty(),
            }),
    {
        match &self.dataspace {
            Dataspace::Simple { dims, .. } => slice_to_vec(dims),
            _ => Vec::new(),
        }
    }

    /// The value of a scalar integer attribute, where it is an `i64`.
    pub fn as_i64(&self) -> (r: Option<i64>)
        ensures
            match scalar_int(self@) {
                Some(v) => if i64::MIN <= v <= i64::MAX {
                    r is Some && r->0 == v
                } else {
                    r is None
                },
                None => r is None,
            },
    {
        if let Dtype::Int { size, signed, order } = &self.dtype {
            if self.is_scalar() && self.data.len() >= *size {
                match *size {
                    1 | 2 | 4 | 8 => {
                        let v: u64 = read_uint(&self.data, *size, *order);
                        if *signed {
                            return Some(crate::bytes::to_signed(v, *size));
                        }
                        if v <= i64::MAX as u64 {
                            return Some(v as i64);
                        }
                    },
                    _ => {},
                }
            }
        }
        None
    }

    /// The value of a scalar attribute of an unsigned integer type.
    pub fn as_u64(&self) -> (r: Option<u64>)
        ensures
            if self@.dtype is Int && !self@.dtype->Int_signed && scalar_int(self@) is Some {
                r is Some && r->0 == scalar_int(self@)->0
            } else {
                r is None
            },
    {
        proof {
            lemma_pow256_values();
        }
        if let Dtype::Int { size, signed, order } = &self.dtype {
            if !*signed && self.is_scalar() && self.data.len() >= *size {
                match *size {
                    1 | 2 | 4 | 8 => {
                        return Some(read_uint(&self.data, *size, *order));
                    },
                    _ => {},
                }
            }
        }
        None
    }

    /// The value of a scalar attribute of a single- or double-precision type.
    pub fn as_f64(&self) -> (r: Option<Float>)
        ensures
            r == scalar_float(self@),
    {
        proof {
            lemma_pow256_values();
        }
        if let Dtype::Float { size, order } = &self.dtype {
            if self.is_scalar() && self.data.len() >= *size {
                match *size {
                    4 => {
                        return Some(Float::Single(read_uint(&self.data, 4, *order) as u32));
                    },
                    8 => {
                        return Some(Float::Double(read_uint(&self.data, 8, *order)));
                    },
                    _ => {},
                }
            }
        }
        None
    }

    /// The text of a fixed-length string attribute, up to its first zero byte.
    pub fn as_str_fixed(&self) -> (r: Option<String>)
        ensures
            match fixed_text(self@) {
                Some(chars) => r is Some && r->0@ == chars,
                None => r is None,
            },
    {
        if let Dtype::String { fixed_len: Some(n), .. } = &self.dtype {
            if self.data.len() >= *n {
                return match decode_text(slice_subrange(&self.data, 0, *n)) {
                    Ok(s) => Some(s),
                    Err(_) => None,
                };
            }
        }
        None
    }
}

/// An attribute together with the bytes of its file.
pub struct AttrView<'a> {
    pub attr: Attribute,
    pub file_data: &'a [u8],
}

impl<'a> AttrView<'a> {
    /// View `attr` as an attribute of the file `file_data`.
    pub fn new(attr: Attribute, file_data: &'a [u8]) -> (r: AttrView<'a>)
        ensures
            r.attr == attr,
            r.file_data == file_data,
    {
        AttrView { attr, file_data }
    }

    /// The attribute's name.
    pub fn name(&self) -> (r: &str)
        ensures
            r@ == self.attr@.name,
    {
        self.attr.name.as_str()
    }

    /// The attribute's datatype.
    pub fn dtype(&self) -> (r: &Dtype)
        ensures
            *r == self.attr.dtype,
    {
        &self.attr.dtype
    }

    /// Whether the attribute is a single value.
    pub fn is_scalar(&self) -> (r: bool)
        ensures
            r == is_single(self.attr@.dataspace),
    {
        self.attr.is_scalar()
    }

    /// The extents of the attribute; none for a scalar.
    pub fn shape(&self) -> (r: Vec<u64>)
        ensures
            r@ == (match self.attr@.dataspace {
                DataspaceModel::Simple { dims, .. } => dims,
                _ => Seq::empty(),
            }),
    {
        self.attr.shape()
    }

    /// The value of a scalar integer attribute, where it is an `i64`.
    pub fn as_i64(&self) -> (r: Option<i64>)
        ensures
            match scalar_int(self.attr@) {
                Some(v) => if i64::MIN <= v <= i64::MAX {
                    r is Some && r->0 == v
                } else {
                    r is None
                },
                None => r is None,
            },
    {
        self.attr.as_i64()
    }

    /// The value of a scalar attribute of an unsigned integer type.
    pub fn as_u64(&self) -> (r: Option<u64>)
        ensures
            if self.attr@.dtype is Int && !self.attr@.dtype->Int_signed && scalar_int(
                self.attr@,
            ) is Some {
                r is Some && r->0 == scalar_int(self.attr@)->0
            } else {
                r is None
            },
    {
        self.attr.as_u64()
    }

    /// The value of a scalar attribute of a single- or double-precision type.
    pub fn as_f64(&self) -> (r: Option<Float>)
        ensures
            r == scalar_float(self.attr@),
    {
        self.attr.as_f64()
    }

    /// The text of a fixed-length string attribute, up to its first zero byte.
    pub fn as_str_fixed(&self) -> (r: Option<String>)
        ensures
            match fixed_text(self.attr@) {
                Some(chars) => r is Some && r->0@ == chars,
                None => r is None,
            },
    {
        self.attr.as_str_fixed()
    }

    /// The strings that the attribute holds, fixed-length or variable-length.
    pub fn as_strings(&self) -> (r: Result<Vec<String>, OxiH5Error>)
        ensures
            outcomes(r) == attr_strings(file_heaps(self.file_data@), self.attr@),
    {
        match &self.attr.dtype {
            Dtype::String { fixed_len: Some(n), .. } => {
                if *n == 0 {
                    let none: Vec<String> = Vec::new();
                    proof {
                        assert(views(none@) =~= Seq::empty());
                    }
                    return Ok(none);
                }
                if self.attr.data.len() % *n != 0 {
                    return Err(OxiH5Error::DataTruncated);
                }
                decode_strings(&self.attr.data, *n)
            },
            Dtype::String { fixed_len: None, .. } => match self.n_elems() {
                Some(n) => decode_vlen_strings(self.file_data, &self.attr.data, n),
                None => {
                    assert(self.attr.data.len() <= usize::MAX);
                    Err(OxiH5Error::Format("vlen string buffer: too many elements".to_string()))
                },
            },
            _ => Err(OxiH5Error::TypeMismatch),
        }
    }

    /// The object references that the attribute holds; all ones where undefined.
    pub fn as_object_refs(&self) -> (r: Result<Vec<u64>, OxiH5Error>)
        ensures
            outcome(r) == attr_object_refs(self.attr@),
    {
        match &self.attr.dtype {
            Dtype::Reference { ref_type: RefType::Object } => match self.n_elems() {
                Some(n) => decode_object_refs(&self.attr.data, n),
                None => {
                    assert(self.attr.data.len() <= usize::MAX);
                    Err(OxiH5Error::Format("object refs buffer: too many elements".to_string()))
                },
            },
            _ => Err(OxiH5Error::TypeMismatch),
        }
    }

    /// The compound values that the attribute holds.
    pub fn as_compound(&self) -> (r: Result<Vec<Value>, OxiH5Error>)
        ensures
            outcomes(r) == attr_compounds(file_heaps(self.file_data@), self.attr@),
    {
        match &self.attr.dtype {
            Dtype::Compound { fields } => {
                proof {
                    lemma_compound_model(*fields);
                }
                match self.n_elems() {
                    Some(n) => decode_compound(self.file_data, &self.attr.data, fields, n, 0),
                    None => {
                        assert(self.attr.data.len() <= usize::MAX);
                        match exact_extent(fields) {
                            ElemSize::Variable => Err(
                                OxiH5Error::NotImplemented(
                                    "cannot compute stride: a field is variable-length".to_string(),
                                ),
                            ),
                            _ => {
                                proof {
                                    let n = count_in(self.attr@.dataspace);
                                    let s = extent_of(views(fields@))->0;
                                    assert(s > 0 ==> n * s >= n) by (nonlinear_arith);
                                }
                                Err(
                                    OxiH5Error::Format(
                                        "compound decode: too many elements".to_string(),
                                    ),
                                )
                            },
                        }
                    },
                }
            },
            _ => Err(OxiH5Error::TypeMismatch),
        }
    }

    /// The variable-length sequences that the attribute holds.
    pub fn as_vlen_sequence(&self) -> (r: Result<Vec<Value>, OxiH5Error>)
        ensures
            outcomes(r) == attr_sequences(file_heaps(self.file_data@), self.attr@),
    {
        match &self.attr.dtype {
            Dtype::VarLen { base } => match self.n_elems() {
                Some(n) => decode_vlen_sequences(self.file_data, &self.attr.data, n, base),
                None => {
                    assert(self.attr.data.len() <= usize::MAX);
                    Err(OxiH5Error::Format("vlen sequence buffer: too many elements".to_string()))
                },
            },
            _ => Err(OxiH5Error::TypeMismatch),
        }
    }

    fn n_elems(&self) -> (r: Option<usize>)
        ensures
            match r {
                Some(n) => n == count_in(self.attr@.dataspace),
                None => count_in(self.attr@.dataspace) > usize::MAX,
            },
    {
        self.attr.dataspace.count()
    }
}

} // verus!
