//! Texts for people: errors and datatypes in words.

use vstd::prelude::*;
use vstd::string::StringExecFns;
use crate::dims::ints;
use crate::dtype::{
    lemma_compound_model, views, ByteOrder, Charset, Dtype, DtypeModel, FieldModel, RefType,
};
use crate::error::OxiH5Error;

verus! {

/// The character of a decimal digit.
pub open spec fn digit_char(d: nat) -> Seq<char> {
    if d == 0 {
        "0"@
    } else if d == 1 {
        "1"@
    } else if d == 2 {
        "2"@
    } else if d == 3 {
        "3"@
    } else if d == 4 {
        "4"@
    } else if d == 5 {
        "5"@
    } else if d == 6 {
        "6"@
    } else if d == 7 {
        "7"@
    } else if d == 8 {
        "8"@
    } else {
        "9"@
    }
}

/// A number in decimal digits.
pub open spec fn decimal_text(n: nat) -> Seq<char>
    decreases n,
{
    if n < 10 {
        digit_char(n)
    } else {
        decimal_text(n / 10) + digit_char(n % 10)
    }
}

fn digit(d: u128) -> (r: &'static str)
    requires
        d < 10,
    ensures
        r@ == digit_char(d as nat),
{
    match d {
        0 => "0",
        1 => "1",
        2 => "2",
        3 => "3",
        4 => "4",
        5 => "5",
        6 => "6",
        7 => "7",
        8 => "8",
        _ => "9",
    }
}

/// Write a number in decimal digits.
pub fn decimal(n: u128) -> (r: String)
    ensures
        r@ == decimal_text(n as nat),
    decreases n,
{
    if n < 10 {
        digit(n).to_string()
    } else {
        let mut s: String = decimal(n / 10);
        s.append(digit(n % 10));
        s
    }
}

/// A hexadecimal digit.
pub open spec fn hex_char(d: nat) -> Seq<char> {
    if d < 10 {
        digit_char(d)
    } else if d == 10 {
        "a"@
    } else if d == 11 {
        "b"@
    } else if d == 12 {
        "c"@
    } else if d == 13 {
        "d"@
    } else if d == 14 {
        "e"@
    } else {
        "f"@
    }
}

/// A number in hexadecimal digits.
pub open spec fn hex_text(n: nat) -> Seq<char>
    decreases n,
{
    if n < 16 {
        hex_char(n)
    } else {
        hex_text(n / 16) + hex_char(n % 16)
    }
}

fn hex_digit(d: u64) -> (r: &'static str)
    requires
        d < 16,
    ensures
        r@ == hex_char(d as nat),
{
    match d {
        10 => "a",
        11 => "b",
        12 => "c",
        13 => "d",
        14 => "e",
        15 => "f",
        _ => digit(d as u128),
    }
}

/// Write a number in hexadecimal digits.
pub fn hex(n: u64) -> (r: String)
    ensures
        r@ == hex_text(n as nat),
    decreases n,
{
    if n < 16 {
        hex_digit(n).to_string()
    } else {
        let mut s: String = hex(n / 16);
        s.append(hex_digit(n % 16));
        s
    }
}

/// An error in words.
pub open spec fn error_text(e: OxiH5Error) -> Seq<char> {
    match e {
        OxiH5Error::Io(s) => "I/O error: "@ + s@,
        OxiH5Error::BadSignature => "invalid HDF5 signature"@,
        OxiH5Error::UnsupportedSuperblock(v) => "unsupported superblock version: "@ + decimal_text(
            v as nat,
        ),
        OxiH5Error::UnsupportedHeader(v) => "unsupported object header version: "@ + decimal_text(
            v as nat,
        ),
        OxiH5Error::UnsupportedDatatype(v) => "unsupported datatype class: "@ + decimal_text(
            v as nat,
        ),
        OxiH5Error::UnsupportedLayout(v) => "unsupported data layout class: "@ + decimal_text(
            v as nat,
        ),
        OxiH5Error::NotFound(s) => "dataset not found: "@ + s@,
        OxiH5Error::TypeMismatch => "type mismatch"@,
        OxiH5Error::DataTruncated => "data buffer truncated"@,
        OxiH5Error::NotImplemented(s) => "not yet implemented: "@ + s@,
        OxiH5Error::Format(s) => "format error: "@ + s@,
        OxiH5Error::UnsupportedFilter(s) => "unsupported filter: "@ + s@,
        OxiH5Error::Corrupted(s) => "corrupted data: "@ + s@,
    }
}

fn pair(a: &str, b: &str) -> (r: String)
    ensures
        r@ == a@ + b@,
{
    let mut s: String = a.to_string();
    s.append(b);
    s
}

impl OxiH5Error {
    /// The error in words.
    pub fn message(&self) -> (r: String)
        ensures
            r@ == error_text(*self),
    {
        match self {
            OxiH5Error::Io(s) => pair("I/O error: ", s.as_str()),
            OxiH5Error::BadSignature => "invalid HDF5 signature".to_string(),
            OxiH5Error::UnsupportedSuperblock(v) => pair(
                "unsupported superblock version: ",
                decimal(*v as u128).as_str(),
            ),
            OxiH5Error::UnsupportedHeader(v) => pair(
                "unsupported object header version: ",
                decimal(*v as u128).as_str(),
            ),
            OxiH5Error::UnsupportedDatatype(v) => pair(
                "unsupported datatype class: ",
                decimal(*v as u128).as_str(),
            ),
            OxiH5Error::UnsupportedLayout(v) => pair(
                "unsupported data layout class: ",
                decimal(*v as u128).as_str(),
            ),
            OxiH5Error::NotFound(s) => pair("dataset not found: ", s.as_str()),
            OxiH5Error::TypeMismatch => "type mismatch".to_string(),
            OxiH5Error::DataTruncated => "data buffer truncated".to_string(),
            OxiH5Error::NotImplemented(s) => pair("not yet implemented: ", s.as_str()),
            OxiH5Error::Format(s) => pair("format error: ", s.as_str()),
            OxiH5Error::UnsupportedFilter(s) => pair("unsupported filter: ", s.as_str()),
            OxiH5Error::Corrupted(s) => pair("corrupted data: ", s.as_str()),
        }
    }
}

/// A byte order in words.
pub open spec fn order_text(order: ByteOrder) -> Seq<char> {
    match order {
        ByteOrder::Little => "LE"@,
        ByteOrder::Big => "BE"@,
    }
}

impl ByteOrder {
    /// `LE` or `BE`.
    pub fn describe(self) -> (r: &'static str)
        ensures
            r@ == order_text(self),
    {
        match self {
            ByteOrder::Little => "LE",
            ByteOrder::Big => "BE",
        }
    }
}

/// The names of the fields, separated by commas.
pub open spec fn names_text(fields: Seq<FieldModel>) -> Seq<char>
    decreases fields.len(),
{
    if fields.len() == 0 {
        Seq::empty()
    } else if fields.len() == 1 {
        fields[0].name
    } else {
        names_text(fields.drop_last()) + ", "@ + fields.last().name
    }
}

/// The extents, separated by commas.
pub open spec fn extents_text(dims: Seq<int>) -> Seq<char>
    decreases dims.len(),
{
    if dims.len() == 0 {
        Seq::empty()
    } else if dims.len() == 1 {
        decimal_text(dims[0] as nat)
    } else {
        extents_text(dims.drop_last()) + ", "@ + decimal_text(dims.last() as nat)
    }
}

/// A datatype in words.
pub open spec fn dtype_text(m: DtypeModel) -> Seq<char>
    decreases m,
{
    match m {
        DtypeModel::Float { size, order } => "Float"@ + decimal_text(size * 8) + " "@ + order_text(
            order,
        ),
        DtypeModel::Int { size, signed, order } => "Int"@ + decimal_text(size * 8) + " "@
            + order_text(order) + if signed {
            " (signed)"@
        } else {
            " (unsigned)"@
        },
        DtypeModel::String { fixed_len, charset } => "String ("@ + match charset {
            Charset::Ascii => "ASCII"@,
            Charset::Utf8 => "UTF-8"@,
        } + match fixed_len {
            Some(n) => ", fixed="@ + decimal_text(n) + ")"@,
            None => ", variable-length)"@,
        },
        DtypeModel::Compound { fields } => "Compound {"@ + names_text(fields) + "}"@,
        DtypeModel::Array { base, dims } => "Array[["@ + extents_text(dims) + "]] of "@ + dtype_text(
            *base,
        ),
        DtypeModel::Enum { base, .. } => "Enum (base: "@ + dtype_text(*base) + ")"@,
        DtypeModel::Opaque { size, tag } => "Opaque("@ + decimal_text(size) + " bytes, tag="@ + tag
            + ")"@,
        DtypeModel::Reference { ref_type } => match ref_type {
            RefType::Object => "Reference(Object)"@,
            RefType::Region => "Reference(Region)"@,
        },
        DtypeModel::VarLen { base } => "VarLen("@ + dtype_text(*base) + ")"@,
        DtypeModel::Bitfield { size, order } => "Bitfield"@ + decimal_text(size * 8) + " "@
            + order_text(order),
    }
}

impl Dtype {
    /// The datatype in words.
    pub fn describe(&self) -> (r: String)
        ensures
            r@ == dtype_text(self@),
        decreases self,
    {
        match self {
            Dtype::Float { size, order } => {
                let mut s: String = "Float".to_string();
                s.append(decimal(*size as u128 * 8).as_str());
                s.append(" ");
                s.append(order.describe());
                s
            },
            Dtype::Int { size, signed, order } => {
                let mut s: String = "Int".to_string();
                s.append(decimal(*size as u128 * 8).as_str());
                s.append(" ");
                s.append(order.describe());
                s.append(
                    if *signed {
                        " (signed)"
                    } else {
                        " (unsigned)"
                    },
                );
                s
            },
            Dtype::String { fixed_len, charset } => {
                let mut s: String = "String (".to_string();
                s.append(
                    match charset {
                        Charset::Ascii => "ASCII",
                        Charset::Utf8 => "UTF-8",
                    },
                );
                let ghost before = s@;
                match fixed_len {
                    Some(n) => {
                        s.append(", fixed=");
                        s.append(decimal(*n as u128).as_str());
                        s.append(")");
                        proof {
                            assert(s@ =~= before + (", fixed="@ + decimal_text(*n as nat) + ")"@));
                        }
                    },
                    None => {
                        s.append(", variable-length)");
                    },
                }
                s
            },
            Dtype::Compound { fields } => {
                let mut s: String = "Compound {".to_string();
                let ghost all = views(fields@);
                proof {
                    lemma_compound_model(*fields);
                    assert(all.take(0) =~= Seq::<FieldModel>::empty());
                    assert("Compound {"@ + Seq::empty() =~= "Compound {"@);
                }
                for i in 0..fields.len()
                    invariant
                        all == views(fields@),
                        s@ == "Compound {"@ + names_text(all.take(i as int)),
                {
                    let ghost before = names_text(all.take(i as int));
                    proof {
                        assert(all.take(i + 1).drop_last() =~= all.take(i as int));
                        assert(all.take(i + 1).last() == fields@[i as int]@);
                        assert(all.take(i + 1)[0] == all[0]);
                    }
                    if i > 0 {
                        s.append(", ");
                    }
                    s.append(fields[i].name.as_str());
                    proof {
                        if i > 0 {
                            assert(s@ =~= "Compound {"@ + (before + ", "@
                                + fields@[i as int].name@));
                        } else {
                            assert(s@ =~= "Compound {"@ + fields@[0].name@);
                        }
                    }
                }
                proof {
                    assert(all.take(fields@.len() as int) =~= all);
                }
                s.append("}");
                s
            },
            Dtype::Array { base, dims } => {
                let mut s: String = "Array[[".to_string();
                let ghost all = ints(dims@);
                proof {
                    assert(all.take(0) =~= Seq::<int>::empty());
                    assert("Array[["@ + Seq::empty() =~= "Array[["@);
                }
                for i in 0..dims.len()
                    invariant
                        all == ints(dims@),
                        s@ == "Array[["@ + extents_text(all.take(i as int)),
                {
                    let ghost before = extents_text(all.take(i as int));
                    proof {
                        assert(all.take(i + 1).drop_last() =~= all.take(i as int));
                        assert(all.take(i + 1).last() == dims@[i as int]);
                        assert(all.take(i + 1)[0] == all[0]);
                    }
                    if i > 0 {
                        s.append(", ");
                    }
                    s.append(decimal(dims[i] as u128).as_str());
                    proof {
                        let shown = decimal_text(dims@[i as int] as nat);
                        if i > 0 {
                            assert(s@ =~= "Array[["@ + (before + ", "@ + shown));
                        } else {
                            assert(s@ =~= "Array[["@ + shown);
                        }
                    }
                }
                proof {
                    assert(all.take(dims@.len() as int) =~= all);
                }
                s.append("]] of ");
                s.append(base.describe().as_str());
                s
            },
            Dtype::Enum { base, .. } => {
                let mut s: String = "Enum (base: ".to_string();
                s.append(base.describe().as_str());
                s.append(")");
                s
            },
            Dtype::Opaque { size, tag } => {
                let mut s: String = "Opaque(".to_string();
                s.append(decimal(*size as u128).as_str());
                s.append(" bytes, tag=");
                s.append(tag.as_str());
                s.append(")");
                s
            },
            Dtype::Reference { ref_type } => match ref_type {
                RefType::Object => "Reference(Object)".to_string(),
                RefType::Region => "Reference(Region)".to_string(),
            },
            Dtype::VarLen { base } => {
                let mut s: String = "VarLen(".to_string();
                s.append(base.describe().as_str());
                s.append(")");
                s
            },
            Dtype::Bitfield { size, order } => {
                let mut s: String = "Bitfield".to_string();
                s.append(decimal(*size as u128 * 8).as_str());
                s.append(" ");
                s.append(order.describe());
                s
            },
        }
    }
}

} // verus!
