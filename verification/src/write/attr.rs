//! Attributes as the writer encodes them.
//!
//! An attribute message body is the version 1, a reserved byte, the sizes of name,
//! datatype and dataspace (2 bytes each), the name with a zero byte, the datatype,
//! the dataspace, each padded to a multiple of 8, and the data.

use vstd::prelude::*;
use vstd::string::*;
use vstd::utf8::encode_utf8;
use crate::bytes::{
    le_bytes, lemma_le_bytes_len, push_all, push_le, push_zeros, put, put_bytes, zeros,
};
use crate::dtype::views;
use crate::error::{lemma_phrase_stays, outcome, text, text_around, ErrorKind, OxiH5Error};
use crate::global_heap::align8;
use crate::paths::{strip_slash, without_slash};
use crate::utf8::{holds_text, same_text};
use crate::write::elem::{
    fixed_image, float_image, lemma_image_lens, ref_image, string_image, write_fixed_dtype,
    write_float_dtype, write_ref_dtype, write_string_dtype, ATTR_BODY_PREFIX, FIXED_DT_BODY,
    FLOAT_DT_BODY, REF_DT_BODY, SCALAR_DSPACE_BODY, STRING_DT_BODY, UNDEFINED_ADDR,
    VECTOR_DSPACE_BODY,
};

verus! {

/// The value of an attribute to be written; floating-point numbers by their bits.
#[derive(Debug)]
pub enum AttrKind {
    FixedStr(String),
    F64(u64),
    I64(i64),
    I32(i32),
    F64Array(Vec<u64>),
    I64Array(Vec<i64>),
    /// Strings, all stored at one width.
    StrArray(Vec<String>),
    /// References to objects, by their paths.
    ObjRefsByName(Vec<String>),
}

/// A named attribute to be written.
#[derive(Debug)]
pub struct AttrDesc {
    pub name: String,
    pub kind: AttrKind,
}

/// The value of an attribute, ready to be written.
pub enum ResolvedAttrKind<'a> {
    FixedStr(&'a str),
    F64(u64),
    I64(i64),
    I32(i32),
    F64Array(&'a [u64]),
    I64Array(&'a [i64]),
    /// Strings of at most `width` bytes, each stored in that many.
    StrArray { values: &'a [String], width: usize },
    /// One address per path, undefined until the addresses are known.
    ObjRefs { names: &'a [String], addrs: Vec<u64> },
}

/// A named attribute, ready to be written.
pub struct ResolvedAttr<'a> {
    pub name: &'a str,
    pub kind: ResolvedAttrKind<'a>,
}

/// Sizes of the variable parts of an attribute body.
#[derive(Debug, Clone, Copy)]
pub struct AttrSizes {
    pub dtype: usize,
    pub dspace: usize,
    pub data: usize,
}

/// An attribute value as a mathematical value: integers by their bits, text by its
/// bytes.
pub enum AttrModel {
    FixedStr(Seq<u8>),
    F64(u64),
    I64(i64),
    I32(i32),
    F64Array(Seq<u64>),
    I64Array(Seq<i64>),
    StrArray { values: Seq<Seq<u8>>, width: nat },
    ObjRefs(Seq<u64>),
}

/// The bytes of each string.
pub open spec fn encoded(strings: Seq<String>) -> Seq<Seq<u8>> {
    Seq::new(strings.len(), |i: int| encode_utf8(strings[i]@))
}

impl<'a> View for ResolvedAttrKind<'a> {
    type V = AttrModel;

    open spec fn view(&self) -> AttrModel {
        match self {
            ResolvedAttrKind::FixedStr(s) => AttrModel::FixedStr(encode_utf8(s@)),
            ResolvedAttrKind::F64(v) => AttrModel::F64(*v),
            ResolvedAttrKind::I64(v) => AttrModel::I64(*v),
            ResolvedAttrKind::I32(v) => AttrModel::I32(*v),
            ResolvedAttrKind::F64Array(values) => AttrModel::F64Array(values@),
            ResolvedAttrKind::I64Array(values) => AttrModel::I64Array(values@),
            ResolvedAttrKind::StrArray { values, width } => AttrModel::StrArray {
                values: encoded(values@),
                width: *width as nat,
            },
            ResolvedAttrKind::ObjRefs { addrs, .. } => AttrModel::ObjRefs(addrs@),
        }
    }
}

/// The two's complement of `v` in 8 bytes.
pub open spec fn bits64(v: i64) -> nat {
    if v >= 0 {
        v as nat
    } else {
        (v + 0x1_0000_0000_0000_0000) as nat
    }
}

/// The two's complement of `v` in 4 bytes.
pub open spec fn bits32(v: i32) -> nat {
    if v >= 0 {
        v as nat
    } else {
        (v + 0x1_0000_0000) as nat
    }
}

pub(crate) fn to_bits64(v: i64) -> (r: u64)
    ensures
        r == bits64(v),
{
    if v >= 0 {
        v as u64
    } else {
        u64::MAX - (-(v + 1)) as u64
    }
}

pub(crate) fn to_bits32(v: i32) -> (r: u32)
    ensures
        r == bits32(v),
{
    if v >= 0 {
        v as u32
    } else {
        u32::MAX - (-(v + 1)) as u32
    }
}

/// Integers of 8 bytes each.
pub open spec fn words_image(words: Seq<nat>) -> Seq<u8>
    decreases words.len(),
{
    if words.len() == 0 {
        Seq::empty()
    } else {
        words_image(words.drop_last()) + le_bytes(words.last(), 8)
    }
}

/// Strings, each padded with zeros to `width` bytes.
pub open spec fn strings_image(values: Seq<Seq<u8>>, width: nat) -> Seq<u8>
    decreases values.len(),
{
    if values.len() == 0 {
        Seq::empty()
    } else {
        strings_image(values.drop_last(), width) + values.last() + zeros(
            (width - values.last().len()) as nat,
        )
    }
}

/// Whether every string fits the width.
pub open spec fn all_fit(values: Seq<Seq<u8>>, width: nat) -> bool {
    forall|i: int| 0 <= i < values.len() ==> (#[trigger] values[i]).len() <= width
}

impl AttrModel {
    /// The number of elements; `None` for a single value.
    pub open spec fn count(self) -> Option<nat> {
        match self {
            AttrModel::FixedStr(_) => None,
            AttrModel::F64(_) => None,
            AttrModel::I64(_) => None,
            AttrModel::I32(_) => None,
            AttrModel::F64Array(values) => Some(values.len()),
            AttrModel::I64Array(values) => Some(values.len()),
            AttrModel::StrArray { values, .. } => Some(values.len()),
            AttrModel::ObjRefs(addrs) => Some(addrs.len()),
        }
    }

    pub open spec fn dtype_size(self) -> nat {
        match self {
            AttrModel::FixedStr(_) => 8,
            AttrModel::F64(_) => 24,
            AttrModel::I64(_) => 16,
            AttrModel::I32(_) => 16,
            AttrModel::F64Array(_) => 24,
            AttrModel::I64Array(_) => 16,
            AttrModel::StrArray { .. } => 8,
            AttrModel::ObjRefs(_) => 8,
        }
    }

    pub open spec fn dspace_size(self) -> nat {
        match self.count() {
            None => 8,
            Some(_) => 24,
        }
    }

    pub open spec fn data_size(self) -> nat {
        match self {
            AttrModel::FixedStr(s) => s.len(),
            AttrModel::F64(_) => 8,
            AttrModel::I64(_) => 8,
            AttrModel::I32(_) => 4,
            AttrModel::F64Array(values) => values.len() * 8,
            AttrModel::I64Array(values) => values.len() * 8,
            AttrModel::StrArray { values, width } => values.len() * width,
            AttrModel::ObjRefs(addrs) => addrs.len() * 8,
        }
    }

    /// Whether every string of a list fits its width.
    pub open spec fn wf(self) -> bool {
        match self {
            AttrModel::StrArray { values, width } => all_fit(values, width),
            _ => true,
        }
    }

    /// The datatype body; a string's length must fit its field.
    pub open spec fn dtype_image(self) -> Result<Seq<u8>, ErrorKind> {
        match self {
            AttrModel::FixedStr(s) => if s.len() <= u32::MAX {
                Ok(string_image(s.len()))
            } else {
                Err(ErrorKind::Format)
            },
            AttrModel::StrArray { width, .. } => if width <= u32::MAX {
                Ok(string_image(width))
            } else {
                Err(ErrorKind::Format)
            },
            AttrModel::F64(_) => Ok(float_image(8, 11)),
            AttrModel::F64Array(_) => Ok(float_image(8, 11)),
            AttrModel::I64(_) => Ok(fixed_image(8, true)),
            AttrModel::I64Array(_) => Ok(fixed_image(8, true)),
            AttrModel::I32(_) => Ok(fixed_image(4, true)),
            AttrModel::ObjRefs(_) => Ok(ref_image()),
        }
    }

    /// The dataspace body: version 1; for a list one dimension, with its extent as
    /// the largest one too.
    pub open spec fn dspace_image(self) -> Seq<u8> {
        match self.count() {
            None => seq![1u8] + zeros(7),
            Some(n) => seq![1u8, 1u8, 1u8] + zeros(5) + le_bytes(n, 8) + le_bytes(n, 8),
        }
    }

    /// The data.
    pub open spec fn data_image(self) -> Seq<u8> {
        match self {
            AttrModel::FixedStr(s) => s,
            AttrModel::F64(v) => le_bytes(v as nat, 8),
            AttrModel::I64(v) => le_bytes(bits64(v), 8),
            AttrModel::I32(v) => le_bytes(bits32(v), 4),
            AttrModel::F64Array(values) => words_image(
                Seq::new(values.len(), |i: int| values[i] as nat),
            ),
            AttrModel::I64Array(values) => words_image(
                Seq::new(values.len(), |i: int| bits64(values[i])),
            ),
            AttrModel::StrArray { values, width } => strings_image(values, width),
            AttrModel::ObjRefs(addrs) => words_image(
                Seq::new(addrs.len(), |i: int| addrs[i] as nat),
            ),
        }
    }
}

/// `part` padded with zeros to a multiple of 8.
pub open spec fn padded(part: Seq<u8>) -> Seq<u8> {
    part + zeros((align8(part.len() as int) - part.len()) as nat)
}

/// The size of an attribute body.
pub open spec fn attr_body_len(name: Seq<u8>, kind: AttrModel) -> nat {
    (8 + align8(name.len() as int + 1) + align8(kind.dtype_size() as int) + align8(
        kind.dspace_size() as int,
    ) + kind.data_size()) as nat
}

/// An attribute body, where its name and strings fit their fields.
pub open spec fn attr_image(name: Seq<u8>, kind: AttrModel) -> Result<Seq<u8>, ErrorKind> {
    match kind.dtype_image() {
        Err(kind) => Err(kind),
        Ok(dtype) => if name.len() + 1 > u16::MAX {
            Err(ErrorKind::Format)
        } else {
            Ok(
                seq![1u8, 0u8] + le_bytes(name.len() + 1, 2) + le_bytes(kind.dtype_size(), 2)
                    + le_bytes(kind.dspace_size(), 2) + padded(name.push(0u8)) + padded(dtype)
                    + padded(kind.dspace_image()) + kind.data_image(),
            )
        },
    }
}

pub proof fn lemma_words_len(words: Seq<nat>)
    ensures
        words_image(words).len() == words.len() * 8,
    decreases words.len(),
{
    if words.len() > 0 {
        lemma_words_len(words.drop_last());
        lemma_le_bytes_len(words.last(), 8);
    }
}

pub proof fn lemma_strings_len(values: Seq<Seq<u8>>, width: nat)
    requires
        all_fit(values, width),
    ensures
        strings_image(values, width).len() == values.len() * width,
    decreases values.len(),
{
    if values.len() > 0 {
        let front = values.drop_last();
        assert forall|i: int| 0 <= i < front.len() implies (#[trigger] front[i]).len() <= width by {
            assert(front[i] == values[i]);
        }
        lemma_strings_len(front, width);
        assert(values[values.len() - 1].len() <= width);
        assert(values.len() * width == (values.len() - 1) * width + width) by (nonlinear_arith);
    }
}

pub proof fn lemma_kind_lens(kind: AttrModel)
    requires
        kind.wf(),
    ensures
        kind.dtype_image() is Ok ==> kind.dtype_image()->Ok_0.len() == kind.dtype_size(),
        kind.dspace_image().len() == kind.dspace_size(),
        kind.data_image().len() == kind.data_size(),
{
    lemma_image_lens(0);
    match kind {
        AttrModel::FixedStr(s) => lemma_image_lens(s.len()),
        AttrModel::StrArray { values, width } => {
            lemma_image_lens(width);
            lemma_strings_len(values, width);
            lemma_le_bytes_len(values.len(), 8);
        },
        AttrModel::F64(v) => lemma_le_bytes_len(v as nat, 8),
        AttrModel::I64(v) => lemma_le_bytes_len(bits64(v), 8),
        AttrModel::I32(v) => lemma_le_bytes_len(bits32(v), 4),
        AttrModel::F64Array(values) => {
            lemma_words_len(Seq::new(values.len(), |i: int| values[i] as nat));
            lemma_le_bytes_len(values.len(), 8);
        },
        AttrModel::I64Array(values) => {
            lemma_words_len(Seq::new(values.len(), |i: int| bits64(values[i])));
            lemma_le_bytes_len(values.len(), 8);
        },
        AttrModel::ObjRefs(addrs) => {
            lemma_words_len(Seq::new(addrs.len(), |i: int| addrs[i] as nat));
            lemma_le_bytes_len(addrs.len(), 8);
        },
    }
}

/// Every attribute takes as many bytes as are set aside for it.
pub proof fn law_attr_body_size(name: Seq<u8>, kind: AttrModel)
    requires
        kind.wf(),
    ensures
        attr_image(name, kind) is Ok ==> attr_image(name, kind)->Ok_0.len() == attr_body_len(
            name,
            kind,
        ),
{
    lemma_kind_lens(kind);
    lemma_le_bytes_len(name.len() + 1, 2);
    lemma_le_bytes_len(kind.dtype_size(), 2);
    lemma_le_bytes_len(kind.dspace_size(), 2);
}

/// Round up to a multiple of 8.
pub fn pad8(n: usize) -> (r: usize)
    requires
        align8(n as int) <= usize::MAX,
    ensures
        r == align8(n as int),
{
    if n % 8 == 0 {
        n
    } else {
        n - n % 8 + 8
    }
}

/// Whether a structure took the space that was set aside for it; the error names `what`.
pub fn check_size(what: &str, wrote: usize, reserved: usize) -> (r: Result<(), OxiH5Error>)
    ensures
        r is Ok <==> wrote == reserved,
        r is Err ==> r->Err_0@ == ErrorKind::Format && r->Err_0.says(what@),
{
    if wrote != reserved {
        return Err(
            OxiH5Error::Format(
                text_around(
                    &["internal writer error: "],
                    what,
                    &[
                        " wrote ",
                        &wrote.to_string(),
                        " bytes into ",
                        &reserved.to_string(),
                        " reserved",
                    ],
                ),
            ),
        );
    }
    Ok(())
}

fn too_large(what: &str, value: usize) -> (r: OxiH5Error)
    ensures
        r@ == ErrorKind::Format,
        r.says(what@),
{
    OxiH5Error::Format(
        text_around(
            &["internal writer error: "],
            what,
            &[" is ", &value.to_string(), ", too large for its on-disk field"],
        ),
    )
}

/// `value` as a field of two bytes; the error names `what`.
pub fn narrow_u16(what: &str, value: usize) -> (r: Result<u16, OxiH5Error>)
    ensures
        value <= u16::MAX ==> r is Ok && r->Ok_0 == value,
        value > u16::MAX ==> r is Err && r->Err_0@ == ErrorKind::Format && r->Err_0.says(what@),
{
    if value <= 0xffff {
        Ok(value as u16)
    } else {
        Err(too_large(what, value))
    }
}

/// `value` as a field of four bytes; the error names `what`.
pub fn narrow_u32(what: &str, value: usize) -> (r: Result<u32, OxiH5Error>)
    ensures
        value <= u32::MAX ==> r is Ok && r->Ok_0 == value,
        value > u32::MAX ==> r is Err && r->Err_0@ == ErrorKind::Format && r->Err_0.says(what@),
{
    if value <= 0xffff_ffff {
        Ok(value as u32)
    } else {
        Err(too_large(what, value))
    }
}

impl<'a> ResolvedAttrKind<'a> {
    /// The number of elements; `None` for a single value.
    pub fn vector_len(&self) -> (r: Option<usize>)
        ensures
            match r {
                Some(n) => self@.count() == Some(n as nat),
                None => self@.count() is None,
            },
    {
        match self {
            ResolvedAttrKind::FixedStr(_)
            | ResolvedAttrKind::F64(_)
            | ResolvedAttrKind::I64(_)
            | ResolvedAttrKind::I32(_) => None,
            ResolvedAttrKind::F64Array(values) => Some(values.len()),
            ResolvedAttrKind::I64Array(values) => Some(values.len()),
            ResolvedAttrKind::StrArray { values, .. } => Some(values.len()),
            ResolvedAttrKind::ObjRefs { addrs, .. } => Some(addrs.len()),
        }
    }

    /// The sizes of the variable parts.
    pub fn sizes(&self) -> (r: AttrSizes)
        requires
            self@.data_size() <= usize::MAX,
        ensures
            r.dtype == self@.dtype_size(),
            r.dspace == self@.dspace_size(),
            r.data == self@.data_size(),
    {
        let dspace: usize = match self.vector_len() {
            None => SCALAR_DSPACE_BODY,
            Some(_) => VECTOR_DSPACE_BODY,
        };
        let (dtype, data) = match self {
            ResolvedAttrKind::FixedStr(s) => {
                let bytes = s.as_bytes();
                (STRING_DT_BODY, bytes.len())
            },
            ResolvedAttrKind::F64(_) => (FLOAT_DT_BODY, 8usize),
            ResolvedAttrKind::I64(_) => (FIXED_DT_BODY, 8usize),
            ResolvedAttrKind::I32(_) => (FIXED_DT_BODY, 4usize),
            ResolvedAttrKind::F64Array(values) => (FLOAT_DT_BODY, values.len() * 8),
            ResolvedAttrKind::I64Array(values) => (FIXED_DT_BODY, values.len() * 8),
            ResolvedAttrKind::StrArray { values, width } => (STRING_DT_BODY, values.len() * *width),
            ResolvedAttrKind::ObjRefs { addrs, .. } => (REF_DT_BODY, addrs.len() * 8),
        };
        AttrSizes { dtype, dspace, data }
    }
}

/// Append integers of 8 bytes each.
pub fn push_words(out: &mut Vec<u8>, words: &[u64])
    ensures
        final(out)@ == old(out)@ + words_image(Seq::new(words@.len(), |i: int| words@[i] as nat)),
{
    let ghost before = out@;
    let ghost all = Seq::new(words@.len(), |i: int| words@[i] as nat);
    proof {
        assert(all.take(0) =~= Seq::<nat>::empty());
        assert(before + Seq::<u8>::empty() =~= before);
    }
    for i in 0..words.len()
        invariant
            all == Seq::new(words@.len(), |i: int| words@[i] as nat),
            out@ == before + words_image(all.take(i as int)),
    {
        push_le(out, words[i], 8);
        proof {
            assert(all.take(i + 1).drop_last() =~= all.take(i as int));
            assert(out@ =~= before + words_image(all.take(i + 1)));
        }
    }
    proof {
        assert(all.take(words@.len() as int) =~= all);
    }
}

/// Append strings, each padded with zeros to `width` bytes.
fn push_strings(out: &mut Vec<u8>, values: &[String], width: usize)
    requires
        all_fit(encoded(values@), width as nat),
    ensures
        final(out)@ == old(out)@ + strings_image(encoded(values@), width as nat),
{
    let ghost before = out@;
    let ghost all = encoded(values@);
    proof {
        assert(all.take(0) =~= Seq::<Seq<u8>>::empty());
        assert(before + Seq::<u8>::empty() =~= before);
    }
    for i in 0..values.len()
        invariant
            all == encoded(values@),
            all_fit(all, width as nat),
            out@ == before + strings_image(all.take(i as int), width as nat),
    {
        let bytes = values[i].as_str().as_bytes();
        assert(bytes@ == all[i as int]);
        push_all(out, bytes);
        push_zeros(out, width - bytes.len());
        proof {
            assert(all.take(i + 1).drop_last() =~= all.take(i as int));
            assert(out@ =~= before + strings_image(all.take(i + 1), width as nat));
        }
    }
    proof {
        assert(all.take(values@.len() as int) =~= all);
    }
}

/// Append `part`, padded with zeros to a multiple of 8.
pub fn push_padded(out: &mut Vec<u8>, part: &[u8])
    requires
        align8(part@.len() as int) <= usize::MAX,
    ensures
        final(out)@ == old(out)@ + padded(part@),
{
    let ghost before = out@;
    push_all(out, part);
    push_zeros(out, pad8(part.len()) - part.len());
    proof {
        assert(out@ =~= before + padded(part@));
    }
}

impl<'a> ResolvedAttr<'a> {
    /// The bytes of the name.
    pub open spec fn name_bytes(self) -> Seq<u8> {
        encode_utf8(self.name@)
    }

    /// Size of the attribute's message body.
    pub fn body_size(&self) -> (r: usize)
        requires
            attr_body_len(self.name_bytes(), self.kind@) <= usize::MAX,
        ensures
            r == attr_body_len(self.name_bytes(), self.kind@),
    {
        let sizes = self.kind.sizes();
        let name = self.name.as_bytes();
        ATTR_BODY_PREFIX + pad8(name.len() + 1) + pad8(sizes.dtype) + pad8(sizes.dspace)
            + sizes.data
    }

    fn dtype_bytes(&self) -> (r: Result<Vec<u8>, OxiH5Error>)
        ensures
            outcome(r) == self.kind@.dtype_image(),
    {
        let mut body: Vec<u8> = Vec::new();
        match &self.kind {
            ResolvedAttrKind::FixedStr(s) => {
                let bytes = s.as_bytes();
                let len: u32 = narrow_u32("attribute string length", bytes.len())?;
                push_zeros(&mut body, STRING_DT_BODY);
                write_string_dtype(&mut body, 0, len);
            },
            ResolvedAttrKind::StrArray { width, .. } => {
                let len: u32 = narrow_u32("attribute string width", *width)?;
                push_zeros(&mut body, STRING_DT_BODY);
                write_string_dtype(&mut body, 0, len);
            },
            ResolvedAttrKind::F64(_) | ResolvedAttrKind::F64Array(_) => {
                push_zeros(&mut body, FLOAT_DT_BODY);
                let r = write_float_dtype(&mut body, 0, 8);
            },
            ResolvedAttrKind::I64(_) | ResolvedAttrKind::I64Array(_) => {
                push_zeros(&mut body, FIXED_DT_BODY);
                write_fixed_dtype(&mut body, 0, 8, true);
            },
            ResolvedAttrKind::I32(_) => {
                push_zeros(&mut body, FIXED_DT_BODY);
                write_fixed_dtype(&mut body, 0, 4, true);
            },
            ResolvedAttrKind::ObjRefs { .. } => {
                push_zeros(&mut body, REF_DT_BODY);
                write_ref_dtype(&mut body, 0);
            },
        }
        proof {
            lemma_image_lens(0);
            if let AttrModel::FixedStr(s) = self.kind@ {
                lemma_image_lens(s.len());
            }
            if let AttrModel::StrArray { width, .. } = self.kind@ {
                lemma_image_lens(width);
            }
            assert(body@ =~= self.kind@.dtype_image()->Ok_0);
        }
        Ok(body)
    }

    fn dspace_bytes(&self) -> (r: Vec<u8>)
        ensures
            r@ == self.kind@.dspace_image(),
    {
        let mut body: Vec<u8> = Vec::new();
        match self.kind.vector_len() {
            Some(n) => {
                body.push(1);
                body.push(1);
                body.push(1);
                push_zeros(&mut body, 5);
                push_le(&mut body, n as u64, 8);
                push_le(&mut body, n as u64, 8);
            },
            None => {
                body.push(1);
                push_zeros(&mut body, 7);
            },
        }
        proof {
            assert(body@ =~= self.kind@.dspace_image());
        }
        body
    }

    fn data_bytes(&self) -> (r: Vec<u8>)
        requires
            self.kind@.wf(),
        ensures
            r@ == self.kind@.data_image(),
    {
        let mut data: Vec<u8> = Vec::new();
        match &self.kind {
            ResolvedAttrKind::FixedStr(s) => {
                push_all(&mut data, s.as_bytes());
            },
            ResolvedAttrKind::F64(v) => {
                push_le(&mut data, *v, 8);
            },
            ResolvedAttrKind::I64(v) => {
                push_le(&mut data, to_bits64(*v), 8);
            },
            ResolvedAttrKind::I32(v) => {
                push_le(&mut data, to_bits32(*v) as u64, 4);
            },
            ResolvedAttrKind::F64Array(values) => {
                push_words(&mut data, values);
            },
            ResolvedAttrKind::I64Array(values) => {
                let mut words: Vec<u64> = Vec::new();
                for i in 0..values.len()
                    invariant
                        words@.len() == i,
                        forall|k: int| 0 <= k < i ==> #[trigger] words@[k] == bits64(values@[k]),
                {
                    words.push(to_bits64(values[i]));
                }
                push_words(&mut data, &words);
                proof {
                    assert(Seq::new(words@.len(), |i: int| words@[i] as nat) =~= Seq::new(
                        values@.len(),
                        |i: int| bits64(values@[i]),
                    ));
                }
            },
            ResolvedAttrKind::StrArray { values, width } => {
                push_strings(&mut data, values, *width);
            },
            ResolvedAttrKind::ObjRefs { addrs, .. } => {
                push_words(&mut data, addrs);
            },
        }
        proof {
            assert(data@ =~= self.kind@.data_image());
        }
        data
    }

    /// The attribute's message body.
    pub fn body_bytes(&self) -> (r: Result<Vec<u8>, OxiH5Error>)
        requires
            self.kind@.wf(),
            attr_body_len(self.name_bytes(), self.kind@) <= usize::MAX,
        ensures
            outcome(r) == attr_image(self.name_bytes(), self.kind@),
    {
        let sizes = self.kind.sizes();
        let name = self.name.as_bytes();
        let dtype: Vec<u8> = self.dtype_bytes()?;
        let name_size: u16 = narrow_u16("attribute name size", name.len() + 1)?;
        let dspace: Vec<u8> = self.dspace_bytes();
        let data: Vec<u8> = self.data_bytes();
        proof {
            lemma_kind_lens(self.kind@);
        }
        let mut name_part: Vec<u8> = Vec::new();
        push_all(&mut name_part, name);
        name_part.push(0);
        let mut body: Vec<u8> = Vec::new();
        body.push(1);
        body.push(0);
        proof {
            assert(body@ =~= seq![1u8, 0u8]);
            assert(name_part@ =~= name@.push(0u8));
        }
        push_le(&mut body, name_size as u64, 2);
        push_le(&mut body, sizes.dtype as u64, 2);
        push_le(&mut body, sizes.dspace as u64, 2);
        push_padded(&mut body, &name_part);
        push_padded(&mut body, &dtype);
        push_padded(&mut body, &dspace);
        push_all(&mut body, &data);
        Ok(body)
    }

    /// Write the attribute's message body at `start`; returns the number of bytes.
    pub fn write_body(&self, buf: &mut Vec<u8>, start: usize) -> (r: Result<usize, OxiH5Error>)
        requires
            self.kind@.wf(),
            start + attr_body_len(self.name_bytes(), self.kind@) <= old(buf)@.len(),
        ensures
            match attr_image(self.name_bytes(), self.kind@) {
                Ok(image) => {
                    &&& r is Ok
                    &&& r->Ok_0 == attr_body_len(self.name_bytes(), self.kind@)
                    &&& final(buf)@ == put(old(buf)@, start as int, image)
                },
                Err(kind) => {
                    &&& r is Err
                    &&& r->Err_0@ == kind
                    &&& final(buf)@ == old(buf)@
                },
            },
    {
        assert(buf.len() <= usize::MAX);
        proof {
            law_attr_body_size(self.name_bytes(), self.kind@);
        }
        let body: Vec<u8> = self.body_bytes()?;
        let reserved: usize = self.body_size();
        check_size("attribute body", body.len(), reserved)?;
        put_bytes(buf, start, &body);
        Ok(body.len())
    }

    /// Write the attribute's datatype body; returns the number of bytes.
    pub fn write_dtype_body(&self, buf: &mut Vec<u8>, start: usize) -> (r: Result<
        usize,
        OxiH5Error,
    >)
        requires
            start + self.kind@.dtype_size() <= old(buf)@.len(),
            self.kind@.wf(),
        ensures
            match self.kind@.dtype_image() {
                Ok(image) => {
                    &&& r is Ok
                    &&& r->Ok_0 == self.kind@.dtype_size()
                    &&& final(buf)@ == put(old(buf)@, start as int, image)
                },
                Err(kind) => {
                    &&& r is Err
                    &&& r->Err_0@ == kind
                    &&& final(buf)@ == old(buf)@
                },
            },
    {
        proof {
            lemma_kind_lens(self.kind@);
        }
        let body: Vec<u8> = self.dtype_bytes()?;
        put_bytes(buf, start, &body);
        Ok(body.len())
    }

    /// Write the attribute's dataspace body; returns the number of bytes.
    pub fn write_dspace_body(&self, buf: &mut Vec<u8>, start: usize) -> (r: usize)
        requires
            start + self.kind@.dspace_size() <= old(buf)@.len(),
            self.kind@.wf(),
        ensures
            r == self.kind@.dspace_size(),
            final(buf)@ == put(old(buf)@, start as int, self.kind@.dspace_image()),
    {
        proof {
            lemma_kind_lens(self.kind@);
        }
        let body: Vec<u8> = self.dspace_bytes();
        put_bytes(buf, start, &body);
        body.len()
    }

    /// Write the attribute's data; returns the number of bytes.
    pub fn write_data(&self, buf: &mut Vec<u8>, start: usize) -> (r: usize)
        requires
            start + self.kind@.data_size() <= old(buf)@.len(),
            self.kind@.wf(),
        ensures
            r == self.kind@.data_size(),
            final(buf)@ == put(old(buf)@, start as int, self.kind@.data_image()),
    {
        proof {
            lemma_kind_lens(self.kind@);
        }
        let data: Vec<u8> = self.data_bytes();
        put_bytes(buf, start, &data);
        data.len()
    }
}

/// The width of a list of strings: that of the longest, and at least 1.
pub open spec fn width_of(values: Seq<Seq<u8>>) -> nat
    decreases values.len(),
{
    if values.len() == 0 {
        1
    } else {
        let front = width_of(values.drop_last());
        if values.last().len() > front {
            values.last().len()
        } else {
            front
        }
    }
}

/// Every string fits the width of its list.
pub proof fn law_width_holds_all(values: Seq<Seq<u8>>)
    ensures
        width_of(values) >= 1,
        all_fit(values, width_of(values)),
    decreases values.len(),
{
    if values.len() > 0 {
        let front = values.drop_last();
        law_width_holds_all(front);
        assert forall|i: int| 0 <= i < values.len() implies (#[trigger] values[i]).len()
            <= width_of(values) by {
            if i < values.len() - 1 {
                assert(front[i] == values[i]);
            }
        }
    }
}

/// The common width of a list of strings in bytes.
pub fn str_array_width(values: &[String]) -> (r: usize)
    ensures
        r == width_of(encoded(values@)),
{
    let ghost all = encoded(values@);
    let mut width: usize = 1;
    proof {
        assert(all.take(0) =~= Seq::<Seq<u8>>::empty());
    }
    for i in 0..values.len()
        invariant
            all == encoded(values@),
            width == width_of(all.take(i as int)),
    {
        let bytes = values[i].as_str().as_bytes();
        proof {
            assert(all.take(i + 1).drop_last() =~= all.take(i as int));
            assert(all.take(i + 1).last() == bytes@);
        }
        if bytes.len() > width {
            width = bytes.len();
        }
    }
    proof {
        assert(all.take(values@.len() as int) =~= all);
    }
    width
}

/// An attribute value ready to be written, object references not yet known.
pub open spec fn resolved_model(kind: AttrKind) -> AttrModel {
    match kind {
        AttrKind::FixedStr(s) => AttrModel::FixedStr(encode_utf8(s@)),
        AttrKind::F64(v) => AttrModel::F64(v),
        AttrKind::I64(v) => AttrModel::I64(v),
        AttrKind::I32(v) => AttrModel::I32(v),
        AttrKind::F64Array(values) => AttrModel::F64Array(values@),
        AttrKind::I64Array(values) => AttrModel::I64Array(values@),
        AttrKind::StrArray(values) => AttrModel::StrArray {
            values: encoded(values@),
            width: width_of(encoded(values@)),
        },
        AttrKind::ObjRefsByName(names) => AttrModel::ObjRefs(
            Seq::new(names@.len(), |i: int| UNDEFINED_ADDR),
        ),
    }
}

/// The paths that an attribute value refers to.
pub open spec fn target_names(kind: ResolvedAttrKind) -> Option<Seq<String>> {
    match kind {
        ResolvedAttrKind::ObjRefs { names, .. } => Some(names@),
        _ => None,
    }
}

/// The paths that an attribute value refers to.
pub open spec fn named_targets(kind: AttrKind) -> Option<Seq<String>> {
    match kind {
        AttrKind::ObjRefsByName(names) => Some(names@),
        _ => None,
    }
}

/// Whether `r` is the attribute `a` made ready.
pub open spec fn resolves(a: AttrDesc, r: ResolvedAttr) -> bool {
    &&& r.name@ == a.name@
    &&& r.kind@ == resolved_model(a.kind)
    &&& r.kind@.wf()
    &&& target_names(r.kind) == named_targets(a.kind)
}

/// Make attributes ready to be written; object references are filled in later.
pub fn resolve_attrs<'a>(attrs: &'a [AttrDesc]) -> (r: Vec<ResolvedAttr<'a>>)
    ensures
        r@.len() == attrs@.len(),
        forall|i: int| 0 <= i < attrs@.len() ==> resolves(#[trigger] attrs@[i], r@[i]),
{
    let mut resolved: Vec<ResolvedAttr<'a>> = Vec::new();
    for i in 0..attrs.len()
        invariant
            resolved@.len() == i,
            forall|k: int| 0 <= k < i ==> resolves(#[trigger] attrs@[k], resolved@[k]),
    {
        let attr = &attrs[i];
        let kind: ResolvedAttrKind<'a> = match &attr.kind {
            AttrKind::FixedStr(s) => ResolvedAttrKind::FixedStr(s.as_str()),
            AttrKind::F64(v) => ResolvedAttrKind::F64(*v),
            AttrKind::I64(v) => ResolvedAttrKind::I64(*v),
            AttrKind::I32(v) => ResolvedAttrKind::I32(*v),
            AttrKind::F64Array(values) => ResolvedAttrKind::F64Array(values.as_slice()),
            AttrKind::I64Array(values) => ResolvedAttrKind::I64Array(values.as_slice()),
            AttrKind::StrArray(values) => {
                proof {
                    law_width_holds_all(encoded(values@));
                }
                ResolvedAttrKind::StrArray {
                    values: values.as_slice(),
                    width: str_array_width(values),
                }
            },
            AttrKind::ObjRefsByName(names) => {
                let addrs: Vec<u64> = vec![UNDEFINED_ADDR; names.len()];
                proof {
                    assert(addrs@ =~= Seq::new(names@.len(), |i: int| UNDEFINED_ADDR));
                }
                ResolvedAttrKind::ObjRefs { names: names.as_slice(), addrs }
            },
        };
        resolved.push(ResolvedAttr { name: attr.name.as_str(), kind });
    }
    resolved
}

/// Object header addresses by path.
pub struct AddressMap {
    entries: Vec<(String, u64)>,
}

/// The latest entry for a path.
spec fn latest(entries: Seq<(String, u64)>, path: Seq<char>) -> Option<u64>
    decreases entries.len(),
{
    if entries.len() == 0 {
        None
    } else if entries.last().0@ == path {
        Some(entries.last().1)
    } else {
        latest(entries.drop_last(), path)
    }
}

impl View for AddressMap {
    type V = Map<Seq<char>, u64>;

    closed spec fn view(&self) -> Map<Seq<char>, u64> {
        Map::new(
            |path: Seq<char>| latest(self.entries@, path) is Some,
            |path: Seq<char>| latest(self.entries@, path)->0,
        )
    }
}

impl AddressMap {
    /// A map without entries.
    pub fn new() -> (r: AddressMap)
        ensures
            r@ == Map::<Seq<char>, u64>::empty(),
    {
        let r = AddressMap { entries: Vec::new() };
        proof {
            assert(r@ =~= Map::empty());
        }
        r
    }

    /// Set the address of a path.
    pub fn insert(&mut self, path: String, addr: u64)
        ensures
            final(self)@ == old(self)@.insert(path@, addr),
    {
        let ghost before = self@;
        let ghost entries = self.entries@;
        self.entries.push((path, addr));
        proof {
            assert(self.entries@.drop_last() =~= entries);
            assert(self@ =~= before.insert(path@, addr));
        }
    }

    /// Every path that has an address, each once.
    pub fn keys(&self) -> (r: Vec<String>)
        ensures
            forall|path: Seq<char>| #[trigger]
                views(r@).contains(path) <==> self@.contains_key(path),
            views(r@).no_duplicates(),
    {
        let ghost all = self.entries@;
        let n: usize = self.entries.len();
        let mut paths: Vec<String> = Vec::new();
        proof {
            assert(all.take(0) =~= Seq::<(String, u64)>::empty());
        }
        for i in 0..n
            invariant
                n == self.entries@.len(),
                all == self.entries@,
                views(paths@).no_duplicates(),
                forall|path: Seq<char>| #[trigger]
                    views(paths@).contains(path) <==> latest(all.take(i as int), path) is Some,
        {
            let path: &str = self.entries[i].0.as_str();
            let ghost before = views(paths@);
            proof {
                assert(all.take(i + 1).drop_last() =~= all.take(i as int));
                assert(all.take(i + 1).last() == all[i as int]);
            }
            if !holds_text(&paths, path) {
                paths.push(path.to_string());
                proof {
                    assert(views(paths@) =~= before.push(path@));
                    assert forall|other: Seq<char>| #[trigger]
                        views(paths@).contains(other) <==> (before.contains(other) || other
                            == path@) by {
                        if before.contains(other) {
                            let k = before.index_of(other);
                            assert(views(paths@)[k] == other);
                        }
                        assert(views(paths@)[before.len() as int] == path@);
                    }
                }
            }
        }
        proof {
            assert(all.take(n as int) =~= all);
        }
        paths
    }

    /// The address of a path.
    pub fn get(&self, path: &str) -> (r: Option<u64>)
        ensures
            r is Some <==> self@.contains_key(path@),
            r is Some ==> r->0 == self@[path@],
    {
        let ghost all = self.entries@;
        let mut left: usize = self.entries.len();
        proof {
            assert(all.take(left as int) =~= all);
        }
        while left > 0
            invariant
                left <= self.entries@.len(),
                all == self.entries@,
                latest(all.take(left as int), path@) == latest(all, path@),
            decreases left,
        {
            proof {
                assert(all.take(left as int).last() == all[left - 1]);
                assert(all.take(left as int).drop_last() =~= all.take(left - 1));
            }
            if same_text(self.entries[left - 1].0.as_str(), path) {
                return Some(self.entries[left - 1].1);
            }
            left -= 1;
        }
        None
    }
}

/// The addresses of the named objects; a leading slash does not count. `None` if
/// one names nothing.
pub open spec fn addresses_of(names: Seq<String>, map: Map<Seq<char>, u64>) -> Option<Seq<u64>> {
    if forall|i: int|
        0 <= i < names.len() ==> map.contains_key(without_slash((#[trigger] names[i])@)) {
        Some(Seq::new(names.len(), |i: int| map[without_slash(names[i]@)]))
    } else {
        None
    }
}

/// Whether an error names the attribute, and the first of the objects that it refers to
/// which is not there, each in quotes.
pub open spec fn tells_missing(
    e: OxiH5Error,
    attr_name: Seq<char>,
    names: Seq<String>,
    map: Map<Seq<char>, u64>,
) -> bool {
    exists|i: int|
        {
            &&& 0 <= i < names.len()
            &&& !map.contains_key(without_slash((#[trigger] names[i])@))
            &&& forall|k: int|
                0 <= k < i ==> map.contains_key(without_slash((#[trigger] names[k])@))
            &&& e.says(quoted(attr_name))
            &&& e.says(quoted(names[i]@))
        }
}

/// A text in quotes.
pub open spec fn quoted(text: Seq<char>) -> Seq<char> {
    "'"@ + text + "'"@
}

/// Compose the message on an object reference to nothing.
fn missing_target(attr_name: &str, target: &str) -> (r: OxiH5Error)
    ensures
        r@ == ErrorKind::Format,
        r.says(quoted(attr_name@)),
        r.says(quoted(target@)),
{
    let mut attr: String = "'".to_string();
    attr.append(attr_name);
    attr.append("'");
    let mut object: String = "'".to_string();
    object.append(target);
    object.append("'");
    let mut said: String = text_around(
        &["attribute "],
        attr.as_str(),
        &[": object reference target "],
    );
    let ghost head = said@;
    let rest: String = text_around(
        &[],
        object.as_str(),
        &[" names no dataset or group in the file"],
    );
    said.append(rest.as_str());
    proof {
        lemma_phrase_stays(head, rest@, attr@);
        let (before, after) = choose|before: Seq<char>, after: Seq<char>|
            rest@ == #[trigger] (before + object@ + after);
        assert(said@ =~= (head + before) + object@ + after);
    }
    OxiH5Error::Format(said)
}

/// Look up the addresses of the named objects.
fn look_up(attr_name: &str, names: &[String], map: &AddressMap) -> (r: Result<
    Vec<u64>,
    OxiH5Error,
>)
    ensures
        match addresses_of(names@, map@) {
            Some(addrs) => r is Ok && r->Ok_0@ == addrs,
            None => {
                &&& r is Err
                &&& r->Err_0@ == ErrorKind::Format
                &&& tells_missing(r->Err_0, attr_name@, names@, map@)
            },
        },
{
    let mut addrs: Vec<u64> = Vec::new();
    for i in 0..names.len()
        invariant
            addrs@.len() == i,
            forall|k: int|
                0 <= k < i ==> map@.contains_key(without_slash((#[trigger] names@[k])@)),
            forall|k: int|
                0 <= k < i ==> #[trigger] addrs@[k] == map@[without_slash(names@[k]@)],
    {
        match map.get(strip_slash(names[i].as_str())) {
            Some(addr) => {
                addrs.push(addr);
            },
            None => {
                let e: OxiH5Error = missing_target(attr_name, names[i].as_str());
                assert(e.says(quoted(names@[i as int]@)));
                return Err(e);
            },
        }
    }
    proof {
        assert(addrs@ =~= Seq::new(names@.len(), |i: int| map@[without_slash(names@[i]@)]));
    }
    Ok(addrs)
}

/// An attribute value with its object references looked up.
pub open spec fn filled(kind: ResolvedAttrKind, map: Map<Seq<char>, u64>) -> Option<AttrModel> {
    match target_names(kind) {
        None => Some(kind@),
        Some(names) => match addresses_of(names, map) {
            Some(addrs) => Some(AttrModel::ObjRefs(addrs)),
            None => None,
        },
    }
}

/// Look up the object references of all attributes.
///
/// Each name gives exactly one address, so no attribute changes its size. A name
/// of nothing is an error, which names the attribute and the object.
pub fn fill_obj_refs<'a>(attrs: &mut Vec<ResolvedAttr<'a>>, path_to_addr: &AddressMap) -> (r:
    Result<(), OxiH5Error>)
    ensures
        final(attrs)@.len() == old(attrs)@.len(),
        r is Ok <==> forall|i: int|
            0 <= i < old(attrs)@.len() ==> filled(
                (#[trigger] old(attrs)@[i]).kind,
                path_to_addr@,
            ) is Some,
        r is Ok ==> forall|i: int|
            0 <= i < old(attrs)@.len() ==> {
                &&& (#[trigger] final(attrs)@[i]).name == old(attrs)@[i].name
                &&& Some(final(attrs)@[i].kind@) == filled(old(attrs)@[i].kind, path_to_addr@)
                &&& target_names(final(attrs)@[i].kind) == target_names(old(attrs)@[i].kind)
            },
        r is Err ==> r->Err_0@ == ErrorKind::Format,
        r is Err ==> exists|i: int|
            {
                let attr = #[trigger] old(attrs)@[i];
                &&& 0 <= i < old(attrs)@.len()
                &&& forall|k: int|
                    0 <= k < i ==> filled((#[trigger] old(attrs)@[k]).kind, path_to_addr@) is Some
                &&& target_names(attr.kind) is Some
                &&& tells_missing(
                    r->Err_0,
                    attr.name@,
                    target_names(attr.kind)->0,
                    path_to_addr@,
                )
            },
{
    let ghost before = attrs@;
    let n: usize = attrs.len();
    for i in 0..n
        invariant
            n == before.len(),
            before == old(attrs)@,
            attrs@.len() == before.len(),
            forall|k: int| i <= k < before.len() ==> #[trigger] attrs@[k] == before[k],
            forall|k: int|
                0 <= k < i ==> filled((#[trigger] before[k]).kind, path_to_addr@) is Some,
            forall|k: int|
                0 <= k < i ==> filled_from(#[trigger] attrs@[k], before[k], path_to_addr@),
    {
        let name: &'a str = attrs[i].name;
        let found: Option<&'a [String]> = match &attrs[i].kind {
            ResolvedAttrKind::ObjRefs { names, .. } => Some(*names),
            _ => None,
        };
        if let Some(names) = found {
            let addrs: Vec<u64> = match look_up(name, names, path_to_addr) {
                Ok(addrs) => addrs,
                Err(e) => {
                    assert(filled(before[i as int].kind, path_to_addr@) is None);
                    return Err(e);
                },
            };
            attrs.set(i, ResolvedAttr { name, kind: ResolvedAttrKind::ObjRefs { names, addrs } });
        }
        assert(filled_from(attrs@[i as int], before[i as int], path_to_addr@));
    }
    proof {
        assert forall|i: int| 0 <= i < before.len() implies {
            &&& (#[trigger] attrs@[i]).name == before[i].name
            &&& Some(attrs@[i].kind@) == filled(before[i].kind, path_to_addr@)
            &&& target_names(attrs@[i].kind) == target_names(before[i].kind)
        } by {
            assert(filled_from(attrs@[i], before[i], path_to_addr@));
        }
    }
    Ok(())
}

/// `a` is `b` with its object references looked up.
pub open spec fn filled_from(a: ResolvedAttr, b: ResolvedAttr, map: Map<Seq<char>, u64>) -> bool {
    &&& a.name == b.name
    &&& Some(a.kind@) == filled(b.kind, map)
    &&& target_names(a.kind) == target_names(b.kind)
}

/// Looking up object references changes no attribute's size.
pub proof fn law_filling_keeps_sizes(
    a: ResolvedAttr,
    b: ResolvedAttr,
    map: Map<Seq<char>, u64>,
)
    requires
        filled_from(a, b, map),
        target_names(b.kind) is Some ==> b.kind@->ObjRefs_0.len() == target_names(b.kind)->0.len(),
    ensures
        attr_body_len(encode_utf8(a.name@), a.kind@) == attr_body_len(
            encode_utf8(b.name@),
            b.kind@,
        ),
{
}

} // verus!
