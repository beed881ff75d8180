//! Datasets in memory: raw elements with their shape and type.

use vstd::prelude::*;
use vstd::slice::slice_to_vec;
use crate::bytes::{
    be_at, get_be, get_le, le_at, lemma_be_at_bound, lemma_le_at_bound, lemma_pow256_values, pow256,
    push_zeros, put, put_bytes, to_signed, twos_complement,
};
use crate::chunked::{lemma_byte, lemma_byte_of, lemma_element_byte_bounds, plus};
use crate::dims::{
    flat_to_coords, in_box, ints, ints64, law_rank_then_unrank, law_strides_unrank,
    law_unrank_then_rank, lemma_product_monotone, lemma_product_zero, lemma_strides_fit,
    non_negative, product, product_fits, rank, row_major_strides, strides_of, total, unrank,
};
use crate::dtype::{views, ByteOrder, Dtype, DtypeModel};
use crate::error::{outcome, outcomes, text, try_each, lemma_try_each_fails, ErrorKind, OxiH5Error};
use crate::float::{f16_to_f32, half_to_single};
use crate::object::{Attribute, AttributeModel};
use crate::utf8::{as_text, find_nul, same_text};
use crate::values::{element, text_in};

verus! {

/// The elements of a dataset, in row-major order, with their shape and type.
#[derive(Debug)]
pub struct Dataset {
    pub data: Vec<u8>,
    pub shape: Vec<usize>,
    pub dtype: Dtype,
    pub attributes: Vec<Attribute>,
}

/// A [`Dataset`] as a mathematical value.
pub struct DatasetModel {
    pub data: Seq<u8>,
    pub shape: Seq<int>,
    pub dtype: DtypeModel,
    pub attributes: Seq<AttributeModel>,
}

impl View for Dataset {
    type V = DatasetModel;

    open spec fn view(&self) -> DatasetModel {
        DatasetModel {
            data: self.data@,
            shape: ints(self.shape@),
            dtype: self.dtype@,
            attributes: views(self.attributes@),
        }
    }
}

/// The first attribute of that name.
pub open spec fn attribute_named(attributes: Seq<AttributeModel>, name: Seq<char>) -> Option<
    AttributeModel,
>
    decreases attributes.len(),
{
    if attributes.len() == 0 {
        None
    } else if attributes[0].name == name {
        Some(attributes[0])
    } else {
        attribute_named(attributes.skip(1), name)
    }
}

/// Equal attributes.
pub fn copy_attributes(attributes: &[Attribute]) -> (r: Vec<Attribute>)
    ensures
        views(r@) == views(attributes@),
{
    let mut copied: Vec<Attribute> = Vec::new();
    for i in 0..attributes.len()
        invariant
            copied@.len() == i,
            forall|k: int| 0 <= k < i ==> (#[trigger] copied@[k])@ == attributes@[k]@,
    {
        copied.push(attributes[i].clone());
    }
    proof {
        assert(views(copied@) =~= views(attributes@));
    }
    copied
}

/// The unsigned integer of `n` bytes at `pos`.
pub open spec fn word_at(data: Seq<u8>, pos: int, n: nat, order: ByteOrder) -> nat {
    match order {
        ByteOrder::Little => le_at(data, pos, n),
        ByteOrder::Big => be_at(data, pos, n),
    }
}

/// The byte order of an integer type of that size and sign; `None` for any other
/// type.
pub open spec fn int_order(m: DtypeModel, size: nat, signed: bool) -> Option<ByteOrder> {
    match m {
        DtypeModel::Int { size: s, signed: g, order } if s == size && g == signed => Some(order),
        _ => None,
    }
}

/// The byte order of a floating-point type of that size; `None` for any other type.
pub open spec fn float_order(m: DtypeModel, size: nat) -> Option<ByteOrder> {
    match m {
        DtypeModel::Float { size: s, order } if s == size => Some(order),
        _ => None,
    }
}

/// The elements of `size` bytes each, if the type is right and they are all whole.
pub open spec fn words_in(data: Seq<u8>, size: nat, order: Option<ByteOrder>) -> Result<
    Seq<nat>,
    ErrorKind,
> {
    match order {
        None => Err(ErrorKind::TypeMismatch),
        Some(order) => if data.len() % size != 0 {
            Err(ErrorKind::DataTruncated)
        } else {
            Ok(Seq::new(data.len() / size, |i: int| word_at(data, i * size, size, order)))
        },
    }
}

/// Apply `f` to every element, where there are elements.
pub open spec fn mapped<A, B>(r: Result<Seq<A>, ErrorKind>, f: spec_fn(A) -> B) -> Result<
    Seq<B>,
    ErrorKind,
> {
    match r {
        Ok(items) => Ok(Seq::new(items.len(), |i: int| f(items[i]))),
        Err(kind) => Err(kind),
    }
}

/// Read the elements of `size` bytes each.
fn read_words(data: &[u8], size: usize, order: Option<ByteOrder>) -> (r: Result<
    Vec<u64>,
    OxiH5Error,
>)
    requires
        size == 1 || size == 2 || size == 4 || size == 8,
    ensures
        match words_in(data@, size as nat, order) {
            Ok(words) => {
                &&& r is Ok
                &&& r->Ok_0@.len() == words.len()
                &&& forall|i: int| 0 <= i < words.len() ==> #[trigger] r->Ok_0@[i] == words[i]
                &&& forall|i: int| 0 <= i < words.len() ==> #[trigger] words[i] < pow256(size as nat)
            },
            Err(kind) => r is Err && r->Err_0@ == kind,
        },
{
    let order: ByteOrder = match order {
        Some(order) => order,
        None => {
            return Err(OxiH5Error::TypeMismatch);
        },
    };
    if data.len() % size != 0 {
        return Err(OxiH5Error::DataTruncated);
    }
    assert(data.len() <= usize::MAX);
    let n: usize = data.len() / size;
    let mut words: Vec<u64> = Vec::new();
    for i in 0..n
        invariant
            size == 1 || size == 2 || size == 4 || size == 8,
            n == data@.len() / size as nat,
            data@.len() % size as nat == 0,
            data@.len() <= usize::MAX,
            words@.len() == i,
            forall|k: int|
                0 <= k < i ==> #[trigger] words@[k] == word_at(
                    data@,
                    k * size,
                    size as nat,
                    order,
                ),
            forall|k: int|
                0 <= k < i ==> #[trigger] word_at(data@, k * size, size as nat, order) < pow256(
                    size as nat,
                ),
    {
        proof {
            lemma_le_at_bound(data@, i * size, size as nat);
            lemma_be_at_bound(data@, i * size, size as nat);
            assert(i * size + size <= data@.len()) by {
                lemma_byte(data@.len() as int, size as int);
                assert((i + 1) * size <= n * size) by (nonlinear_arith)
                    requires
                        i + 1 <= n,
                ;
                assert((i + 1) * size == i * size + size) by (nonlinear_arith);
            }
        }
        let word: u64 = match order {
            ByteOrder::Little => get_le(data, i * size, size),
            ByteOrder::Big => get_be(data, i * size, size),
        };
        words.push(word);
    }
    Ok(words)
}

impl Dataset {
    /// All attributes of the dataset.
    pub fn attrs(&self) -> (r: &[Attribute])
        ensures
            views(r@) == self@.attributes,
    {
        self.attributes.as_slice()
    }

    /// The first attribute of that name.
    pub fn attr(&self, name: &str) -> (r: Option<&Attribute>)
        ensures
            match r {
                Some(a) => attribute_named(self@.attributes, name@) == Some(a@),
                None => attribute_named(self@.attributes, name@) is None,
            },
    {
        let ghost all = self@.attributes;
        proof {
            assert(all.skip(0) =~= all);
        }
        for i in 0..self.attributes.len()
            invariant
                all == views(self.attributes@),
                attribute_named(all, name@) == attribute_named(all.skip(i as int), name@),
        {
            proof {
                assert(all.skip(i as int)[0] == self.attributes@[i as int]@);
                assert(all.skip(i as int).skip(1) =~= all.skip(i + 1));
            }
            if same_text(self.attributes[i].name.as_str(), name) {
                return Some(&self.attributes[i]);
            }
        }
        None
    }

    /// The number of elements.
    pub fn len(&self) -> (r: usize)
        requires
            product_fits(self@.shape),
        ensures
            r == product(self@.shape),
    {
        total(&self.shape)
    }

    /// Whether there are no elements.
    pub fn is_empty(&self) -> (r: bool)
        requires
            product_fits(self@.shape),
        ensures
            r == (product(self@.shape) == 0),
    {
        self.len() == 0
    }

    fn int_order(&self, size: usize, signed: bool) -> (r: Option<ByteOrder>)
        ensures
            r == int_order(self@.dtype, size as nat, signed),
    {
        match &self.dtype {
            Dtype::Int { size: s, signed: g, order } => if *s == size && *g == signed {
                Some(*order)
            } else {
                None
            },
            _ => None,
        }
    }

    fn float_order(&self, size: usize) -> (r: Option<ByteOrder>)
        ensures
            r == float_order(self@.dtype, size as nat),
    {
        match &self.dtype {
            Dtype::Float { size: s, order } => if *s == size {
                Some(*order)
            } else {
                None
            },
            _ => None,
        }
    }

    /// The elements of a dataset of `i32`.
    pub fn as_i32(&self) -> (r: Result<Vec<i32>, OxiH5Error>)
        ensures
            outcome(r) == mapped(
                words_in(self@.data, 4, int_order(self@.dtype, 4, true)),
                |v: nat| twos_complement(v, 4) as i32,
            ),
    {
        proof {
            lemma_pow256_values();
        }
        let words: Vec<u64> = read_words(&self.data, 4, self.int_order(4, true))?;
        let ghost all = words_in(self@.data, 4, int_order(self@.dtype, 4, true))->Ok_0;
        let mut out: Vec<i32> = Vec::new();
        for i in 0..words.len()
            invariant
                pow256(4) == 0x100000000,
                words@.len() == all.len(),
                forall|k: int| 0 <= k < all.len() ==> #[trigger] words@[k] == all[k],
                forall|k: int| 0 <= k < all.len() ==> #[trigger] all[k] < pow256(4),
                out@.len() == i,
                forall|k: int| 0 <= k < i ==> #[trigger] out@[k] == (|v: nat| twos_complement(v, 4) as i32)(all[k]),
        {
            assert(words@[i as int] == all[i as int]);
            out.push(to_signed(words[i], 4) as i32);
        }
        proof {
            assert(out@ =~= Seq::new(all.len(), |i: int| (|v: nat| twos_complement(v, 4) as i32)(all[i])));
        }
        Ok(out)
    }

    /// The elements of a dataset of `u8`.
    pub fn as_u8(&self) -> (r: Result<Vec<u8>, OxiH5Error>)
        ensures
            outcome(r) == mapped(
                words_in(self@.data, 1, int_order(self@.dtype, 1, false)),
                |v: nat| v as u8,
            ),
    {
        proof {
            lemma_pow256_values();
        }
        let words: Vec<u64> = read_words(&self.data, 1, self.int_order(1, false))?;
        let ghost all = words_in(self@.data, 1, int_order(self@.dtype, 1, false))->Ok_0;
        let mut out: Vec<u8> = Vec::new();
        for i in 0..words.len()
            invariant
                pow256(1) == 0x100,
                words@.len() == all.len(),
                forall|k: int| 0 <= k < all.len() ==> #[trigger] words@[k] == all[k],
                forall|k: int| 0 <= k < all.len() ==> #[trigger] all[k] < pow256(1),
                out@.len() == i,
                forall|k: int| 0 <= k < i ==> #[trigger] out@[k] == (|v: nat| v as u8)(all[k]),
        {
            assert(words@[i as int] == all[i as int]);
            out.push(words[i] as u8);
        }
        proof {
            assert(out@ =~= Seq::new(all.len(), |i: int| (|v: nat| v as u8)(all[i])));
        }
        Ok(out)
    }

    /// The elements of a dataset of `u16`.
    pub fn as_u16(&self) -> (r: Result<Vec<u16>, OxiH5Error>)
        ensures
            outcome(r) == mapped(
                words_in(self@.data, 2, int_order(self@.dtype, 2, false)),
                |v: nat| v as u16,
            ),
    {
        proof {
            lemma_pow256_values();
        }
        let words: Vec<u64> = read_words(&self.data, 2, self.int_order(2, false))?;
        let ghost all = words_in(self@.data, 2, int_order(self@.dtype, 2, false))->Ok_0;
        let mut out: Vec<u16> = Vec::new();
        for i in 0..words.len()
            invariant
                pow256(2) == 0x10000,
                words@.len() == all.len(),
                forall|k: int| 0 <= k < all.len() ==> #[trigger] words@[k] == all[k],
                forall|k: int| 0 <= k < all.len() ==> #[trigger] all[k] < pow256(2),
                out@.len() == i,
                forall|k: int| 0 <= k < i ==> #[trigger] out@[k] == (|v: nat| v as u16)(all[k]),
        {
            assert(words@[i as int] == all[i as int]);
            out.push(words[i] as u16);
        }
        proof {
            assert(out@ =~= Seq::new(all.len(), |i: int| (|v: nat| v as u16)(all[i])));
        }
        Ok(out)
    }

    /// The elements of a dataset of `u32`.
    pub fn as_u32(&self) -> (r: Result<Vec<u32>, OxiH5Error>)
        ensures
            outcome(r) == mapped(
                words_in(self@.data, 4, int_order(self@.dtype, 4, false)),
                |v: nat| v as u32,
            ),
    {
        proof {
            lemma_pow256_values();
        }
        let words: Vec<u64> = read_words(&self.data, 4, self.int_order(4, false))?;
        let ghost all = words_in(self@.data, 4, int_order(self@.dtype, 4, false))->Ok_0;
        let mut out: Vec<u32> = Vec::new();
        for i in 0..words.len()
            invariant
                pow256(4) == 0x100000000,
                words@.len() == all.len(),
                forall|k: int| 0 <= k < all.len() ==> #[trigger] words@[k] == all[k],
                forall|k: int| 0 <= k < all.len() ==> #[trigger] all[k] < pow256(4),
                out@.len() == i,
                forall|k: int| 0 <= k < i ==> #[trigger] out@[k] == (|v: nat| v as u32)(all[k]),
        {
            assert(words@[i as int] == all[i as int]);
            out.push(words[i] as u32);
        }
        proof {
            assert(out@ =~= Seq::new(all.len(), |i: int| (|v: nat| v as u32)(all[i])));
        }
        Ok(out)
    }

    /// The elements of a dataset of `u64`.
    pub fn as_u64(&self) -> (r: Result<Vec<u64>, OxiH5Error>)
        ensures
            outcome(r) == mapped(
                words_in(self@.data, 8, int_order(self@.dtype, 8, false)),
                |v: nat| v as u64,
            ),
    {
        proof {
            lemma_pow256_values();
        }
        let words: Vec<u64> = read_words(&self.data, 8, self.int_order(8, false))?;
        let ghost all = words_in(self@.data, 8, int_order(self@.dtype, 8, false))->Ok_0;
        let mut out: Vec<u64> = Vec::new();
        for i in 0..words.len()
            invariant
                pow256(8) == 0x10000000000000000,
                words@.len() == all.len(),
                forall|k: int| 0 <= k < all.len() ==> #[trigger] words@[k] == all[k],
                forall|k: int| 0 <= k < all.len() ==> #[trigger] all[k] < pow256(8),
                out@.len() == i,
                forall|k: int| 0 <= k < i ==> #[trigger] out@[k] == (|v: nat| v as u64)(all[k]),
        {
            assert(words@[i as int] == all[i as int]);
            out.push(words[i]);
        }
        proof {
            assert(out@ =~= Seq::new(all.len(), |i: int| (|v: nat| v as u64)(all[i])));
        }
        Ok(out)
    }

    /// The elements of a dataset of `i8`.
    pub fn as_i8(&self) -> (r: Result<Vec<i8>, OxiH5Error>)
        ensures
            outcome(r) == mapped(
                words_in(self@.data, 1, int_order(self@.dtype, 1, true)),
                |v: nat| twos_complement(v, 1) as i8,
            ),
    {
        proof {
            lemma_pow256_values();
        }
        let words: Vec<u64> = read_words(&self.data, 1, self.int_order(1, true))?;
        let ghost all = words_in(self@.data, 1, int_order(self@.dtype, 1, true))->Ok_0;
        let mut out: Vec<i8> = Vec::new();
        for i in 0..words.len()
            invariant
                pow256(1) == 0x100,
                words@.len() == all.len(),
                forall|k: int| 0 <= k < all.len() ==> #[trigger] words@[k] == all[k],
                forall|k: int| 0 <= k < all.len() ==> #[trigger] all[k] < pow256(1),
                out@.len() == i,
                forall|k: int| 0 <= k < i ==> #[trigger] out@[k] == (|v: nat| twos_complement(v, 1) as i8)(all[k]),
        {
            assert(words@[i as int] == all[i as int]);
            out.push(to_signed(words[i], 1) as i8);
        }
        proof {
            assert(out@ =~= Seq::new(all.len(), |i: int| (|v: nat| twos_complement(v, 1) as i8)(all[i])));
        }
        Ok(out)
    }

    /// The elements of a dataset of `i16`.
    pub fn as_i16(&self) -> (r: Result<Vec<i16>, OxiH5Error>)
        ensures
            outcome(r) == mapped(
                words_in(self@.data, 2, int_order(self@.dtype, 2, true)),
                |v: nat| twos_complement(v, 2) as i16,
            ),
    {
        proof {
            lemma_pow256_values();
        }
        let words: Vec<u64> = read_words(&self.data, 2, self.int_order(2, true))?;
        let ghost all = words_in(self@.data, 2, int_order(self@.dtype, 2, true))->Ok_0;
        let mut out: Vec<i16> = Vec::new();
        for i in 0..words.len()
            invariant
                pow256(2) == 0x10000,
                words@.len() == all.len(),
                forall|k: int| 0 <= k < all.len() ==> #[trigger] words@[k] == all[k],
                forall|k: int| 0 <= k < all.len() ==> #[trigger] all[k] < pow256(2),
                out@.len() == i,
                forall|k: int| 0 <= k < i ==> #[trigger] out@[k] == (|v: nat| twos_complement(v, 2) as i16)(all[k]),
        {
            assert(words@[i as int] == all[i as int]);
            out.push(to_signed(words[i], 2) as i16);
        }
        proof {
            assert(out@ =~= Seq::new(all.len(), |i: int| (|v: nat| twos_complement(v, 2) as i16)(all[i])));
        }
        Ok(out)
    }

    /// The elements of a dataset of `i64`.
    pub fn as_i64(&self) -> (r: Result<Vec<i64>, OxiH5Error>)
        ensures
            outcome(r) == mapped(
                words_in(self@.data, 8, int_order(self@.dtype, 8, true)),
                |v: nat| twos_complement(v, 8) as i64,
            ),
    {
        proof {
            lemma_pow256_values();
        }
        let words: Vec<u64> = read_words(&self.data, 8, self.int_order(8, true))?;
        let ghost all = words_in(self@.data, 8, int_order(self@.dtype, 8, true))->Ok_0;
        let mut out: Vec<i64> = Vec::new();
        for i in 0..words.len()
            invariant
                pow256(8) == 0x10000000000000000,
                words@.len() == all.len(),
                forall|k: int| 0 <= k < all.len() ==> #[trigger] words@[k] == all[k],
                forall|k: int| 0 <= k < all.len() ==> #[trigger] all[k] < pow256(8),
                out@.len() == i,
                forall|k: int| 0 <= k < i ==> #[trigger] out@[k] == (|v: nat| twos_complement(v, 8) as i64)(all[k]),
        {
            assert(words@[i as int] == all[i as int]);
            out.push(to_signed(words[i], 8));
        }
        proof {
            assert(out@ =~= Seq::new(all.len(), |i: int| (|v: nat| twos_complement(v, 8) as i64)(all[i])));
        }
        Ok(out)
    }

    /// The elements of a dataset of `f32`, as bits.
    pub fn as_f32(&self) -> (r: Result<Vec<u32>, OxiH5Error>)
        ensures
            outcome(r) == mapped(
                words_in(self@.data, 4, float_order(self@.dtype, 4)),
                |v: nat| v as u32,
            ),
    {
        proof {
            lemma_pow256_values();
        }
        let words: Vec<u64> = read_words(&self.data, 4, self.float_order(4))?;
        let ghost all = words_in(self@.data, 4, float_order(self@.dtype, 4))->Ok_0;
        let mut out: Vec<u32> = Vec::new();
        for i in 0..words.len()
            invariant
                pow256(4) == 0x100000000,
                words@.len() == all.len(),
                forall|k: int| 0 <= k < all.len() ==> #[trigger] words@[k] == all[k],
                forall|k: int| 0 <= k < all.len() ==> #[trigger] all[k] < pow256(4),
                out@.len() == i,
                forall|k: int| 0 <= k < i ==> #[trigger] out@[k] == (|v: nat| v as u32)(all[k]),
        {
            assert(words@[i as int] == all[i as int]);
            out.push(words[i] as u32);
        }
        proof {
            assert(out@ =~= Seq::new(all.len(), |i: int| (|v: nat| v as u32)(all[i])));
        }
        Ok(out)
    }

    /// The elements of a dataset of `f64`, as bits.
    pub fn as_f64(&self) -> (r: Result<Vec<u64>, OxiH5Error>)
        ensures
            outcome(r) == mapped(
                words_in(self@.data, 8, float_order(self@.dtype, 8)),
                |v: nat| v as u64,
            ),
    {
        proof {
            lemma_pow256_values();
        }
        let words: Vec<u64> = read_words(&self.data, 8, self.float_order(8))?;
        let ghost all = words_in(self@.data, 8, float_order(self@.dtype, 8))->Ok_0;
        let mut out: Vec<u64> = Vec::new();
        for i in 0..words.len()
            invariant
                pow256(8) == 0x10000000000000000,
                words@.len() == all.len(),
                forall|k: int| 0 <= k < all.len() ==> #[trigger] words@[k] == all[k],
                forall|k: int| 0 <= k < all.len() ==> #[trigger] all[k] < pow256(8),
                out@.len() == i,
                forall|k: int| 0 <= k < i ==> #[trigger] out@[k] == (|v: nat| v as u64)(all[k]),
        {
            assert(words@[i as int] == all[i as int]);
            out.push(words[i]);
        }
        proof {
            assert(out@ =~= Seq::new(all.len(), |i: int| (|v: nat| v as u64)(all[i])));
        }
        Ok(out)
    }

    /// The elements of a dataset of half-precision numbers, as the bits of single-precision
    /// numbers of the same value.
    pub fn as_f16(&self) -> (r: Result<Vec<u32>, OxiH5Error>)
        ensures
            outcome(r) == mapped(
                words_in(self@.data, 2, float_order(self@.dtype, 2)),
                |v: nat| half_to_single(v as u16) as u32,
            ),
    {
        proof {
            lemma_pow256_values();
        }
        let words: Vec<u64> = read_words(&self.data, 2, self.float_order(2))?;
        let ghost all = words_in(self@.data, 2, float_order(self@.dtype, 2))->Ok_0;
        let mut out: Vec<u32> = Vec::new();
        for i in 0..words.len()
            invariant
                pow256(2) == 0x10000,
                words@.len() == all.len(),
                forall|k: int| 0 <= k < all.len() ==> #[trigger] words@[k] == all[k],
                forall|k: int| 0 <= k < all.len() ==> #[trigger] all[k] < pow256(2),
                out@.len() == i,
                forall|k: int| 0 <= k < i ==> #[trigger] out@[k] == (|v: nat| half_to_single(v as u16) as u32)(all[k]),
        {
            assert(words@[i as int] == all[i as int]);
            out.push(f16_to_f32(words[i] as u16));
        }
        proof {
            assert(out@ =~= Seq::new(all.len(), |i: int| (|v: nat| half_to_single(v as u16) as u32)(all[i])));
        }
        Ok(out)
    }

    /// The elements that [`Dataset::as_i32`] gives, one after the other.
    pub fn iter_i32(&self) -> (r: Result<Vec<i32>, OxiH5Error>)
        ensures
            outcome(r) == mapped(
                words_in(self@.data, 4, int_order(self@.dtype, 4, true)),
                |v: nat| twos_complement(v, 4) as i32,
            ),
    {
        self.as_i32()
    }

    /// The elements that [`Dataset::as_u8`] gives, one after the other.
    pub fn iter_u8(&self) -> (r: Result<Vec<u8>, OxiH5Error>)
        ensures
            outcome(r) == mapped(
                words_in(self@.data, 1, int_order(self@.dtype, 1, false)),
                |v: nat| v as u8,
            ),
    {
        self.as_u8()
    }

    /// The elements that [`Dataset::as_u16`] gives, one after the other.
    pub fn iter_u16(&self) -> (r: Result<Vec<u16>, OxiH5Error>)
        ensures
            outcome(r) == mapped(
                words_in(self@.data, 2, int_order(self@.dtype, 2, false)),
                |v: nat| v as u16,
            ),
    {
        self.as_u16()
    }

    /// The elements that [`Dataset::as_u32`] gives, one after the other.
    pub fn iter_u32(&self) -> (r: Result<Vec<u32>, OxiH5Error>)
        ensures
            outcome(r) == mapped(
                words_in(self@.data, 4, int_order(self@.dtype, 4, false)),
                |v: nat| v as u32,
            ),
    {
        self.as_u32()
    }

    /// The elements that [`Dataset::as_u64`] gives, one after the other.
    pub fn iter_u64(&self) -> (r: Result<Vec<u64>, OxiH5Error>)
        ensures
            outcome(r) == mapped(
                words_in(self@.data, 8, int_order(self@.dtype, 8, false)),
                |v: nat| v as u64,
            ),
    {
        self.as_u64()
    }

    /// The elements that [`Dataset::as_i8`] gives, one after the other.
    pub fn iter_i8(&self) -> (r: Result<Vec<i8>, OxiH5Error>)
        ensures
            outcome(r) == mapped(
                words_in(self@.data, 1, int_order(self@.dtype, 1, true)),
                |v: nat| twos_complement(v, 1) as i8,
            ),
    {
        self.as_i8()
    }

    /// The elements that [`Dataset::as_i16`] gives, one after the other.
    pub fn iter_i16(&self) -> (r: Result<Vec<i16>, OxiH5Error>)
        ensures
            outcome(r) == mapped(
                words_in(self@.data, 2, int_order(self@.dtype, 2, true)),
                |v: nat| twos_complement(v, 2) as i16,
            ),
    {
        self.as_i16()
    }

    /// The elements that [`Dataset::as_i64`] gives, one after the other.
    pub fn iter_i64(&self) -> (r: Result<Vec<i64>, OxiH5Error>)
        ensures
            outcome(r) == mapped(
                words_in(self@.data, 8, int_order(self@.dtype, 8, true)),
                |v: nat| twos_complement(v, 8) as i64,
            ),
    {
        self.as_i64()
    }

    /// The elements that [`Dataset::as_f32`] gives, one after the other.
    pub fn iter_f32(&self) -> (r: Result<Vec<u32>, OxiH5Error>)
        ensures
            outcome(r) == mapped(
                words_in(self@.data, 4, float_order(self@.dtype, 4)),
                |v: nat| v as u32,
            ),
    {
        self.as_f32()
    }

    /// The elements that [`Dataset::as_f64`] gives, one after the other.
    pub fn iter_f64(&self) -> (r: Result<Vec<u64>, OxiH5Error>)
        ensures
            outcome(r) == mapped(
                words_in(self@.data, 8, float_order(self@.dtype, 8)),
                |v: nat| v as u64,
            ),
    {
        self.as_f64()
    }

    /// The elements that [`Dataset::as_f16`] gives, one after the other.
    pub fn iter_f16(&self) -> (r: Result<Vec<u32>, OxiH5Error>)
        ensures
            outcome(r) == mapped(
                words_in(self@.data, 2, float_order(self@.dtype, 2)),
                |v: nat| half_to_single(v as u16) as u32,
            ),
    {
        self.as_f16()
    }

    /// The elements of a dataset of fixed-length strings, each up to its first zero
    /// byte.
    pub fn as_string(&self) -> (r: Result<Vec<String>, OxiH5Error>)
        ensures
            outcomes(r) == strings_in(self@.data, self@.dtype),
    {
        let n: usize = match &self.dtype {
            Dtype::String { fixed_len: Some(n), .. } => *n,
            Dtype::String { fixed_len: None, .. } => {
                return Err(OxiH5Error::NotImplemented("VarLen string decode".to_string()));
            },
            _ => {
                return Err(OxiH5Error::TypeMismatch);
            },
        };
        if n == 0 {
            return Err(OxiH5Error::Format("fixed string length is zero".to_string()));
        }
        if self.data.len() % n != 0 {
            return Err(OxiH5Error::DataTruncated);
        }
        decode_strings(&self.data, n)
    }

    /// The size of one element of a fixed-width type.
    pub(crate) fn dtype_size(&self) -> (r: Result<usize, OxiH5Error>)
        ensures
            match plain_size(self@.dtype) {
                Ok(n) => r is Ok && r->Ok_0 == n,
                Err(kind) => r is Err && r->Err_0@ == kind,
            },
    {
        match &self.dtype {
            Dtype::Int { size, .. } => Ok(*size),
            Dtype::Float { size, .. } => Ok(*size),
            Dtype::Bitfield { size, .. } => Ok(*size),
            Dtype::Opaque { size, .. } => Ok(*size),
            Dtype::String { fixed_len: Some(n), .. } => Ok(*n),
            _ => Err(OxiH5Error::NotImplemented("dtype_size for this type".to_string())),
        }
    }

    /// The part of the dataset that lies in `ranges`, one for each dimension.
    pub fn slice(&self, ranges: &[std::ops::Range<usize>]) -> (r: Result<Dataset, OxiH5Error>)
        requires
            can_cut(self@, ranges@),
        ensures
            outcome(r) == cut(self@, ranges@),
    {
        let ndims: usize = self.shape.len();
        if ranges.len() != ndims {
            return Err(
                OxiH5Error::Format(
                    text(
                        &[
                            "slice: ",
                            &ranges.len().to_string(),
                            " ranges for ",
                            &ndims.to_string(),
                            " dimensions",
                        ],
                    ),
                ),
            );
        }
        let mut shape: Vec<usize> = Vec::new();
        let mut wide: Vec<u64> = Vec::new();
        let mut source: Vec<u64> = Vec::new();
        let ghost begin = range_starts(ranges@);
        let ghost want = range_lengths(ranges@);
        for d in 0..ndims
            invariant
                ndims == self.shape@.len() == ranges@.len(),
                want == range_lengths(ranges@),
                forall|k: int|
                    0 <= k < d ==> #[trigger] range_within(ranges@[k], self@.shape[k]),
                shape@.len() == d,
                wide@.len() == d,
                source@.len() == d,
                forall|k: int| 0 <= k < d ==> #[trigger] shape@[k] == want[k],
                forall|k: int| 0 <= k < d ==> #[trigger] wide@[k] == want[k],
                forall|k: int| 0 <= k < d ==> #[trigger] source@[k] == self.shape@[k],
        {
            let start: usize = ranges[d].start;
            let end: usize = ranges[d].end;
            if start > end || end > self.shape[d] {
                assert(!range_within(ranges@[d as int], self@.shape[d as int]));
                return Err(
                    OxiH5Error::Format(
                        text(
                            &[
                                "slice: range ",
                                &start.to_string(),
                                "..",
                                &end.to_string(),
                                " out of bounds for dimension ",
                                &d.to_string(),
                                " (size ",
                                &self.shape[d].to_string(),
                                ")",
                            ],
                        ),
                    ),
                );
            }
            shape.push(end - start);
            wide.push((end - start) as u64);
            source.push(self.shape[d] as u64);
        }
        proof {
            assert(ints(shape@) =~= want);
            assert(ints64(wide@) =~= want);
            assert(ints64(source@) =~= self@.shape);
        }
        let elem_size: usize = self.dtype_size()?;
        let data: Vec<u8> = self.cut_data(ranges, &wide, &source, elem_size);
        let cut_out = Dataset {
            data,
            shape,
            dtype: self.dtype.clone(),
            attributes: copy_attributes(&self.attributes),
        };
        Ok(cut_out)
    }

    /// Copy the elements in `ranges`.
    fn cut_data(
        &self,
        ranges: &[std::ops::Range<usize>],
        wide: &[u64],
        source: &[u64],
        elem_size: usize,
    ) -> (r: Vec<u8>)
        requires
            ranges@.len() == self.shape@.len(),
            ints64(wide@) == range_lengths(ranges@),
            ints64(source@) == self@.shape,
            forall|k: int|
                0 <= k < ranges@.len() ==> #[trigger] range_within(ranges@[k], self@.shape[k]),
            product(self@.shape) <= usize::MAX,
            product(self@.shape) * elem_size <= usize::MAX,
        ensures
            r@ == cut_bytes(self@.data, self@.shape, ranges@, elem_size as nat),
    {
        let ndims: usize = ranges.len();
        let ghost data = self@.data;
        let ghost full = self@.shape;
        let ghost begin = range_starts(ranges@);
        let ghost want = range_lengths(ranges@);
        let ghost es = elem_size as int;
        let ghost goal = cut_bytes(data, full, ranges@, elem_size as nat);
        let mut out: Vec<u8> = Vec::new();
        proof {
            assert(wide@.len() == ndims) by {
                assert(ints64(wide@).len() == want.len());
            }
            assert(source@.len() == ndims) by {
                assert(ints64(source@).len() == full.len());
            }
        }
        for d in 0..ndims
            invariant
                ndims == ranges@.len() == wide@.len(),
                want == range_lengths(ranges@),
                ints64(wide@) == want,
                goal == cut_bytes(data, full, ranges@, elem_size as nat),
                out@.len() == 0,
                forall|k: int| 0 <= k < d ==> 0 < #[trigger] want[k],
        {
            assert(ints64(wide@)[d as int] == wide@[d as int]);
            if wide[d] == 0 {
                proof {
                    lemma_product_zero(want, d as int);
                    assert(0 * es == 0);
                    assert(out@ =~= goal);
                }
                return out;
            }
        }
        proof {
            assert forall|d: int| 0 <= d < ndims implies 0 < #[trigger] want[d] <= full[d] by {
                assert(range_within(ranges@[d], full[d]));
            }
            lemma_product_monotone(want, full);
            lemma_strides_fit(want);
            assert forall|d: int| 0 <= d < ndims implies 0 < #[trigger] full[d] by {
                assert(0 < want[d] <= full[d]);
            }
            lemma_strides_fit(full);
            assert(product(want) * es <= product(full) * es) by (nonlinear_arith)
                requires
                    product(want) <= product(full),
                    es >= 0,
            ;
            assert(0 <= product(want) * es) by (nonlinear_arith)
                requires
                    0 <= product(want),
                    es >= 0,
            ;
        }
        let count: usize = crate::dims::capped_total(wide, usize::MAX);
        push_zeros(&mut out, count * elem_size);
        if elem_size == 0 {
            proof {
                assert(count * es == 0) by (nonlinear_arith)
                    requires
                        es == 0,
                ;
                assert(out@ =~= goal);
            }
            return out;
        }
        let out_strides: Vec<usize> = row_major_strides(wide);
        let src_strides: Vec<usize> = row_major_strides(source);
        let mut first: Vec<u64> = Vec::new();
        for d in 0..ndims
            invariant
                ndims == ranges@.len(),
                begin == range_starts(ranges@),
                first@.len() == d,
                forall|k: int| 0 <= k < d ==> #[trigger] first@[k] == begin[k],
        {
            first.push(ranges[d].start as u64);
        }
        proof {
            assert(ints64(first@) =~= begin);
            assert(0 * es == 0);
            assert(out@ =~= cut_upto(goal, 0 * es));
            assert(self.data.len() <= usize::MAX);
        }
        for e in 0..count
            invariant
                ndims == ranges@.len() == wide@.len() == source@.len(),
                data == self@.data,
                full == self@.shape,
                begin == range_starts(ranges@),
                want == range_lengths(ranges@),
                es == elem_size,
                elem_size > 0,
                data.len() <= usize::MAX,
                goal == cut_bytes(data, full, ranges@, elem_size as nat),
                ints64(wide@) == want,
                ints64(source@) == full,
                ints64(first@) == begin,
                first@.len() == ndims,
                forall|k: int|
                    0 <= k < ndims ==> #[trigger] range_within(ranges@[k], full[k]),
                forall|d: int| 0 <= d < ndims ==> 0 < #[trigger] want[d],
                count == product(want),
                product(full) <= usize::MAX,
                product(full) * es <= usize::MAX,
                count * es <= usize::MAX,
                goal.len() == count * es,
                out_strides@.len() == ndims,
                src_strides@.len() == ndims,
                ints(out_strides@) == strides_of(want),
                ints(src_strides@) == strides_of(full),
                out@ == cut_upto(goal, e * es),
        {
            let rel: Vec<u64> = flat_to_coords(e, &out_strides, ndims);
            let ghost o = unrank(want, e as int);
            let ghost g = plus(o, begin);
            proof {
                law_strides_unrank(want, e as int);
                law_unrank_then_rank(want, e as int);
                assert(in_box(full, g)) by {
                    assert forall|d: int| 0 <= d < ndims implies 0 <= #[trigger] g[d] < full[d] by {
                        assert(range_within(ranges@[d], full[d]));
                        assert(0 <= o[d] < want[d]);
                    }
                }
                law_rank_then_unrank(full, g);
            }
            let place = crate::chunked::place_of(&rel, &first, source, &src_strides);
            proof {
                assert((e + 1) * es == e * es + es) by (nonlinear_arith);
                assert(e * es + es <= count * es) by (nonlinear_arith)
                    requires
                        e + 1 <= count,
                        es > 0,
                ;
                assert(0 <= e * es) by (nonlinear_arith)
                    requires
                        es > 0,
                ;
            }
            if let Some(p) = place {
                proof {
                    assert(p * es + es <= product(full) * es) by (nonlinear_arith)
                        requires
                            p + 1 <= product(full),
                            es > 0,
                    ;
                    assert((p + 1) * es == p * es + es) by (nonlinear_arith);
                    assert(0 <= p * es) by (nonlinear_arith)
                        requires
                            es > 0,
                    ;
                    lemma_cut_step(data, full, ranges@, elem_size as nat, e as int);
                }
                if p * elem_size + elem_size <= self.data.len() {
                    put_bytes(
                        &mut out,
                        e * elem_size,
                        vstd::slice::slice_subrange(
                            &self.data,
                            p * elem_size,
                            p * elem_size + elem_size,
                        ),
                    );
                }
            }
        }
        proof {
            assert(out@ =~= goal);
        }
        out
    }

    /// The same elements under another shape of as many elements.
    pub fn reshape(&self, new_shape: &[usize]) -> (r: Result<Dataset, OxiH5Error>)
        requires
            product_fits(self@.shape),
            product_fits(ints(new_shape@)),
        ensures
            outcome(r) == reshaped(self@, ints(new_shape@)),
    {
        let old_count: usize = total(&self.shape);
        let new_count: usize = total(new_shape);
        if old_count != new_count {
            return Err(
                OxiH5Error::Format(
                    text(
                        &[
                            "reshape: cannot reshape ",
                            &old_count.to_string(),
                            " elements to a shape of ",
                            &new_count.to_string(),
                            " elements",
                        ],
                    ),
                ),
            );
        }
        Ok(
            Dataset {
                data: slice_to_vec(&self.data),
                shape: slice_to_vec(new_shape),
                dtype: self.dtype.clone(),
                attributes: copy_attributes(&self.attributes),
            },
        )
    }
}

/// The elements of a buffer of strings of `n` bytes each.
pub open spec fn fixed_strings(data: Seq<u8>, n: nat) -> Result<Seq<Seq<char>>, ErrorKind> {
    if data.len() % n != 0 {
        Err(ErrorKind::DataTruncated)
    } else {
        try_each(data.len() / n, |i: int| text_in(element(data, i, n)))
    }
}

/// The elements of a dataset of strings.
pub open spec fn strings_in(data: Seq<u8>, m: DtypeModel) -> Result<Seq<Seq<char>>, ErrorKind> {
    match m {
        DtypeModel::String { fixed_len: Some(n), .. } => if n == 0 {
            Err(ErrorKind::Format)
        } else {
            fixed_strings(data, n)
        },
        DtypeModel::String { fixed_len: None, .. } => Err(ErrorKind::NotImplemented),
        _ => Err(ErrorKind::TypeMismatch),
    }
}

/// Decode strings of `n` bytes each.
pub fn decode_strings(data: &[u8], n: usize) -> (r: Result<Vec<String>, OxiH5Error>)
    requires
        n > 0,
        data@.len() % n as nat == 0,
    ensures
        outcomes(r) == fixed_strings(data@, n as nat),
{
    assert(data.len() <= usize::MAX);
    let count: usize = data.len() / n;
    let ghost f = |i: int| text_in(element(data@, i, n as nat));
    let mut out: Vec<String> = Vec::new();
    proof {
        assert(views(out@) =~= Seq::empty());
        lemma_byte(data@.len() as int, n as int);
    }
    for i in 0..count
        invariant
            n > 0,
            count == data@.len() / n as nat,
            count * n <= data@.len() <= usize::MAX,
            f == (|i: int| text_in(element(data@, i, n as nat))),
            fixed_strings(data@, n as nat) == try_each(count as nat, f),
            try_each(i as nat, f) == Ok::<Seq<Seq<char>>, ErrorKind>(views(out@)),
    {
        let ghost before = views(out@);
        proof {
            assert((i + 1) * n == i * n + n) by (nonlinear_arith);
            assert((i + 1) * n <= count * n) by (nonlinear_arith)
                requires
                    i + 1 <= count,
            ;
        }
        let chunk = vstd::slice::slice_subrange(data, i * n, i * n + n);
        let end: usize = find_nul(chunk, 0);
        match as_text(vstd::slice::slice_subrange(chunk, 0, end)) {
            Some(s) => {
                let owned: String = s.to_string();
                out.push(owned);
                proof {
                    assert(views(out@) =~= before.push(owned@));
                }
            },
            None => {
                proof {
                    lemma_try_each_fails((i + 1) as nat, count as nat, f);
                }
                return Err(OxiH5Error::Format("invalid UTF-8".to_string()));
            },
        }
    }
    Ok(out)
}

/// The size of one element of a fixed-width type.
pub open spec fn plain_size(m: DtypeModel) -> Result<nat, ErrorKind> {
    match m {
        DtypeModel::Int { size, .. } => Ok(size),
        DtypeModel::Float { size, .. } => Ok(size),
        DtypeModel::Bitfield { size, .. } => Ok(size),
        DtypeModel::Opaque { size, .. } => Ok(size),
        DtypeModel::String { fixed_len: Some(n), .. } => Ok(n),
        _ => Err(ErrorKind::NotImplemented),
    }
}

/// The first positions of the ranges.
pub open spec fn range_starts(ranges: Seq<std::ops::Range<usize>>) -> Seq<int> {
    Seq::new(ranges.len(), |d: int| ranges[d].start as int)
}

/// The lengths of the ranges.
pub open spec fn range_lengths(ranges: Seq<std::ops::Range<usize>>) -> Seq<int> {
    Seq::new(ranges.len(), |d: int| ranges[d].end - ranges[d].start)
}

/// Whether a range runs forward and within an extent.
pub open spec fn range_within(range: std::ops::Range<usize>, extent: int) -> bool {
    range.start <= range.end && range.end <= extent
}

/// Whether there is one range within each extent.
pub open spec fn ranges_within(ranges: Seq<std::ops::Range<usize>>, shape: Seq<int>) -> bool {
    &&& ranges.len() == shape.len()
    &&& forall|d: int| 0 <= d < shape.len() ==> #[trigger] range_within(ranges[d], shape[d])
}

/// The bytes of the elements in `ranges`, in row-major order; zero where `data`
/// does not reach as far.
pub open spec fn cut_bytes(
    data: Seq<u8>,
    shape: Seq<int>,
    ranges: Seq<std::ops::Range<usize>>,
    es: nat,
) -> Seq<u8> {
    let want = range_lengths(ranges);
    Seq::new(
        (product(want) * es) as nat,
        |b: int|
            {
                let p = rank(shape, plus(unrank(want, b / es as int), range_starts(ranges)));
                if (p + 1) * es <= data.len() {
                    data[p * es + b % es as int]
                } else {
                    0
                }
            },
    )
}

/// The first `k` bytes of `goal`, and zeros for the rest.
spec fn cut_upto(goal: Seq<u8>, k: int) -> Seq<u8> {
    Seq::new(
        goal.len(),
        |b: int|
            if b < k {
                goal[b]
            } else {
                0
            },
    )
}

proof fn lemma_cut_step(
    data: Seq<u8>,
    shape: Seq<int>,
    ranges: Seq<std::ops::Range<usize>>,
    es: nat,
    e: int,
)
    requires
        es > 0,
        non_negative(range_lengths(ranges)),
        0 <= e < product(range_lengths(ranges)),
        0 <= rank(shape, plus(unrank(range_lengths(ranges), e), range_starts(ranges))),
    ensures
        ({
            let goal = cut_bytes(data, shape, ranges, es);
            let before = cut_upto(goal, e * es);
            let after = cut_upto(goal, (e + 1) * es);
            let p = rank(shape, plus(unrank(range_lengths(ranges), e), range_starts(ranges)));
            if (p + 1) * es <= data.len() {
                after == put(before, e * es, data.subrange(p * es, (p + 1) * es))
            } else {
                after == before
            }
        }),
{
    let want = range_lengths(ranges);
    let goal = cut_bytes(data, shape, ranges, es);
    let before = cut_upto(goal, e * es);
    let after = cut_upto(goal, (e + 1) * es);
    let p = rank(shape, plus(unrank(want, e), range_starts(ranges)));
    lemma_element_byte_bounds(e, product(want), es as int, 0);
    assert((e + 1) * es == e * es + es) by (nonlinear_arith);
    assert((p + 1) * es == p * es + es) by (nonlinear_arith);
    assert(0 <= p * es) by (nonlinear_arith)
        requires
            0 <= p,
            0 < es,
    ;
    let new = if (p + 1) * es <= data.len() {
        put(before, e * es, data.subrange(p * es, (p + 1) * es))
    } else {
        before
    };
    assert forall|b: int| 0 <= b < goal.len() implies after[b] == #[trigger] new[b] by {
        if e * es <= b < (e + 1) * es {
            lemma_byte_of(b, e, es as int);
        }
    }
    assert(after =~= new);
}

/// The part of a dataset that lies in `ranges`.
pub open spec fn cut(ds: DatasetModel, ranges: Seq<std::ops::Range<usize>>) -> Result<
    DatasetModel,
    ErrorKind,
> {
    if !ranges_within(ranges, ds.shape) {
        Err(ErrorKind::Format)
    } else {
        match plain_size(ds.dtype) {
            Err(kind) => Err(kind),
            Ok(es) => Ok(
                DatasetModel {
                    data: cut_bytes(ds.data, ds.shape, ranges, es),
                    shape: range_lengths(ranges),
                    dtype: ds.dtype,
                    attributes: ds.attributes,
                },
            ),
        }
    }
}

/// What cutting takes: a dataset whose size is a machine number.
pub open spec fn can_cut(ds: DatasetModel, ranges: Seq<std::ops::Range<usize>>) -> bool {
    ranges_within(ranges, ds.shape) && plain_size(ds.dtype) is Ok ==> {
        &&& product(ds.shape) <= usize::MAX
        &&& product(ds.shape) * plain_size(ds.dtype)->Ok_0 <= usize::MAX
    }
}

/// A dataset under another shape.
pub open spec fn reshaped(ds: DatasetModel, shape: Seq<int>) -> Result<DatasetModel, ErrorKind> {
    if product(ds.shape) == product(shape) {
        Ok(
            DatasetModel {
                data: ds.data,
                shape,
                dtype: ds.dtype,
                attributes: ds.attributes,
            },
        )
    } else {
        Err(ErrorKind::Format)
    }
}

/// Cutting out everything changes nothing: ranges over all of a dataset whose data
/// are complete give the dataset back.
pub proof fn law_full_slice_is_identity(ds: DatasetModel, ranges: Seq<std::ops::Range<usize>>)
    requires
        ranges_within(ranges, ds.shape),
        range_starts(ranges) == Seq::new(ds.shape.len(), |d: int| 0int),
        range_lengths(ranges) == ds.shape,
        plain_size(ds.dtype) is Ok,
        ds.data.len() == product(ds.shape) * plain_size(ds.dtype)->Ok_0,
    ensures
        cut(ds, ranges) == Ok::<DatasetModel, ErrorKind>(ds),
{
    let es = plain_size(ds.dtype)->Ok_0;
    let got = cut_bytes(ds.data, ds.shape, ranges, es);
    let want = range_lengths(ranges);
    assert forall|b: int| 0 <= b < got.len() implies #[trigger] got[b] == ds.data[b] by {
        assert(es > 0) by {
            if es == 0 {
                assert(product(want) * 0 == 0);
            }
        }
        lemma_byte(b, es as int);
        let e = b / es as int;
        assert(e < product(want)) by (nonlinear_arith)
            requires
                e * es <= b,
                b < product(want) * es,
                es > 0,
        ;
        assert(non_negative(want)) by {
            assert forall|d: int| 0 <= d < want.len() implies 0 <= #[trigger] want[d] by {
                assert(range_within(ranges[d], ds.shape[d]));
            }
        }
        law_unrank_then_rank(want, e);
        assert(plus(unrank(want, e), range_starts(ranges)) =~= unrank(want, e));
        lemma_element_byte_bounds(e, product(want), es as int, b % es as int);
    }
    assert(got =~= ds.data);
}

/// Ranges within other ranges, counted from where those are counted from.
pub open spec fn moved(
    inner: Seq<std::ops::Range<usize>>,
    outer: Seq<std::ops::Range<usize>>,
) -> Seq<std::ops::Range<usize>> {
    Seq::new(
        inner.len(),
        |d: int|
            (std::ops::Range::<usize> {
                start: (outer[d].start + inner[d].start) as usize,
                end: (outer[d].start + inner[d].end) as usize,
            }),
    )
}

/// Cutting twice is cutting once: a part of a part is that part of the whole.
pub proof fn law_slice_of_slice(
    ds: DatasetModel,
    outer: Seq<std::ops::Range<usize>>,
    inner: Seq<std::ops::Range<usize>>,
)
    requires
        cut(ds, outer) is Ok,
        ranges_within(inner, range_lengths(outer)),
    ensures
        cut(cut(ds, outer)->Ok_0, inner) is Ok,
        cut(cut(ds, outer)->Ok_0, inner) == cut(ds, moved(inner, outer)),
{
    let es = plain_size(ds.dtype)->Ok_0;
    let c = moved(inner, outer);
    let la = range_lengths(outer);
    let lb = range_lengths(inner);
    assert forall|d: int| 0 <= d < c.len() implies {
        &&& (#[trigger] c[d]).start == outer[d].start + inner[d].start
        &&& c[d].end == outer[d].start + inner[d].end
        &&& range_within(c[d], ds.shape[d])
    } by {
        assert(range_within(outer[d], ds.shape[d]));
        assert(range_within(inner[d], la[d]));
    }
    assert forall|d: int| 0 <= d < ds.shape.len() implies #[trigger] range_within(
        c[d],
        ds.shape[d],
    ) by {
        assert(c[d].start == outer[d].start + inner[d].start);
    }
    assert(range_lengths(c) =~= lb);
    assert(non_negative(la)) by {
        assert forall|d: int| 0 <= d < la.len() implies 0 <= #[trigger] la[d] by {
            assert(range_within(outer[d], ds.shape[d]));
        }
    }
    assert(non_negative(lb)) by {
        assert forall|d: int| 0 <= d < lb.len() implies 0 <= #[trigger] lb[d] by {
            assert(range_within(inner[d], la[d]));
        }
    }
    let part = cut_bytes(ds.data, ds.shape, outer, es);
    let twice = cut_bytes(part, la, inner, es);
    let once = cut_bytes(ds.data, ds.shape, c, es);
    crate::dims::lemma_product_non_negative(lb);
    crate::dims::lemma_product_non_negative(la);
    assert(product(la) * es >= 0) by (nonlinear_arith)
        requires
            product(la) >= 0,
            es >= 0,
    ;
    assert forall|b: int| 0 <= b < once.len() implies #[trigger] twice[b] == once[b] by {
        assert(es > 0) by {
            if es == 0 {
                assert(product(lb) * 0 == 0);
            }
        }
        lemma_byte(b, es as int);
        let e = b / es as int;
        let r = b % es as int;
        assert(0 <= e < product(lb)) by (nonlinear_arith)
            requires
                e == b / es as int,
                e * es <= b,
                0 <= b < product(lb) * es,
                es > 0,
        ;
        law_unrank_then_rank(lb, e);
        let u = unrank(lb, e);
        let v = plus(u, range_starts(inner));
        assert forall|d: int| 0 <= d < la.len() implies 0 <= #[trigger] v[d] < la[d] by {
            assert(range_within(inner[d], la[d]));
            assert(0 <= u[d] < lb[d]);
        }
        crate::dims::law_rank_then_unrank(la, v);
        let p = rank(la, v);
        lemma_element_byte_bounds(p, product(la), es as int, r);
        assert forall|d: int| 0 <= d < c.len() implies #[trigger] c[d].start == outer[d].start
            + inner[d].start by {}
        assert(plus(v, range_starts(outer)) =~= plus(u, range_starts(c)));
    }
    assert(twice =~= once);
}

/// Reshaping loses nothing: the old shape gives the old dataset back.
pub proof fn law_reshape_back(ds: DatasetModel, shape: Seq<int>)
    requires
        product(ds.shape) == product(shape),
    ensures
        reshaped(ds, shape) is Ok,
        reshaped(reshaped(ds, shape)->Ok_0, ds.shape) == Ok::<DatasetModel, ErrorKind>(ds),
{
}

} // verus!
