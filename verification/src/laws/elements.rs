//! The elements of datasets: what their typed readers give.

use vstd::prelude::*;
use vstd::utf8::encode_utf8;
use crate::bytes::{
    lemma_pow256_values, lemma_signed_back, lemma_be_round_trip, lemma_le_round_trip, pow256,
    signed_bits,
};
use crate::dataset::{words_in, Dataset};
use crate::dims::{in_box, ints, rank};
use crate::dtype::{ByteOrder, Charset, DtypeModel};
use crate::error::{outcome, outcomes, ErrorKind, OxiH5Error};
use crate::float::{half_magnitude, law_widening_keeps_value, single_magnitude};
use crate::laws::spelling::{
    law_padded_text_reads_back, lemma_piece, lemma_runs, lemma_spelled_len, padded_text, piece,
    runs, spelled,
};
use crate::ndarrays::IntArray;
use crate::roundtrip::values::lemma_try_each_is;
use crate::utf8::nul_free;
use crate::values::{element, text_in};
use vstd::arithmetic::power2::pow2;

verus! {

/// Whether bytes spell numbers of `size` bytes, one after the other.
pub open spec fn spells_all(data: Seq<u8>, values: Seq<nat>, size: nat, order: ByteOrder) -> bool {
    &&& runs(data, values.len(), size)
    &&& forall|i: int|
        0 <= i < values.len() ==> {
            &&& #[trigger] values[i] < pow256(size)
            &&& piece(data, i, size) == spelled(values[i], size, order)
        }
}

proof fn lemma_words(data: Seq<u8>, values: Seq<nat>, size: nat, order: ByteOrder)
    requires
        size > 0,
        spells_all(data, values, size, order),
    ensures
        words_in(data, size, Some(order)) == Ok::<Seq<nat>, ErrorKind>(values),
{
    lemma_runs(data, values.len(), size);
    let found = words_in(data, size, Some(order))->Ok_0;
    assert forall|i: int| 0 <= i < values.len() implies #[trigger] found[i] == values[i] by {
        lemma_piece(data, values.len(), size, i);
        let at = i * size;
        lemma_spelled_len(values[i], size, order);
        assert(data.subrange(at, at + size) == piece(data, i, size));
        match order {
            ByteOrder::Little => lemma_le_round_trip(values[i], size, data, at),
            ByteOrder::Big => lemma_be_round_trip(values[i], size, data, at),
        }
    }
    assert(found =~= values);
}

/// Signed integers of 1 byte are read as the numbers that the bytes spell, in order and in
/// either byte order; of another type nothing is read, nor where the last one is cut off.
pub proof fn law_i8_elements(
    ds: &Dataset,
    values: Seq<i8>,
    order: ByteOrder,
    r: Result<Vec<i8>, OxiH5Error>,
)
    requires
        call_ensures(Dataset::as_i8, (ds,), r) || call_ensures(Dataset::iter_i8, (ds,), r),
    ensures
        ds@.dtype == (DtypeModel::Int { size: 1, signed: true, order }) && spells_all(
            ds@.data,
            Seq::new(values.len(), |i: int| signed_bits(values[i] as int, 1)),
            1,
            order,
        ) ==> outcome(r) == Ok::<Seq<i8>, ErrorKind>(values),
        ds@.dtype != (DtypeModel::Int { size: 1, signed: true, order: ByteOrder::Little })
            && ds@.dtype != (DtypeModel::Int { size: 1, signed: true, order: ByteOrder::Big })
            ==> outcome(r) == Err::<Seq<i8>, ErrorKind>(ErrorKind::TypeMismatch),
{
    lemma_pow256_values();
    let all = Seq::new(values.len(), |i: int| signed_bits(values[i] as int, 1));
    let exact = DtypeModel::Int { size: 1, signed: true, order };
    if ds@.dtype == exact && spells_all(ds@.data, all, 1, order) {
        lemma_words(ds@.data, all, 1, order);
        let found = outcome(r)->Ok_0;
        assert forall|i: int| 0 <= i < values.len() implies #[trigger] found[i] == values[i] by {
            assert(all[i] == signed_bits(values[i] as int, 1));
            lemma_signed_back(values[i] as int, 1);
        }
        assert(found =~= values);
    }
}

/// Signed integers of 2 bytes are read as the numbers that the bytes spell, in order and in
/// either byte order; of another type nothing is read, nor where the last one is cut off.
pub proof fn law_i16_elements(
    ds: &Dataset,
    values: Seq<i16>,
    order: ByteOrder,
    r: Result<Vec<i16>, OxiH5Error>,
)
    requires
        call_ensures(Dataset::as_i16, (ds,), r) || call_ensures(Dataset::iter_i16, (ds,), r),
    ensures
        ds@.dtype == (DtypeModel::Int { size: 2, signed: true, order }) && spells_all(
            ds@.data,
            Seq::new(values.len(), |i: int| signed_bits(values[i] as int, 2)),
            2,
            order,
        ) ==> outcome(r) == Ok::<Seq<i16>, ErrorKind>(values),
        ds@.dtype != (DtypeModel::Int { size: 2, signed: true, order: ByteOrder::Little })
            && ds@.dtype != (DtypeModel::Int { size: 2, signed: true, order: ByteOrder::Big })
            ==> outcome(r) == Err::<Seq<i16>, ErrorKind>(ErrorKind::TypeMismatch),
        ds@.dtype == (DtypeModel::Int { size: 2, signed: true, order }) && ds@.data.len()
            % 2 != 0 ==> outcome(r) == Err::<Seq<i16>, ErrorKind>(ErrorKind::DataTruncated),
{
    lemma_pow256_values();
    let all = Seq::new(values.len(), |i: int| signed_bits(values[i] as int, 2));
    let exact = DtypeModel::Int { size: 2, signed: true, order };
    if ds@.dtype == exact && spells_all(ds@.data, all, 2, order) {
        lemma_words(ds@.data, all, 2, order);
        let found = outcome(r)->Ok_0;
        assert forall|i: int| 0 <= i < values.len() implies #[trigger] found[i] == values[i] by {
            assert(all[i] == signed_bits(values[i] as int, 2));
            lemma_signed_back(values[i] as int, 2);
        }
        assert(found =~= values);
    }
}

/// Signed integers of 4 bytes are read as the numbers that the bytes spell, in order and in
/// either byte order; of another type nothing is read, nor where the last one is cut off.
pub proof fn law_i32_elements(
    ds: &Dataset,
    values: Seq<i32>,
    order: ByteOrder,
    r: Result<Vec<i32>, OxiH5Error>,
)
    requires
        call_ensures(Dataset::as_i32, (ds,), r) || call_ensures(Dataset::iter_i32, (ds,), r),
    ensures
        ds@.dtype == (DtypeModel::Int { size: 4, signed: true, order }) && spells_all(
            ds@.data,
            Seq::new(values.len(), |i: int| signed_bits(values[i] as int, 4)),
            4,
            order,
        ) ==> outcome(r) == Ok::<Seq<i32>, ErrorKind>(values),
        ds@.dtype != (DtypeModel::Int { size: 4, signed: true, order: ByteOrder::Little })
            && ds@.dtype != (DtypeModel::Int { size: 4, signed: true, order: ByteOrder::Big })
            ==> outcome(r) == Err::<Seq<i32>, ErrorKind>(ErrorKind::TypeMismatch),
        ds@.dtype == (DtypeModel::Int { size: 4, signed: true, order }) && ds@.data.len()
            % 4 != 0 ==> outcome(r) == Err::<Seq<i32>, ErrorKind>(ErrorKind::DataTruncated),
{
    lemma_pow256_values();
    let all = Seq::new(values.len(), |i: int| signed_bits(values[i] as int, 4));
    let exact = DtypeModel::Int { size: 4, signed: true, order };
    if ds@.dtype == exact && spells_all(ds@.data, all, 4, order) {
        lemma_words(ds@.data, all, 4, order);
        let found = outcome(r)->Ok_0;
        assert forall|i: int| 0 <= i < values.len() implies #[trigger] found[i] == values[i] by {
            assert(all[i] == signed_bits(values[i] as int, 4));
            lemma_signed_back(values[i] as int, 4);
        }
        assert(found =~= values);
    }
}

/// Signed integers of 8 bytes are read as the numbers that the bytes spell, in order and in
/// either byte order; of another type nothing is read, nor where the last one is cut off.
pub proof fn law_i64_elements(
    ds: &Dataset,
    values: Seq<i64>,
    order: ByteOrder,
    r: Result<Vec<i64>, OxiH5Error>,
)
    requires
        call_ensures(Dataset::as_i64, (ds,), r) || call_ensures(Dataset::iter_i64, (ds,), r),
    ensures
        ds@.dtype == (DtypeModel::Int { size: 8, signed: true, order }) && spells_all(
            ds@.data,
            Seq::new(values.len(), |i: int| signed_bits(values[i] as int, 8)),
            8,
            order,
        ) ==> outcome(r) == Ok::<Seq<i64>, ErrorKind>(values),
        ds@.dtype != (DtypeModel::Int { size: 8, signed: true, order: ByteOrder::Little })
            && ds@.dtype != (DtypeModel::Int { size: 8, signed: true, order: ByteOrder::Big })
            ==> outcome(r) == Err::<Seq<i64>, ErrorKind>(ErrorKind::TypeMismatch),
        ds@.dtype == (DtypeModel::Int { size: 8, signed: true, order }) && ds@.data.len()
            % 8 != 0 ==> outcome(r) == Err::<Seq<i64>, ErrorKind>(ErrorKind::DataTruncated),
{
    lemma_pow256_values();
    let all = Seq::new(values.len(), |i: int| signed_bits(values[i] as int, 8));
    let exact = DtypeModel::Int { size: 8, signed: true, order };
    if ds@.dtype == exact && spells_all(ds@.data, all, 8, order) {
        lemma_words(ds@.data, all, 8, order);
        let found = outcome(r)->Ok_0;
        assert forall|i: int| 0 <= i < values.len() implies #[trigger] found[i] == values[i] by {
            assert(all[i] == signed_bits(values[i] as int, 8));
            lemma_signed_back(values[i] as int, 8);
        }
        assert(found =~= values);
    }
}

/// Unsigned integers of 1 byte are read as the numbers that the bytes spell, in order and in
/// either byte order; of another type nothing is read, nor where the last one is cut off.
pub proof fn law_u8_elements(
    ds: &Dataset,
    values: Seq<u8>,
    order: ByteOrder,
    r: Result<Vec<u8>, OxiH5Error>,
)
    requires
        call_ensures(Dataset::as_u8, (ds,), r) || call_ensures(Dataset::iter_u8, (ds,), r),
    ensures
        ds@.dtype == (DtypeModel::Int { size: 1, signed: false, order }) && spells_all(
            ds@.data,
            Seq::new(values.len(), |i: int| values[i] as nat),
            1,
            order,
        ) ==> outcome(r) == Ok::<Seq<u8>, ErrorKind>(values),
        ds@.dtype != (DtypeModel::Int { size: 1, signed: false, order: ByteOrder::Little })
            && ds@.dtype != (DtypeModel::Int { size: 1, signed: false, order: ByteOrder::Big })
            ==> outcome(r) == Err::<Seq<u8>, ErrorKind>(ErrorKind::TypeMismatch),
{
    lemma_pow256_values();
    let all = Seq::new(values.len(), |i: int| values[i] as nat);
    let exact = DtypeModel::Int { size: 1, signed: false, order };
    if ds@.dtype == exact && spells_all(ds@.data, all, 1, order) {
        lemma_words(ds@.data, all, 1, order);
        let found = outcome(r)->Ok_0;
        assert forall|i: int| 0 <= i < values.len() implies #[trigger] found[i] == values[i] by {
            assert(all[i] == values[i] as nat);
        }
        assert(found =~= values);
    }
}

/// Unsigned integers of 2 bytes are read as the numbers that the bytes spell, in order and in
/// either byte order; of another type nothing is read, nor where the last one is cut off.
pub proof fn law_u16_elements(
    ds: &Dataset,
    values: Seq<u16>,
    order: ByteOrder,
    r: Result<Vec<u16>, OxiH5Error>,
)
    requires
        call_ensures(Dataset::as_u16, (ds,), r) || call_ensures(Dataset::iter_u16, (ds,), r),
    ensures
        ds@.dtype == (DtypeModel::Int { size: 2, signed: false, order }) && spells_all(
            ds@.data,
            Seq::new(values.len(), |i: int| values[i] as nat),
            2,
            order,
        ) ==> outcome(r) == Ok::<Seq<u16>, ErrorKind>(values),
        ds@.dtype != (DtypeModel::Int { size: 2, signed: false, order: ByteOrder::Little })
            && ds@.dtype != (DtypeModel::Int { size: 2, signed: false, order: ByteOrder::Big })
            ==> outcome(r) == Err::<Seq<u16>, ErrorKind>(ErrorKind::TypeMismatch),
        ds@.dtype == (DtypeModel::Int { size: 2, signed: false, order }) && ds@.data.len()
            % 2 != 0 ==> outcome(r) == Err::<Seq<u16>, ErrorKind>(ErrorKind::DataTruncated),
{
    lemma_pow256_values();
    let all = Seq::new(values.len(), |i: int| values[i] as nat);
    let exact = DtypeModel::Int { size: 2, signed: false, order };
    if ds@.dtype == exact && spells_all(ds@.data, all, 2, order) {
        lemma_words(ds@.data, all, 2, order);
        let found = outcome(r)->Ok_0;
        assert forall|i: int| 0 <= i < values.len() implies #[trigger] found[i] == values[i] by {
            assert(all[i] == values[i] as nat);
        }
        assert(found =~= values);
    }
}

/// Unsigned integers of 4 bytes are read as the numbers that the bytes spell, in order and in
/// either byte order; of another type nothing is read, nor where the last one is cut off.
pub proof fn law_u32_elements(
    ds: &Dataset,
    values: Seq<u32>,
    order: ByteOrder,
    r: Result<Vec<u32>, OxiH5Error>,
)
    requires
        call_ensures(Dataset::as_u32, (ds,), r) || call_ensures(Dataset::iter_u32, (ds,), r),
    ensures
        ds@.dtype == (DtypeModel::Int { size: 4, signed: false, order }) && spells_all(
            ds@.data,
            Seq::new(values.len(), |i: int| values[i] as nat),
            4,
            order,
        ) ==> outcome(r) == Ok::<Seq<u32>, ErrorKind>(values),
        ds@.dtype != (DtypeModel::Int { size: 4, signed: false, order: ByteOrder::Little })
            && ds@.dtype != (DtypeModel::Int { size: 4, signed: false, order: ByteOrder::Big })
            ==> outcome(r) == Err::<Seq<u32>, ErrorKind>(ErrorKind::TypeMismatch),
        ds@.dtype == (DtypeModel::Int { size: 4, signed: false, order }) && ds@.data.len()
            % 4 != 0 ==> outcome(r) == Err::<Seq<u32>, ErrorKind>(ErrorKind::DataTruncated),
{
    lemma_pow256_values();
    let all = Seq::new(values.len(), |i: int| values[i] as nat);
    let exact = DtypeModel::Int { size: 4, signed: false, order };
    if ds@.dtype == exact && spells_all(ds@.data, all, 4, order) {
        lemma_words(ds@.data, all, 4, order);
        let found = outcome(r)->Ok_0;
        assert forall|i: int| 0 <= i < values.len() implies #[trigger] found[i] == values[i] by {
            assert(all[i] == values[i] as nat);
        }
        assert(found =~= values);
    }
}

/// Unsigned integers of 8 bytes are read as the numbers that the bytes spell, in order and in
/// either byte order; of another type nothing is read, nor where the last one is cut off.
pub proof fn law_u64_elements(
    ds: &Dataset,
    values: Seq<u64>,
    order: ByteOrder,
    r: Result<Vec<u64>, OxiH5Error>,
)
    requires
        call_ensures(Dataset::as_u64, (ds,), r) || call_ensures(Dataset::iter_u64, (ds,), r),
    ensures
        ds@.dtype == (DtypeModel::Int { size: 8, signed: false, order }) && spells_all(
            ds@.data,
            Seq::new(values.len(), |i: int| values[i] as nat),
            8,
            order,
        ) ==> outcome(r) == Ok::<Seq<u64>, ErrorKind>(values),
        ds@.dtype != (DtypeModel::Int { size: 8, signed: false, order: ByteOrder::Little })
            && ds@.dtype != (DtypeModel::Int { size: 8, signed: false, order: ByteOrder::Big })
            ==> outcome(r) == Err::<Seq<u64>, ErrorKind>(ErrorKind::TypeMismatch),
        ds@.dtype == (DtypeModel::Int { size: 8, signed: false, order }) && ds@.data.len()
            % 8 != 0 ==> outcome(r) == Err::<Seq<u64>, ErrorKind>(ErrorKind::DataTruncated),
{
    lemma_pow256_values();
    let all = Seq::new(values.len(), |i: int| values[i] as nat);
    let exact = DtypeModel::Int { size: 8, signed: false, order };
    if ds@.dtype == exact && spells_all(ds@.data, all, 8, order) {
        lemma_words(ds@.data, all, 8, order);
        let found = outcome(r)->Ok_0;
        assert forall|i: int| 0 <= i < values.len() implies #[trigger] found[i] == values[i] by {
            assert(all[i] == values[i] as nat);
        }
        assert(found =~= values);
    }
}

/// Floating-point numbers of 4 bytes are read as the bits that the bytes spell, in order
/// and in either byte order; of another type nothing is read, nor where the last one is
/// cut off.
pub proof fn law_f32_elements(
    ds: &Dataset,
    values: Seq<u32>,
    order: ByteOrder,
    r: Result<Vec<u32>, OxiH5Error>,
)
    requires
        call_ensures(Dataset::as_f32, (ds,), r) || call_ensures(Dataset::iter_f32, (ds,), r),
    ensures
        ds@.dtype == (DtypeModel::Float { size: 4, order }) && spells_all(
            ds@.data,
            Seq::new(values.len(), |i: int| values[i] as nat),
            4,
            order,
        ) ==> outcome(r) == Ok::<Seq<u32>, ErrorKind>(values),
        ds@.dtype != (DtypeModel::Float { size: 4, order: ByteOrder::Little })
            && ds@.dtype != (DtypeModel::Float { size: 4, order: ByteOrder::Big })
            ==> outcome(r) == Err::<Seq<u32>, ErrorKind>(ErrorKind::TypeMismatch),
        ds@.dtype == (DtypeModel::Float { size: 4, order }) && ds@.data.len() % 4 != 0
            ==> outcome(r) == Err::<Seq<u32>, ErrorKind>(ErrorKind::DataTruncated),
{
    lemma_pow256_values();
    let all = Seq::new(values.len(), |i: int| values[i] as nat);
    let exact = DtypeModel::Float { size: 4, order };
    if ds@.dtype == exact && spells_all(ds@.data, all, 4, order) {
        lemma_words(ds@.data, all, 4, order);
        let found = outcome(r)->Ok_0;
        assert forall|i: int| 0 <= i < values.len() implies #[trigger] found[i] == values[i] by {
            assert(all[i] == values[i] as nat);
        }
        assert(found =~= values);
    }
}

/// Floating-point numbers of 8 bytes are read as the bits that the bytes spell, in order
/// and in either byte order; of another type nothing is read, nor where the last one is
/// cut off.
pub proof fn law_f64_elements(
    ds: &Dataset,
    values: Seq<u64>,
    order: ByteOrder,
    r: Result<Vec<u64>, OxiH5Error>,
)
    requires
        call_ensures(Dataset::as_f64, (ds,), r) || call_ensures(Dataset::iter_f64, (ds,), r),
    ensures
        ds@.dtype == (DtypeModel::Float { size: 8, order }) && spells_all(
            ds@.data,
            Seq::new(values.len(), |i: int| values[i] as nat),
            8,
            order,
        ) ==> outcome(r) == Ok::<Seq<u64>, ErrorKind>(values),
        ds@.dtype != (DtypeModel::Float { size: 8, order: ByteOrder::Little })
            && ds@.dtype != (DtypeModel::Float { size: 8, order: ByteOrder::Big })
            ==> outcome(r) == Err::<Seq<u64>, ErrorKind>(ErrorKind::TypeMismatch),
        ds@.dtype == (DtypeModel::Float { size: 8, order }) && ds@.data.len() % 8 != 0
            ==> outcome(r) == Err::<Seq<u64>, ErrorKind>(ErrorKind::DataTruncated),
{
    lemma_pow256_values();
    let all = Seq::new(values.len(), |i: int| values[i] as nat);
    let exact = DtypeModel::Float { size: 8, order };
    if ds@.dtype == exact && spells_all(ds@.data, all, 8, order) {
        lemma_words(ds@.data, all, 8, order);
        let found = outcome(r)->Ok_0;
        assert forall|i: int| 0 <= i < values.len() implies #[trigger] found[i] == values[i] by {
            assert(all[i] == values[i] as nat);
        }
        assert(found =~= values);
    }
}

/// Half-precision numbers are read as single-precision ones of the same sign and value, in
/// order and in either byte order.
pub proof fn law_f16_elements(
    ds: &Dataset,
    values: Seq<u16>,
    order: ByteOrder,
    r: Result<Vec<u32>, OxiH5Error>,
)
    requires
        call_ensures(Dataset::as_f16, (ds,), r) || call_ensures(Dataset::iter_f16, (ds,), r),
        ds@.dtype == (DtypeModel::Float { size: 2, order }),
        spells_all(ds@.data, Seq::new(values.len(), |i: int| values[i] as nat), 2, order),
        forall|i: int| 0 <= i < values.len() ==> #[trigger] values[i] / 0x400 % 0x20 != 31,
    ensures
        r is Ok,
        r->Ok_0@.len() == values.len(),
        forall|i: int|
            0 <= i < values.len() ==> {
                &&& #[trigger] r->Ok_0@[i] / 0x8000_0000 == values[i] / 0x8000
                &&& single_magnitude(r->Ok_0@[i] as nat) == half_magnitude(values[i]) * pow2(125)
            },
{
    lemma_pow256_values();
    let all = Seq::new(values.len(), |i: int| values[i] as nat);
    lemma_words(ds@.data, all, 2, order);
    assert forall|i: int| 0 <= i < values.len() implies {
        &&& #[trigger] r->Ok_0@[i] / 0x8000_0000 == values[i] / 0x8000
        &&& single_magnitude(r->Ok_0@[i] as nat) == half_magnitude(values[i]) * pow2(125)
    } by {
        assert(all[i] == values[i] as nat);
        assert(values[i] / 0x400 % 0x20 != 31);
        law_widening_keeps_value(values[i]);
        crate::float::lemma_single_bound(values[i]);
        assert(outcome(r)->Ok_0[i] == crate::float::half_to_single(values[i]) as u32);
    }
}

/// Texts, each padded with zeros to the length of an element, are read as these texts.
pub proof fn law_string_elements(
    ds: &Dataset,
    texts: Seq<Seq<char>>,
    n: nat,
    charset: Charset,
    r: Result<Vec<String>, OxiH5Error>,
)
    requires
        ds@.dtype == (DtypeModel::String { fixed_len: Some(n), charset }),
        n > 0,
        runs(ds@.data, texts.len(), n),
        forall|i: int|
            0 <= i < texts.len() ==> {
                &&& nul_free(#[trigger] texts[i])
                &&& encode_utf8(texts[i]).len() <= n
                &&& piece(ds@.data, i, n) == padded_text(texts[i], n)
            },
        call_ensures(Dataset::as_string, (ds,), r),
    ensures
        outcomes(r) == Ok::<Seq<Seq<char>>, ErrorKind>(texts),
{
    let data = ds@.data;
    lemma_runs(data, texts.len(), n);
    let f = |i: int| text_in(element(data, i, n));
    assert forall|i: int| 0 <= i < texts.len() implies #[trigger] f(i) == Ok::<
        Seq<char>,
        ErrorKind,
    >(texts[i]) by {
        lemma_piece(data, texts.len(), n, i);
        assert(nul_free(texts[i]));
        law_padded_text_reads_back(texts[i], n);
        assert(element(data, i, n) =~= piece(data, i, n));
    }
    lemma_try_each_is(texts.len(), f, texts);
    assert(texts.take(texts.len() as int) =~= texts);
}

/// The array of a dataset of integers has the shape of the dataset, and at each index the
/// element that lies there in row-major order; outside of its shape it has none.
pub proof fn law_array_elements(
    ds: &Dataset,
    values: Result<Vec<i32>, OxiH5Error>,
    array: Result<IntArray, OxiH5Error>,
    index: &[usize],
    shape: &[usize],
    r: Option<i32>,
)
    requires
        ds.shape@.len() > 0,
        call_ensures(Dataset::as_i32, (ds,), values),
        call_ensures(Dataset::to_array_i32, (ds,), array),
        array is Ok,
        call_ensures(IntArray::shape, (&array->Ok_0,), shape),
        call_ensures(IntArray::get, (&array->Ok_0, index), r),
    ensures
        values is Ok,
        ints(shape@) == ints(ds.shape@),
        in_box(ints(ds.shape@), ints(index@)) ==> r == Some(
            values->Ok_0@[rank(ints(ds.shape@), ints(index@))],
        ),
        !in_box(ints(ds.shape@), ints(index@)) ==> r is None,
{
}

} // verus!
