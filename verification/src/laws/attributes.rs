//! Attributes: what their typed readers give.

use vstd::prelude::*;
use vstd::utf8::encode_utf8;
use crate::attr_view::{count_in, AttrView};
use crate::bytes::{
    fits_signed, lemma_le_round_trip, lemma_pow256_values, lemma_signed_back, pow256, signed_bits,
};
use crate::dims::{ints64, product};
use crate::dtype::{ByteOrder, Charset, DtypeModel, RefType};
use crate::error::{outcome, outcomes, ErrorKind, OxiH5Error};
use crate::float::Float;
use crate::laws::spelling::{
    law_number_reads_back, law_padded_text_reads_back, lemma_piece, lemma_product_of_ones,
    lemma_runs, listed, one_position, padded_text, piece, runs, spelled,
};
use crate::object::{Attribute, DataspaceModel};
use crate::roundtrip::values::lemma_try_each_is;
use crate::utf8::nul_free;
use crate::values::{element, text_in};

verus! {

proof fn lemma_one_position(space: DataspaceModel)
    requires
        one_position(space),
    ensures
        count_in(space) == 1,
{
    if let DataspaceModel::Simple { dims, .. } = space {
        assert forall|d: int| 0 <= d < dims.len() implies #[trigger] ints64(dims)[d] == 1 by {
            assert(dims[d] == 1);
        }
        lemma_product_of_ones(ints64(dims));
    }
}

/// A floating-point attribute reads as the number whose bits its bytes spell, whichever
/// byte comes first.
pub proof fn law_float_attribute(
    attr: &Attribute,
    view: &AttrView,
    bits: u64,
    size: nat,
    order: ByteOrder,
    r: Option<Float>,
)
    requires
        attr@.dtype == (DtypeModel::Float { size, order }),
        size == 4 && bits <= u32::MAX || size == 8,
        one_position(attr@.dataspace),
        size <= attr@.data.len(),
        attr@.data.subrange(0, size as int) == spelled(bits as nat, size, order),
        call_ensures(Attribute::as_f64, (attr,), r) || view.attr == *attr && call_ensures(
            AttrView::as_f64,
            (view,),
            r,
        ),
    ensures
        size == 4 ==> r == Some(Float::Single(bits as u32)),
        size == 8 ==> r == Some(Float::Double(bits)),
{
    lemma_pow256_values();
    lemma_one_position(attr@.dataspace);
    law_number_reads_back(bits as nat, size, order, attr@.data);
}

/// An integer attribute reads as the number that its bytes spell, whichever byte comes
/// first: where the type is signed and where it is not, and of any width; one beyond the
/// range of the reader reads as nothing.
pub proof fn law_integer_attribute(
    attr: &Attribute,
    view: &AttrView,
    v: int,
    size: nat,
    signed: bool,
    order: ByteOrder,
    narrow: Option<i64>,
    wide: Option<u64>,
)
    requires
        attr@.dtype == (DtypeModel::Int { size, signed, order }),
        size == 1 || size == 2 || size == 4 || size == 8,
        if signed {
            fits_signed(v, size)
        } else {
            0 <= v < pow256(size)
        },
        one_position(attr@.dataspace),
        size <= attr@.data.len(),
        attr@.data.subrange(0, size as int) == spelled(signed_bits(v, size), size, order),
        call_ensures(Attribute::as_i64, (attr,), narrow) || view.attr == *attr && call_ensures(
            AttrView::as_i64,
            (view,),
            narrow,
        ),
        call_ensures(Attribute::as_u64, (attr,), wide) || view.attr == *attr && call_ensures(
            AttrView::as_u64,
            (view,),
            wide,
        ),
    ensures
        narrow == if v <= i64::MAX {
            Some(v as i64)
        } else {
            None
        },
        wide == if signed {
            None
        } else {
            Some(v as u64)
        },
{
    lemma_pow256_values();
    lemma_one_position(attr@.dataspace);
    if signed {
        lemma_signed_back(v, size);
    }
    law_number_reads_back(signed_bits(v, size), size, order, attr@.data);
}

/// No number is read where there is none: of another type, where there is not exactly one
/// element, or where not all of it is there.
pub proof fn law_no_number_is_made_up(
    attr: &Attribute,
    float: Option<Float>,
    narrow: Option<i64>,
    wide: Option<u64>,
)
    requires
        call_ensures(Attribute::as_f64, (attr,), float),
        call_ensures(Attribute::as_i64, (attr,), narrow),
        call_ensures(Attribute::as_u64, (attr,), wide),
    ensures
        !(attr@.dtype is Float) ==> float is None,
        !(attr@.dtype is Int) ==> narrow is None && wide is None,
        attr@.dataspace is Null ==> float is None && narrow is None && wide is None,
        attr@.data.len() == 0 ==> float is None && narrow is None && wide is None,
        forall|n: nat| n != 1 && #[trigger] listed(attr@.dataspace, n) ==> float is None
            && narrow is None && wide is None,
{
    assert forall|n: nat| n != 1 && #[trigger] listed(attr@.dataspace, n) implies float is None
        && narrow is None && wide is None by {
        lemma_listed(attr@.dataspace, n);
    }
}

/// A list has as many elements as its dimension says.
pub proof fn lemma_listed(space: DataspaceModel, n: nat)
    requires
        listed(space, n),
    ensures
        count_in(space) == n,
{
    if let DataspaceModel::Simple { dims, .. } = space {
        let all = ints64(dims);
        assert(all.drop_last() =~= Seq::<int>::empty());
        reveal_with_fuel(product, 2);
        assert(product(all) == 1 * all[0]);
    }
}

/// An attribute is a single value exactly where it has one element, and its shape is that
/// of its dataspace.
pub proof fn law_shape_of_attribute(attr: &Attribute, n: nat, single: bool, shape: Vec<u64>)
    requires
        listed(attr@.dataspace, n),
        call_ensures(Attribute::is_scalar, (attr,), single),
        call_ensures(Attribute::shape, (attr,), shape),
    ensures
        single <==> n == 1,
        attr@.dataspace is Simple ==> shape@ == seq![n as u64],
        !(attr@.dataspace is Simple) ==> shape@.len() == 0,
{
    lemma_listed(attr@.dataspace, n);
    if let DataspaceModel::Simple { dims, .. } = attr@.dataspace {
        assert(dims =~= seq![n as u64]);
    }
}

/// A text attribute reads as the text that was padded with zeros to its length.
pub proof fn law_text_attribute(
    attr: &Attribute,
    view: &AttrView,
    chars: Seq<char>,
    n: nat,
    charset: Charset,
    r: Option<String>,
)
    requires
        attr@.dtype == (DtypeModel::String { fixed_len: Some(n), charset }),
        nul_free(chars),
        encode_utf8(chars).len() <= n,
        n <= attr@.data.len(),
        attr@.data.subrange(0, n as int) == padded_text(chars, n),
        call_ensures(Attribute::as_str_fixed, (attr,), r) || view.attr == *attr && call_ensures(
            AttrView::as_str_fixed,
            (view,),
            r,
        ),
    ensures
        r is Some,
        r->0@ == chars,
{
    law_padded_text_reads_back(chars, n);
}

/// A list of texts, each padded with zeros to the length of an element, reads as these
/// texts.
pub proof fn law_texts_attribute(
    view: &AttrView,
    texts: Seq<Seq<char>>,
    n: nat,
    charset: Charset,
    r: Result<Vec<String>, OxiH5Error>,
)
    requires
        view.attr@.dtype == (DtypeModel::String { fixed_len: Some(n), charset }),
        n > 0,
        runs(view.attr@.data, texts.len(), n),
        forall|i: int|
            0 <= i < texts.len() ==> {
                &&& nul_free(#[trigger] texts[i])
                &&& encode_utf8(texts[i]).len() <= n
                &&& piece(view.attr@.data, i, n) == padded_text(texts[i], n)
            },
        call_ensures(AttrView::as_strings, (view,), r),
    ensures
        outcomes(r) == Ok::<Seq<Seq<char>>, ErrorKind>(texts),
{
    let data = view.attr@.data;
    lemma_runs(data, texts.len(), n);
    let f = |i: int| text_in(element(data, i, n));
    assert forall|i: int| 0 <= i < texts.len() implies #[trigger] f(i) == Ok::<
        Seq<char>,
        ErrorKind,
    >(texts[i]) by {
        lemma_piece(data, texts.len(), n, i);
        assert(nul_free(texts[i]));
        law_padded_text_reads_back(texts[i], n);
        assert(element(data, i, n) =~= piece(data, i, n));
    }
    lemma_try_each_is(texts.len(), f, texts);
    assert(texts.take(texts.len() as int) =~= texts);
}

/// A list of object references reads as the addresses that its bytes spell, in order.
pub proof fn law_references_attribute(
    view: &AttrView,
    addresses: Seq<u64>,
    r: Result<Vec<u64>, OxiH5Error>,
)
    requires
        view.attr@.dtype == (DtypeModel::Reference { ref_type: RefType::Object }),
        listed(view.attr@.dataspace, addresses.len()),
        runs(view.attr@.data, addresses.len(), 8),
        forall|i: int|
            0 <= i < addresses.len() ==> piece(view.attr@.data, i, 8) == spelled(
                #[trigger] addresses[i] as nat,
                8,
                ByteOrder::Little,
            ),
        call_ensures(AttrView::as_object_refs, (view,), r),
    ensures
        outcome(r) == Ok::<Seq<u64>, ErrorKind>(addresses),
{
    let data = view.attr@.data;
    lemma_listed(view.attr@.dataspace, addresses.len());
    lemma_pow256_values();
    let found = outcome(r)->Ok_0;
    assert forall|i: int| 0 <= i < addresses.len() implies #[trigger] found[i] == addresses[i] by {
        lemma_piece(data, addresses.len(), 8, i);
        assert(data.subrange(i * 8, i * 8 + 8) == piece(data, i, 8));
        assert(addresses[i] <= u64::MAX);
        lemma_le_round_trip(addresses[i] as nat, 8, data, i * 8);
    }
    assert(found =~= addresses);
}

} // verus!
