//! How numbers are spelled, and how elements lie one after the other.

use vstd::prelude::*;
use vstd::utf8::encode_utf8;
use crate::bytes::{
    be_bytes, le_bytes, lemma_be_bytes_len, lemma_be_round_trip, lemma_le_bytes_len,
    lemma_le_round_trip, pow256, zeros,
};
use crate::dims::product;
use crate::dtype::ByteOrder;
use crate::error::ErrorKind;
use crate::object::DataspaceModel;
use crate::utf8::{lemma_text_at, nul_free};
use crate::values::{text_in, uint_in};

verus! {

/// The bytes of a number of `size` bytes.
pub open spec fn spelled(v: nat, size: nat, order: ByteOrder) -> Seq<u8> {
    match order {
        ByteOrder::Little => le_bytes(v, size),
        ByteOrder::Big => be_bytes(v, size),
    }
}

/// The run of `size` bytes behind `i` others.
pub open spec fn piece(data: Seq<u8>, i: int, size: nat) -> Seq<u8> {
    data.subrange(i * size, i * size + size)
}

/// Whether bytes are `n` runs of `size` bytes.
pub open spec fn runs(data: Seq<u8>, n: nat, size: nat) -> bool {
    data.len() == n * size
}

/// The bytes of a text of at most `n` bytes: the text, and zeros behind it.
pub open spec fn padded_text(chars: Seq<char>, n: nat) -> Seq<u8> {
    encode_utf8(chars) + zeros((n - encode_utf8(chars).len()) as nat)
}

/// A number reads back from the bytes that spell it.
pub proof fn law_number_reads_back(v: nat, size: nat, order: ByteOrder, data: Seq<u8>)
    requires
        v < pow256(size),
        size <= data.len(),
        data.subrange(0, size as int) == spelled(v, size, order),
    ensures
        uint_in(data, size, order) == v,
{
    lemma_spelled_len(v, size, order);
    match order {
        ByteOrder::Little => lemma_le_round_trip(v, size, data, 0),
        ByteOrder::Big => lemma_be_round_trip(v, size, data, 0),
    }
}

pub proof fn lemma_spelled_len(v: nat, size: nat, order: ByteOrder)
    ensures
        spelled(v, size, order).len() == size,
{
    lemma_le_bytes_len(v, size);
    lemma_be_bytes_len(v, size);
}

/// Where a run lies.
pub proof fn lemma_piece(data: Seq<u8>, n: nat, size: nat, i: int)
    requires
        data.len() >= n * size,
        0 <= i < n,
    ensures
        0 <= i * size,
        i * size + size <= data.len(),
        (i + 1) * size == i * size + size,
        piece(data, i, size).len() == size,
{
    assert(0 <= i * size && (i + 1) * size <= n * size && (i + 1) * size == i * size + size)
        by (nonlinear_arith)
        requires
            0 <= i < n,
            size >= 0,
    ;
}

/// How many runs there are.
pub proof fn lemma_runs(data: Seq<u8>, n: nat, size: nat)
    requires
        runs(data, n, size),
        size > 0,
    ensures
        data.len() % size == 0,
        data.len() / size == n,
{
    let a = n as int;
    let b = size as int;
    vstd::arithmetic::div_mod::lemma_mod_multiples_basic(a, b);
    vstd::arithmetic::div_mod::lemma_div_multiples_vanish(a, b);
    assert(b * a == a * b) by (nonlinear_arith);
}

/// A padded text reads back.
pub proof fn law_padded_text_reads_back(chars: Seq<char>, n: nat)
    requires
        nul_free(chars),
        encode_utf8(chars).len() <= n,
    ensures
        padded_text(chars, n).len() == n,
        text_in(padded_text(chars, n)) == Ok::<Seq<char>, ErrorKind>(chars),
{
    let data = padded_text(chars, n);
    let e = encode_utf8(chars);
    assert(data.subrange(0, e.len() as int) =~= e);
    lemma_text_at(data, 0, chars);
}

/// Whether a dataspace has one position: it has no dimension, or each has one position.
pub open spec fn one_position(space: DataspaceModel) -> bool {
    match space {
        DataspaceModel::Scalar => true,
        DataspaceModel::Null => false,
        DataspaceModel::Simple { dims, .. } => forall|d: int|
            0 <= d < dims.len() ==> #[trigger] dims[d] == 1,
    }
}

pub proof fn lemma_product_of_ones(dims: Seq<int>)
    requires
        forall|d: int| 0 <= d < dims.len() ==> #[trigger] dims[d] == 1,
    ensures
        product(dims) == 1,
    decreases dims.len(),
{
    if dims.len() > 0 {
        lemma_product_of_ones(dims.drop_last());
        assert(dims[dims.len() - 1] == 1);
    }
}

/// How many elements a list has along one dimension.
pub open spec fn listed(space: DataspaceModel, n: nat) -> bool {
    match space {
        DataspaceModel::Scalar => n == 1,
        DataspaceModel::Null => n == 0,
        DataspaceModel::Simple { dims, .. } => dims.len() == 1 && dims[0] == n,
    }
}

} // verus!
