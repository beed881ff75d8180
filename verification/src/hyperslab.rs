//! Strided selections.
//!
//! Along each dimension a selection is `count` blocks of `block` positions, the first
//! at `start`, each `stride` behind the one before.

use vstd::prelude::*;
use crate::bytes::{push_all, to_usize};
use crate::chunked::{flat_index, lemma_byte, lemma_byte_of, plus};
use crate::dataset::{
    cut_bytes, range_lengths, range_starts, range_within, ranges_within,
};
use crate::dims::{
    exact_total64, flat_to_coords, in_box, ints, ints64, law_rank_then_unrank, law_strides_unrank,
    law_row_major_order, law_unrank_then_rank, lemma_first_difference, lemma_product_non_negative, lemma_product_prefix, lemma_product_zero,
    lemma_strides_fit, precedes, product, rank, row_major_strides, strides_of, unrank,
};
use crate::error::{outcome, text, ErrorKind, OxiH5Error};

verus! {

/// The selection along one dimension.
#[derive(Debug, Clone, Copy, PartialEq, Eq, Structural)]
pub struct DimSelection {
    pub start: u64,
    pub stride: u64,
    pub count: u64,
    pub block: u64,
}

/// One selection for each dimension.
#[derive(Debug)]
pub struct Hyperslab {
    pub dims: Vec<DimSelection>,
}

/// How many positions are selected.
pub open spec fn selected_len(s: DimSelection) -> int {
    s.count * s.block
}

/// The end of the selection: behind its last position, or its start where it has
/// none.
pub open spec fn selected_end(s: DimSelection) -> int {
    if s.count == 0 || s.block == 0 {
        s.start as int
    } else {
        s.start + (s.count - 1) * s.stride + s.block
    }
}

/// The position that is selected as number `o`.
pub open spec fn selected_position(s: DimSelection, o: int) -> int {
    s.start + (o / s.block as int) * s.stride + o % s.block as int
}

/// A number, or the largest of 64 bits.
pub open spec fn saturated(n: int) -> u64 {
    if n <= u64::MAX {
        n as u64
    } else {
        u64::MAX
    }
}

/// How many positions are selected along each dimension.
pub open spec fn selected_shape(dims: Seq<DimSelection>) -> Seq<int> {
    Seq::new(dims.len(), |d: int| selected_len(dims[d]))
}

/// Where the element at `o` of the result comes from.
pub open spec fn selected_source(dims: Seq<DimSelection>, o: Seq<int>) -> Seq<int> {
    Seq::new(dims.len(), |d: int| selected_position(dims[d], o[d]))
}

fn product_capped(a: u64, b: u64) -> (r: u64)
    ensures
        r == saturated(a * b),
{
    proof {
        assert(0 <= a * b) by (nonlinear_arith);
    }
    match a.checked_mul(b) {
        Some(n) => n,
        None => u64::MAX,
    }
}

/// The end of a selection where it has 64 bits.
fn exact_end(s: DimSelection) -> (r: Option<u64>)
    ensures
        match r {
            Some(end) => end == selected_end(s),
            None => selected_end(s) > u64::MAX,
        },
{
    if s.count == 0 || s.block == 0 {
        return Some(s.start);
    }
    proof {
        let n = s.count - 1;
        assert(0 <= n * s.stride) by (nonlinear_arith)
            requires
                n >= 0,
                s.stride >= 0,
        ;
    }
    let span: u64 = match (s.count - 1).checked_mul(s.stride) {
        Some(n) => n,
        None => {
            return None;
        },
    };
    match s.start.checked_add(span) {
        None => None,
        Some(last) => last.checked_add(s.block),
    }
}

fn end_of(s: DimSelection) -> (r: u64)
    ensures
        r == saturated(selected_end(s)),
{
    match exact_end(s) {
        Some(end) => end,
        None => u64::MAX,
    }
}

impl Hyperslab {
    /// The smallest range along each dimension that holds the selection; an end
    /// beyond 64 bits is given as the largest number.
    pub fn bounding_ranges(&self) -> (r: Vec<std::ops::Range<u64>>)
        ensures
            r@.len() == self.dims@.len(),
            forall|d: int|
                0 <= d < r@.len() ==> (#[trigger] r@[d]).start == self.dims@[d].start && r@[d].end
                    == saturated(selected_end(self.dims@[d])),
    {
        let mut ranges: Vec<std::ops::Range<u64>> = Vec::new();
        for i in 0..self.dims.len()
            invariant
                ranges@.len() == i,
                forall|d: int|
                    0 <= d < i ==> (#[trigger] ranges@[d]).start == self.dims@[d].start
                        && ranges@[d].end == saturated(selected_end(self.dims@[d])),
        {
            let s: DimSelection = self.dims[i];
            ranges.push(std::ops::Range { start: s.start, end: end_of(s) });
        }
        ranges
    }

    /// How many positions are selected along each dimension; a number beyond 64 bits
    /// is given as the largest one.
    pub fn output_shape(&self) -> (r: Vec<u64>)
        ensures
            r@.len() == self.dims@.len(),
            forall|d: int|
                0 <= d < r@.len() ==> #[trigger] r@[d] == saturated(selected_len(self.dims@[d])),
    {
        let mut shape: Vec<u64> = Vec::new();
        for i in 0..self.dims.len()
            invariant
                shape@.len() == i,
                forall|d: int|
                    0 <= d < i ==> #[trigger] shape@[d] == saturated(selected_len(self.dims@[d])),
        {
            let s: DimSelection = self.dims[i];
            shape.push(product_capped(s.count, s.block));
        }
        shape
    }
}

/// Whether there is one selection for each dimension, with all its blocks within the
/// extent.
pub open spec fn selects_within(dims: Seq<DimSelection>, extents: Seq<int>) -> bool {
    &&& dims.len() == extents.len()
    &&& forall|d: int| 0 <= d < dims.len() ==> selected_end(#[trigger] dims[d]) <= extents[d]
}

/// The bytes of the selected elements, in row-major order of the selection.
pub open spec fn gathered(
    data: Seq<u8>,
    extents: Seq<int>,
    dims: Seq<DimSelection>,
    es: nat,
) -> Seq<u8> {
    let shape = selected_shape(dims);
    Seq::new(
        (product(shape) * es) as nat,
        |b: int|
            data[rank(extents, selected_source(dims, unrank(shape, b / es as int))) * es + b
                % es as int],
    )
}

/// What gathering takes: data of all elements, a selection within the extents, and a
/// result whose size is a machine number.
pub open spec fn can_gather(
    data: Seq<u8>,
    extents: Seq<int>,
    dims: Seq<DimSelection>,
    es: nat,
) -> bool {
    &&& selects_within(dims, extents)
    &&& product(extents) * es <= data.len()
    &&& product(extents) <= usize::MAX
    &&& product(selected_shape(dims)) <= usize::MAX
    &&& product(selected_shape(dims)) * es <= usize::MAX
}

fn refused(why: &str) -> (r: OxiH5Error)
    ensures
        r@ == ErrorKind::Format,
{
    OxiH5Error::Format(text(&["hyperslab: ", why]))
}

/// The number of selected elements, where it is a `usize`.
fn selected_total(dims: &[DimSelection]) -> (r: Option<usize>)
    ensures
        match r {
            Some(n) => n == product(selected_shape(dims@)),
            None => product(selected_shape(dims@)) > usize::MAX,
        },
{
    let ghost all = selected_shape(dims@);
    for i in 0..dims.len()
        invariant
            all == selected_shape(dims@),
            forall|k: int| 0 <= k < i ==> 0 < #[trigger] all[k],
    {
        assert(all[i as int] == selected_len(dims@[i as int]));
        if dims[i].count == 0 || dims[i].block == 0 {
            proof {
                let s = dims@[i as int];
                assert(s.count * s.block == 0) by (nonlinear_arith)
                    requires
                        s.count == 0 || s.block == 0,
                ;
                lemma_product_zero(all, i as int);
            }
            return Some(0);
        }
        proof {
            let s = dims@[i as int];
            assert(s.count * s.block > 0) by (nonlinear_arith)
                requires
                    s.count > 0,
                    s.block > 0,
            ;
        }
    }
    let mut total: usize = 1;
    proof {
        assert(all.take(0) =~= Seq::<int>::empty());
    }
    for i in 0..dims.len()
        invariant
            all == selected_shape(dims@),
            forall|k: int| 0 <= k < dims@.len() ==> 0 < #[trigger] all[k],
            total == product(all.take(i as int)),
    {
        let s: DimSelection = dims[i];
        proof {
            assert(all.take(i + 1).drop_last() =~= all.take(i as int));
            assert(all.take(i + 1).last() == s.count * s.block);
            lemma_product_prefix(all, i as int);
            lemma_product_prefix(all, i + 1);
            let n = s.count * s.block;
            assert(total * n >= n) by (nonlinear_arith)
                requires
                    total >= 1,
                    n >= 0,
            ;
            assert(0 < all[i as int]);
        }
        let len: usize = match s.count.checked_mul(s.block) {
            None => {
                return None;
            },
            Some(n) => match to_usize(n) {
                None => {
                    return None;
                },
                Some(n) => n,
            },
        };
        match total.checked_mul(len) {
            None => {
                return None;
            },
            Some(n) => {
                total = n;
            },
        }
    }
    proof {
        assert(all.take(dims@.len() as int) =~= all);
    }
    Some(total)
}

/// Each selected position lies before the end of the selection.
pub proof fn lemma_position_bounds(s: DimSelection, o: int)
    requires
        0 <= o < selected_len(s),
    ensures
        s.start <= selected_position(s, o) < selected_end(s),
{
    let b = s.block as int;
    let n = s.count as int;
    let t = s.stride as int;
    assert(b > 0 && n > 0) by (nonlinear_arith)
        requires
            0 <= o < n * b,
            b >= 0,
            n >= 0,
    ;
    let q = o / b;
    vstd::arithmetic::div_mod::lemma_fundamental_div_mod(o, b);
    vstd::arithmetic::div_mod::lemma_div_pos_is_pos(o, b);
    assert(q <= n - 1) by (nonlinear_arith)
        requires
            o == b * q + o % b,
            0 <= o % b < b,
            o < n * b,
            b > 0,
    ;
    assert(0 <= q * t <= (n - 1) * t) by (nonlinear_arith)
        requires
            0 <= q <= n - 1,
            t >= 0,
    ;
}

/// Whether the selection ends within the extents.
fn is_within(selection: &[DimSelection], dims: &[u64]) -> (r: bool)
    ensures
        r == selects_within(selection@, ints64(dims@)),
{
    let n: usize = dims.len();
    if selection.len() != n {
        return false;
    }
    for d in 0..n
        invariant
            n == dims@.len() == selection@.len(),
            forall|k: int|
                0 <= k < d ==> selected_end(#[trigger] selection@[k]) <= ints64(dims@)[k],
    {
        let inside: bool = match exact_end(selection[d]) {
            Some(end) => end <= dims[d],
            None => false,
        };
        if !inside {
            assert(selected_end(selection@[d as int]) > ints64(dims@)[d as int]);
            return false;
        }
    }
    true
}

/// How many positions are selected along each dimension, where there are some and all
/// of them are counted by a `usize`.
fn shape_selected(selection: &[DimSelection]) -> (r: Vec<u64>)
    requires
        0 < product(selected_shape(selection@)) <= usize::MAX,
    ensures
        ints64(r@) == selected_shape(selection@),
        forall|d: int| 0 <= d < r@.len() ==> 0 < #[trigger] selected_shape(selection@)[d],
{
    let ghost shape = selected_shape(selection@);
    let n: usize = selection.len();
    let mut wide: Vec<u64> = Vec::new();
    proof {
        assert forall|d: int| 0 <= d < n implies 0 < #[trigger] shape[d] by {
            let s = selection@[d];
            assert(0 <= s.count * s.block) by (nonlinear_arith);
            if shape[d] == 0 {
                lemma_product_zero(shape, d);
            }
        }
    }
    for d in 0..n
        invariant
            n == selection@.len(),
            shape == selected_shape(selection@),
            forall|k: int| 0 <= k < n ==> 0 < #[trigger] shape[k],
            product(shape) <= usize::MAX,
            wide@.len() == d,
            forall|k: int| 0 <= k < d ==> #[trigger] wide@[k] == shape[k],
    {
        proof {
            lemma_extent_at_most_product(shape, d as int);
            assert(shape[d as int] == selection@[d as int].count * selection@[d as int].block);
        }
        wide.push(selection[d].count * selection[d].block);
    }
    proof {
        assert(ints64(wide@) =~= shape);
    }
    wide
}

/// What is selected lies in extents without a zero.
proof fn lemma_extents_positive(selection: Seq<DimSelection>, extents: Seq<int>)
    requires
        selects_within(selection, extents),
        forall|d: int| 0 <= d < selection.len() ==> 0 < #[trigger] selected_shape(selection)[d],
    ensures
        forall|d: int| 0 <= d < extents.len() ==> 0 < #[trigger] extents[d],
{
    assert forall|d: int| 0 <= d < extents.len() implies 0 < #[trigger] extents[d] by {
        assert(0 < selected_shape(selection)[d]);
        lemma_position_bounds(selection[d], 0);
    }
}

/// The place of a dataset's element that is selected as number `e`.
pub open spec fn selected_place(extents: Seq<int>, dims: Seq<DimSelection>, e: int) -> int {
    rank(extents, selected_source(dims, unrank(selected_shape(dims), e)))
}

/// The place of the element that is selected as number `e`.
fn place_selected(
    selection: &[DimSelection],
    dims: &[u64],
    out_strides: &[usize],
    src_strides: &[usize],
    e: usize,
) -> (p: usize)
    requires
        selects_within(selection@, ints64(dims@)),
        product(ints64(dims@)) <= usize::MAX,
        forall|d: int| 0 <= d < dims@.len() ==> 0 < #[trigger] selected_shape(selection@)[d],
        e < product(selected_shape(selection@)),
        out_strides@.len() == dims@.len(),
        src_strides@.len() == dims@.len(),
        ints(out_strides@) == strides_of(selected_shape(selection@)),
        ints(src_strides@) == strides_of(ints64(dims@)),
    ensures
        p == selected_place(ints64(dims@), selection@, e as int),
        p < product(ints64(dims@)),
{
    let ghost extents = ints64(dims@);
    let ghost sel = selection@;
    let ghost shape = selected_shape(sel);
    let ndims: usize = dims.len();
    let rel: Vec<u64> = flat_to_coords(e, out_strides, ndims);
    let ghost o = unrank(shape, e as int);
    let ghost g = selected_source(sel, o);
    proof {
        law_strides_unrank(shape, e as int);
        law_unrank_then_rank(shape, e as int);
        assert(ints64(rel@) == o);
        assert forall|d: int| 0 <= d < ndims implies 0 <= #[trigger] g[d] < extents[d] by {
            assert(0 <= o[d] < shape[d]);
            lemma_position_bounds(sel[d], o[d]);
            assert(selected_end(sel[d]) <= extents[d]);
        }
        assert(in_box(extents, g));
        law_rank_then_unrank(extents, g);
    }
    let mut from: Vec<u64> = Vec::new();
    for d in 0..ndims
        invariant
            ndims == dims@.len() == sel.len() == rel@.len(),
            sel == selection@,
            extents == ints64(dims@),
            shape == selected_shape(sel),
            o == ints64(rel@),
            in_box(shape, o),
            g == selected_source(sel, o),
            in_box(extents, g),
            from@.len() == d,
            forall|k: int| 0 <= k < d ==> #[trigger] from@[k] == g[k],
    {
        let s: DimSelection = selection[d];
        let at: u64 = rel[d];
        proof {
            assert(o[d as int] == at);
            assert(0 <= o[d as int] < shape[d as int]);
            lemma_position_bounds(s, at as int);
            assert(0 <= g[d as int] < extents[d as int]);
            assert(extents[d as int] == dims@[d as int]);
            assert(s.block > 0) by (nonlinear_arith)
                requires
                    0 <= at < s.count * s.block,
                    s.block >= 0,
            ;
            let q = at as int / s.block as int;
            assert(0 <= q * s.stride) by (nonlinear_arith)
                requires
                    q >= 0,
                    s.stride >= 0,
            ;
            assert(at / s.block == q);
        }
        from.push(s.start + (at / s.block) * s.stride + at % s.block);
    }
    proof {
        assert(ints64(from@) =~= g);
    }
    flat_index(&from, dims, src_strides)
}

/// The places of the selected elements, in row-major order of the selection.
pub open spec fn selected_places(extents: Seq<int>, dims: Seq<DimSelection>) -> Seq<int> {
    Seq::new(
        product(selected_shape(dims)) as nat,
        |e: int| selected_place(extents, dims, e),
    )
}

/// The places of the selected elements in a dataset of those extents.
pub fn element_places(dims: &[u64], selection: &[DimSelection]) -> (r: Result<
    Vec<usize>,
    OxiH5Error,
>)
    ensures
        match r {
            Ok(places) => {
                &&& selects_within(selection@, ints64(dims@))
                &&& product(ints64(dims@)) <= usize::MAX
                &&& product(selected_shape(selection@)) <= usize::MAX
                &&& ints(places@) == selected_places(ints64(dims@), selection@)
            },
            Err(e) => {
                &&& e@ == ErrorKind::Format
                &&& !(selects_within(selection@, ints64(dims@)) && product(ints64(dims@))
                    <= usize::MAX && product(selected_shape(selection@)) <= usize::MAX)
            },
        },
{
    let ghost extents = ints64(dims@);
    let ghost shape = selected_shape(selection@);
    if !is_within(selection, dims) {
        return Err(refused("the selection is out of bounds"));
    }
    if exact_total64(dims).is_none() {
        return Err(refused("the dataset is too large"));
    }
    let count: usize = match selected_total(selection) {
        Some(n) => n,
        None => {
            return Err(refused("the selection is too large"));
        },
    };
    let mut places: Vec<usize> = Vec::new();
    if count == 0 {
        proof {
            assert(ints(places@) =~= selected_places(extents, selection@));
        }
        return Ok(places);
    }
    let wide: Vec<u64> = shape_selected(selection);
    proof {
        lemma_strides_fit(shape);
        lemma_extents_positive(selection@, extents);
        lemma_strides_fit(extents);
    }
    let out_strides: Vec<usize> = row_major_strides(&wide);
    let src_strides: Vec<usize> = row_major_strides(dims);
    for e in 0..count
        invariant
            extents == ints64(dims@),
            shape == selected_shape(selection@),
            selects_within(selection@, extents),
            product(extents) <= usize::MAX,
            count == product(shape),
            forall|d: int| 0 <= d < dims@.len() ==> 0 < #[trigger] shape[d],
            out_strides@.len() == dims@.len(),
            src_strides@.len() == dims@.len(),
            ints(out_strides@) == strides_of(shape),
            ints(src_strides@) == strides_of(extents),
            places@.len() == e,
            forall|k: int|
                0 <= k < e ==> #[trigger] places@[k] == selected_place(extents, selection@, k),
    {
        places.push(place_selected(selection, dims, &out_strides, &src_strides, e));
    }
    proof {
        assert(ints(places@) =~= selected_places(extents, selection@));
    }
    Ok(places)
}

/// Copy the selected elements out of data of those extents.
pub fn gather_hyperslab_contiguous(
    data: &[u8],
    dims: &[u64],
    selection: &Hyperslab,
    elem_size: usize,
) -> (r: Result<Vec<u8>, OxiH5Error>)
    ensures
        outcome(r) == (if can_gather(
            data@,
            ints64(dims@),
            selection.dims@,
            elem_size as nat,
        ) {
            Ok(gathered(data@, ints64(dims@), selection.dims@, elem_size as nat))
        } else {
            Err(ErrorKind::Format)
        }),
{
    let ghost extents = ints64(dims@);
    let ghost sel = selection.dims@;
    let ghost shape = selected_shape(sel);
    let ghost es = elem_size as int;
    if !is_within(&selection.dims, dims) {
        return Err(refused("the selection is out of bounds"));
    }
    proof {
        lemma_product_non_negative(extents);
    }
    let whole: usize = match exact_total64(dims) {
        Some(n) => n,
        None => {
            return Err(refused("the dataset is too large"));
        },
    };
    proof {
        assert(0 <= whole * es) by (nonlinear_arith)
            requires
                whole >= 0,
                es >= 0,
        ;
        assert(data.len() <= usize::MAX);
    }
    match whole.checked_mul(elem_size) {
        None => {
            return Err(refused("the data is truncated"));
        },
        Some(n) => {
            if n > data.len() {
                return Err(refused("the data is truncated"));
            }
        },
    }
    let count: usize = match selected_total(&selection.dims) {
        Some(n) => n,
        None => {
            return Err(refused("the selection is too large"));
        },
    };
    proof {
        assert(0 <= count * es) by (nonlinear_arith)
            requires
                count >= 0,
                es >= 0,
        ;
    }
    if count.checked_mul(elem_size).is_none() {
        return Err(refused("the selection is too large"));
    }
    let ghost goal = gathered(data@, extents, sel, elem_size as nat);
    let mut out: Vec<u8> = Vec::new();
    if count == 0 || elem_size == 0 {
        proof {
            assert(count * es == 0) by (nonlinear_arith)
                requires
                    count == 0 || es == 0,
            ;
            assert(out@ =~= goal);
        }
        return Ok(out);
    }
    let wide: Vec<u64> = shape_selected(&selection.dims);
    proof {
        lemma_strides_fit(shape);
        lemma_extents_positive(sel, extents);
        lemma_strides_fit(extents);
        assert(0 * es == 0);
        assert(out@ =~= goal.take(0 * es));
    }
    let out_strides: Vec<usize> = row_major_strides(&wide);
    let src_strides: Vec<usize> = row_major_strides(dims);
    for e in 0..count
        invariant
            sel == selection.dims@,
            shape == selected_shape(sel),
            extents == ints64(dims@),
            es == elem_size,
            elem_size > 0,
            goal == gathered(data@, extents, sel, elem_size as nat),
            forall|k: int| 0 <= k < dims@.len() ==> 0 < #[trigger] shape[k],
            selects_within(sel, extents),
            count == product(shape),
            count * es <= usize::MAX,
            goal.len() == count * es,
            product(extents) <= usize::MAX,
            product(extents) * es <= data@.len() <= usize::MAX,
            out_strides@.len() == dims@.len(),
            src_strides@.len() == dims@.len(),
            ints(out_strides@) == strides_of(shape),
            ints(src_strides@) == strides_of(extents),
            out@ == goal.take(e * es),
    {
        let p: usize = place_selected(&selection.dims, dims, &out_strides, &src_strides, e);
        proof {
            assert(p * es + es <= product(extents) * es) by (nonlinear_arith)
                requires
                    p + 1 <= product(extents),
                    es > 0,
            ;
            assert(0 <= p * es) by (nonlinear_arith)
                requires
                    es > 0,
            ;
            assert((e + 1) * es == e * es + es) by (nonlinear_arith);
            assert(e * es + es <= count * es) by (nonlinear_arith)
                requires
                    e + 1 <= count,
                    es > 0,
            ;
            assert(0 <= e * es) by (nonlinear_arith)
                requires
                    es > 0,
            ;
        }
        push_all(
            &mut out,
            vstd::slice::slice_subrange(data, p * elem_size, p * elem_size + elem_size),
        );
        proof {
            assert forall|b: int| e * es <= b < (e + 1) * es implies goal[b] == data@[p * es + b
                % es] by {
                lemma_byte_of(b, e as int, es);
            }
            let part = data@.subrange(p * es, p * es + es);
            assert forall|b: int| 0 <= b < (e + 1) * es implies goal.take((e + 1) * es)[b]
                == #[trigger] (goal.take(e * es) + part)[b] by {
                if b >= e * es {
                    lemma_byte_of(b, e as int, es);
                }
            }
            assert(out@ =~= goal.take((e + 1) * es));
        }
    }
    proof {
        assert(out@ =~= goal);
    }
    Ok(out)
}

/// Without zero extents, none exceeds the product.
proof fn lemma_extent_at_most_product(dims: Seq<int>, d: int)
    requires
        forall|i: int| 0 <= i < dims.len() ==> 0 < #[trigger] dims[i],
        0 <= d < dims.len(),
    ensures
        dims[d] <= product(dims),
{
    lemma_product_prefix(dims, d);
    lemma_product_prefix(dims, d + 1);
    assert(dims.take(d + 1).drop_last() =~= dims.take(d));
    assert(dims.take(d + 1).last() == dims[d]);
    let a = product(dims.take(d));
    assert(a * dims[d] >= dims[d]) by (nonlinear_arith)
        requires
            a >= 1,
            dims[d] > 0,
    ;
}

/// The selection of every position in a range.
pub open spec fn every_position(ranges: Seq<std::ops::Range<usize>>) -> Seq<DimSelection> {
    Seq::new(
        ranges.len(),
        |d: int|
            DimSelection {
                start: ranges[d].start as u64,
                stride: 1,
                count: (ranges[d].end - ranges[d].start) as u64,
                block: 1,
            },
    )
}

/// Selecting every position of some ranges gives what cutting these ranges out gives.
pub proof fn law_selection_of_ranges_is_slice(
    data: Seq<u8>,
    extents: Seq<int>,
    ranges: Seq<std::ops::Range<usize>>,
    es: nat,
)
    requires
        ranges_within(ranges, extents),
        product(extents) * es <= data.len(),
    ensures
        gathered(data, extents, every_position(ranges), es) == cut_bytes(data, extents, ranges, es),
{
    let sel = every_position(ranges);
    let want = range_lengths(ranges);
    let shape = selected_shape(sel);
    assert forall|d: int| 0 <= d < ranges.len() implies #[trigger] shape[d] == want[d] by {
        assert(range_within(ranges[d], extents[d]));
        assert(sel[d].count * 1 == sel[d].count);
    }
    assert(shape =~= want);
    let got = gathered(data, extents, sel, es);
    let cut = cut_bytes(data, extents, ranges, es);
    assert forall|d: int| 0 <= d < want.len() implies 0 <= #[trigger] want[d] by {
        assert(range_within(ranges[d], extents[d]));
    }
    lemma_product_non_negative(want);
    assert forall|b: int| 0 <= b < got.len() implies #[trigger] got[b] == cut[b] by {
        assert(es > 0 && product(want) > 0) by (nonlinear_arith)
            requires
                0 <= b < product(want) * es,
                es >= 0,
                product(want) >= 0,
        ;
        lemma_byte(b, es as int);
        let e = b / es as int;
        assert(e < product(want)) by (nonlinear_arith)
            requires
                e * es <= b,
                b < product(want) * es,
                es > 0,
        ;
        law_unrank_then_rank(want, e);
        let o = unrank(want, e);
        let g = plus(o, range_starts(ranges));
        assert(selected_source(sel, o) =~= g) by {
            assert forall|d: int| 0 <= d < sel.len() implies #[trigger] selected_source(
                sel,
                o,
            )[d] == g[d] by {
                assert(0 <= o[d] < want[d]);
                assert(o[d] / 1 == o[d] && o[d] % 1 == 0);
                assert(o[d] * 1 == o[d]);
            }
        }
        assert(in_box(extents, g)) by {
            assert forall|d: int| 0 <= d < extents.len() implies 0 <= #[trigger] g[d]
                < extents[d] by {
                assert(range_within(ranges[d], extents[d]));
                assert(0 <= o[d] < want[d]);
            }
        }
        law_rank_then_unrank(extents, g);
        let p = rank(extents, g);
        assert((p + 1) * es <= product(extents) * es) by (nonlinear_arith)
            requires
                p + 1 <= product(extents),
                es > 0,
        ;
    }
    assert(got =~= cut);
}

/// Selecting every position of every dimension gives the whole data.
pub proof fn law_whole_selection_is_identity(
    data: Seq<u8>,
    extents: Seq<int>,
    ranges: Seq<std::ops::Range<usize>>,
    es: nat,
)
    requires
        ranges.len() == extents.len(),
        forall|d: int|
            0 <= d < extents.len() ==> (#[trigger] ranges[d]).start == 0 && ranges[d].end
                == extents[d],
        data.len() == product(extents) * es,
    ensures
        gathered(data, extents, every_position(ranges), es) == data,
{
    assert forall|d: int| 0 <= d < extents.len() implies #[trigger] range_within(
        ranges[d],
        extents[d],
    ) by {
        assert(ranges[d].start == 0 && ranges[d].end == extents[d]);
    }
    law_selection_of_ranges_is_slice(data, extents, ranges, es);
    let want = range_lengths(ranges);
    assert(want =~= extents) by {
        assert forall|d: int| 0 <= d < extents.len() implies #[trigger] want[d] == extents[d] by {
            assert(ranges[d].start == 0 && ranges[d].end == extents[d]);
        }
    }
    let cut = cut_bytes(data, extents, ranges, es);
    assert forall|d: int| 0 <= d < want.len() implies 0 <= #[trigger] want[d] by {
        assert(range_within(ranges[d], extents[d]));
    }
    lemma_product_non_negative(want);
    assert forall|b: int| 0 <= b < data.len() implies #[trigger] cut[b] == data[b] by {
        assert(es > 0) by (nonlinear_arith)
            requires
                0 <= b < product(want) * es,
                es >= 0,
                product(want) >= 0,
        ;
        lemma_byte(b, es as int);
        let e = b / es as int;
        assert(e < product(want)) by (nonlinear_arith)
            requires
                e * es <= b,
                b < product(want) * es,
                es > 0,
        ;
        law_unrank_then_rank(want, e);
        let o = unrank(want, e);
        assert(plus(o, range_starts(ranges)) =~= o) by {
            assert forall|d: int| 0 <= d < o.len() implies #[trigger] plus(
                o,
                range_starts(ranges),
            )[d] == o[d] by {
                assert(ranges[d].start == 0);
            }
        }
        assert((e + 1) * es <= product(want) * es) by (nonlinear_arith)
            requires
                e + 1 <= product(want),
                es > 0,
        ;
    }
    assert(cut =~= data);
}

/// What is selected along a dimension: the `j`-th position of the `k`-th block is selected
/// as number `k * block + j`, and lies `j` behind the block's start, which is `k` strides
/// behind the start of the selection.
pub proof fn law_block_positions(s: DimSelection, k: int, j: int)
    requires
        0 <= k < s.count,
        0 <= j < s.block,
    ensures
        0 <= k * s.block + j < selected_len(s),
        selected_position(s, k * s.block + j) == s.start + k * s.stride + j,
{
    let b = s.block as int;
    let o = k * b + j;
    assert(k * b == b * k) by (nonlinear_arith);
    vstd::arithmetic::div_mod::lemma_fundamental_div_mod_converse(o, b, k, j);
    assert(0 <= o < s.count * b) by (nonlinear_arith)
        requires
            o == k * b + j,
            0 <= k,
            k + 1 <= s.count,
            0 <= j < b,
    ;
}

/// Every selected position is one of a block.
proof fn lemma_position_in_block(s: DimSelection, o: int) -> (at: (int, int))
    requires
        0 <= o < selected_len(s),
    ensures
        0 <= at.0 < s.count,
        0 <= at.1 < s.block,
        o == at.0 * s.block + at.1,
{
    let b = s.block as int;
    let n = s.count as int;
    assert(b > 0 && n > 0) by (nonlinear_arith)
        requires
            0 <= o < n * b,
            b >= 0,
            n >= 0,
    ;
    let k = o / b;
    let j = o % b;
    vstd::arithmetic::div_mod::lemma_fundamental_div_mod(o, b);
    vstd::arithmetic::div_mod::lemma_div_pos_is_pos(o, b);
    assert(b * k == k * b) by (nonlinear_arith);
    assert(k < n) by (nonlinear_arith)
        requires
            o == k * b + j,
            0 <= j,
            o < n * b,
            b > 0,
    ;
    (k, j)
}

/// Positions are selected in ascending order, where no block reaches into the next.
pub proof fn law_positions_ascend(s: DimSelection, o: int, p: int)
    requires
        s.block <= s.stride,
        0 <= o < p < selected_len(s),
    ensures
        selected_position(s, o) < selected_position(s, p),
{
    let (k, j) = lemma_position_in_block(s, o);
    let (l, i) = lemma_position_in_block(s, p);
    law_block_positions(s, k, j);
    law_block_positions(s, l, i);
    let b = s.block as int;
    let t = s.stride as int;
    if k == l {
    } else {
        assert(k < l) by (nonlinear_arith)
            requires
                k * b + j < l * b + i,
                k != l,
                0 <= j < b,
                0 <= i < b,
        ;
        assert(k * t + t <= l * t) by (nonlinear_arith)
            requires
                k + 1 <= l,
                t >= 0,
        ;
    }
}

/// Whether a position is one of the `count` blocks of `block` positions.
pub open spec fn in_a_block(s: DimSelection, x: int) -> bool {
    exists|k: int, j: int|
        0 <= k < s.count && 0 <= j < s.block && x == #[trigger] (s.start + k * s.stride + j)
}

/// Exactly the positions of the blocks are selected.
pub proof fn law_blocks_are_selected(s: DimSelection, x: int)
    ensures
        in_a_block(s, x) <==> exists|o: int|
            0 <= o < selected_len(s) && #[trigger] selected_position(s, o) == x,
{
    if in_a_block(s, x) {
        let (k, j) = choose|k: int, j: int|
            0 <= k < s.count && 0 <= j < s.block && x == #[trigger] (s.start + k * s.stride + j);
        law_block_positions(s, k, j);
        assert(selected_position(s, k * s.block + j) == x);
    }
    if exists|o: int| 0 <= o < selected_len(s) && #[trigger] selected_position(s, o) == x {
        let o = choose|o: int| 0 <= o < selected_len(s) && #[trigger] selected_position(s, o) == x;
        let (k, j) = lemma_position_in_block(s, o);
        law_block_positions(s, k, j);
        assert(x == s.start + k * s.stride + j);
    }
}

/// Every selected element is an element of the dataset.
pub proof fn law_selected_place_is_within(extents: Seq<int>, dims: Seq<DimSelection>, e: int)
    requires
        selects_within(dims, extents),
        0 <= e < product(selected_shape(dims)),
    ensures
        0 <= selected_place(extents, dims, e) < product(extents),
{
    let shape = selected_shape(dims);
    let a = unrank(shape, e);
    assert forall|d: int| 0 <= d < shape.len() implies 0 <= #[trigger] shape[d] by {
        assert(dims[d].count * dims[d].block >= 0) by (nonlinear_arith);
    }
    law_unrank_then_rank(shape, e);
    let g = selected_source(dims, a);
    assert forall|d: int| 0 <= d < dims.len() implies 0 <= #[trigger] g[d] < extents[d] by {
        assert(0 <= a[d] < shape[d]);
        lemma_position_bounds(dims[d], a[d]);
        assert(selected_end(dims[d]) <= extents[d]);
    }
    law_rank_then_unrank(extents, g);
}

/// The selected elements stay in the order of the dataset: an element that is selected
/// before another comes before it there, where no block reaches into the next.
pub proof fn law_elements_stay_in_order(
    extents: Seq<int>,
    dims: Seq<DimSelection>,
    e: int,
    f: int,
)
    requires
        selects_within(dims, extents),
        forall|d: int| 0 <= d < dims.len() ==> (#[trigger] dims[d]).block <= dims[d].stride,
        0 <= e < f < product(selected_shape(dims)),
    ensures
        0 <= selected_place(extents, dims, e) < selected_place(extents, dims, f) < product(extents),
{
    let shape = selected_shape(dims);
    let a = unrank(shape, e);
    let b = unrank(shape, f);
    assert forall|d: int| 0 <= d < shape.len() implies 0 <= #[trigger] shape[d] by {
        assert(dims[d].count * dims[d].block >= 0) by (nonlinear_arith);
    }
    law_unrank_then_rank(shape, e);
    law_unrank_then_rank(shape, f);
    let g = selected_source(dims, a);
    let h = selected_source(dims, b);
    assert forall|d: int| 0 <= d < dims.len() implies 0 <= #[trigger] g[d] < extents[d] by {
        assert(0 <= a[d] < shape[d]);
        lemma_position_bounds(dims[d], a[d]);
        assert(selected_end(dims[d]) <= extents[d]);
    }
    assert forall|d: int| 0 <= d < dims.len() implies 0 <= #[trigger] h[d] < extents[d] by {
        assert(0 <= b[d] < shape[d]);
        lemma_position_bounds(dims[d], b[d]);
        assert(selected_end(dims[d]) <= extents[d]);
    }
    law_rank_then_unrank(extents, g);
    law_rank_then_unrank(extents, h);
    law_row_major_order(shape, a, b);
    let d = lemma_first_difference(a, b);
    law_positions_ascend(dims[d], a[d], b[d]);
    assert forall|i: int| 0 <= i < d implies #[trigger] g[i] == h[i] by {
        assert(a[i] == b[i]);
    }
    assert(g[d] < h[d]);
    assert(precedes(g, h));
    law_row_major_order(extents, g, h);
}

/// What a selection gives: its elements one after the other, and each is the element of the
/// dataset at the selected place.
pub proof fn law_gathered_elements(
    data: Seq<u8>,
    extents: Seq<int>,
    dims: Seq<DimSelection>,
    es: nat,
    o: Seq<int>,
    r: int,
)
    requires
        can_gather(data, extents, dims, es),
        in_box(selected_shape(dims), o),
        0 <= r < es,
    ensures
        gathered(data, extents, dims, es).len() == product(selected_shape(dims)) * es,
        gathered(data, extents, dims, es)[rank(selected_shape(dims), o) * es + r] == data[rank(
            extents,
            selected_source(dims, o),
        ) * es + r],
{
    let shape = selected_shape(dims);
    law_rank_then_unrank(shape, o);
    let e = rank(shape, o);
    let b = e * es + r;
    assert(0 <= e * es && (e + 1) * es <= product(shape) * es && (e + 1) * es == e * es + es)
        by (nonlinear_arith)
        requires
            0 <= e < product(shape),
            es >= 0,
    ;
    lemma_byte_of(b, e, es as int);
}

} // verus!
