//! Chunked storage: datasets that are stored in tiles of one shape.
//!
//! A chunk is a box of elements in row-major order. Assembling a dataset, or a
//! part of it, copies each element from the chunk that covers its position.

use vstd::prelude::*;
use vstd::slice::slice_subrange;
use crate::bytes::{put, put_bytes, to_usize, zeros};
use crate::chunk_record::{ChunkRecord, RecordModel};
use crate::dims::{
    capped_total, flat_to_coords, in_box, ints, ints64, law_rank_is_weighted_sum,
    law_rank_then_unrank, law_strides_unrank, law_unrank_then_rank, lemma_product_non_negative,
    non_negative, product, rank, row_major_strides, stride, strides_fit, strides_of, unrank,
    weighted,
};
use crate::dtype::views;
use crate::error::{outcome, text, ErrorKind, OxiH5Error};

verus! {

/// Coordinates relative to `origin`.
pub open spec fn minus(c: Seq<int>, origin: Seq<int>) -> Seq<int> {
    Seq::new(c.len(), |d: int| c[d] - origin[d])
}

/// Coordinates moved by `by`.
pub open spec fn plus(c: Seq<int>, by: Seq<int>) -> Seq<int> {
    Seq::new(c.len(), |d: int| c[d] + by[d])
}

/// Whether the chunk at `origin` covers position `c`, and its data, of elements
/// of `es` bytes, reach as far as that.
pub open spec fn supplies(
    c: Seq<int>,
    origin: Seq<int>,
    data: Seq<u8>,
    chunk_dims: Seq<int>,
    es: int,
) -> bool {
    let local = minus(c, origin);
    in_box(chunk_dims, local) && (rank(chunk_dims, local) + 1) * es <= data.len()
}

/// The byte `r` of the element at position `c`, from the chunk at `origin`.
pub open spec fn supplied(
    c: Seq<int>,
    r: int,
    origin: Seq<int>,
    data: Seq<u8>,
    chunk_dims: Seq<int>,
    es: int,
) -> u8 {
    data[rank(chunk_dims, minus(c, origin)) * es + r]
}

/// `out`, a buffer of elements of extents `dims`, with those elements replaced
/// that the first `k` elements of the chunk at `origin` supply.
pub open spec fn scattered_upto(
    out: Seq<u8>,
    origin: Seq<int>,
    data: Seq<u8>,
    chunk_dims: Seq<int>,
    dims: Seq<int>,
    es: int,
    k: int,
) -> Seq<u8> {
    Seq::new(
        out.len(),
        |b: int|
            {
                let c = unrank(dims, b / es);
                if b / es < product(dims) && (b / es + 1) * es <= out.len() && supplies(
                    c,
                    origin,
                    data,
                    chunk_dims,
                    es,
                ) && rank(chunk_dims, minus(c, origin)) < k {
                    supplied(c, b % es, origin, data, chunk_dims, es)
                } else {
                    out[b]
                }
            },
    )
}

/// `out`, a buffer of elements of extents `dims`, with those elements replaced
/// that the chunk at `origin` supplies.
pub open spec fn scattered(
    out: Seq<u8>,
    origin: Seq<int>,
    data: Seq<u8>,
    chunk_dims: Seq<int>,
    dims: Seq<int>,
    es: int,
) -> Seq<u8> {
    Seq::new(
        out.len(),
        |b: int|
            {
                let c = unrank(dims, b / es);
                if b / es < product(dims) && (b / es + 1) * es <= out.len() && supplies(
                    c,
                    origin,
                    data,
                    chunk_dims,
                    es,
                ) {
                    supplied(c, b % es, origin, data, chunk_dims, es)
                } else {
                    out[b]
                }
            },
    )
}

/// Where byte `b` of a buffer of elements lies.
pub proof fn lemma_byte(b: int, es: int)
    requires
        0 <= b,
        0 < es,
    ensures
        b == b / es * es + b % es,
        0 <= b % es < es,
        0 <= b / es,
        b / es * es <= b < (b / es + 1) * es,
{
    vstd::arithmetic::div_mod::lemma_fundamental_div_mod(b, es);
    vstd::arithmetic::div_mod::lemma_div_pos_is_pos(b, es);
    assert(es * (b / es) == b / es * es) by (nonlinear_arith);
    assert((b / es + 1) * es == b / es * es + es) by (nonlinear_arith);
}

/// Which element a byte within an element's range belongs to.
pub proof fn lemma_byte_of(b: int, e: int, es: int)
    requires
        0 < es,
        e * es <= b < (e + 1) * es,
    ensures
        b / es == e,
        b % es == b - e * es,
{
    assert((e + 1) * es == e * es + es) by (nonlinear_arith);
    vstd::arithmetic::div_mod::lemma_fundamental_div_mod_converse(b, es, e, b - e * es);
}

/// Copying the chunk's element `p`, whose position in the dataset is `g`, takes
/// the scattering one element further.
proof fn lemma_scatter_step(
    out: Seq<u8>,
    origin: Seq<int>,
    data: Seq<u8>,
    chunk_dims: Seq<int>,
    dims: Seq<int>,
    es: int,
    p: int,
)
    requires
        0 < es,
        chunk_dims.len() == dims.len() == origin.len(),
        non_negative(chunk_dims),
        non_negative(dims),
        0 <= p < product(chunk_dims),
        (p + 1) * es <= data.len(),
    ensures
        ({
            let g = plus(unrank(chunk_dims, p), origin);
            let before = scattered_upto(out, origin, data, chunk_dims, dims, es, p);
            let after = scattered_upto(out, origin, data, chunk_dims, dims, es, p + 1);
            let e = rank(dims, g);
            if in_box(dims, g) && (e + 1) * es <= out.len() {
                after == put(before, e * es, data.subrange(p * es, (p + 1) * es))
            } else {
                after == before
            }
        }),
{
    let local = unrank(chunk_dims, p);
    let g = plus(local, origin);
    let before = scattered_upto(out, origin, data, chunk_dims, dims, es, p);
    let after = scattered_upto(out, origin, data, chunk_dims, dims, es, p + 1);
    let e = rank(dims, g);
    law_unrank_then_rank(chunk_dims, p);
    assert(minus(g, origin) =~= local);
    if in_box(dims, g) {
        law_rank_then_unrank(dims, g);
    }
    // Only the element at `g` comes from the chunk's element `p`.
    assert forall|b: int| 0 <= b < out.len() && b / es < product(dims) && supplies(
        #[trigger] unrank(dims, b / es),
        origin,
        data,
        chunk_dims,
        es,
    ) && rank(chunk_dims, minus(unrank(dims, b / es), origin)) == p implies in_box(dims, g) && b
        / es == e by {
        let c = unrank(dims, b / es);
        lemma_byte(b, es);
        law_unrank_then_rank(dims, b / es);
        law_rank_then_unrank(chunk_dims, minus(c, origin));
        assert(minus(c, origin) == local);
        assert(c =~= g) by {
            assert forall|d: int| 0 <= d < c.len() implies c[d] == g[d] by {
                assert(minus(c, origin)[d] == local[d]);
            }
        }
    }
    assert((p + 1) * es == p * es + es) by (nonlinear_arith);
    assert((e + 1) * es == e * es + es) by (nonlinear_arith);
    if in_box(dims, g) && (e + 1) * es <= out.len() {
        let new = put(before, e * es, data.subrange(p * es, (p + 1) * es));
        assert(0 <= p * es) by (nonlinear_arith)
            requires
                0 <= p,
                0 < es,
        ;
        assert forall|b: int| 0 <= b < out.len() implies after[b] == #[trigger] new[b] by {
            lemma_byte(b, es);
            let c = unrank(dims, b / es);
            if e * es <= b < (e + 1) * es {
                lemma_byte_of(b, e, es);
                assert(c == g);
            } else {
                assert(b / es != e);
            }
        }
        assert(after =~= new);
    } else {
        assert forall|b: int| 0 <= b < out.len() implies after[b] == #[trigger] before[b] by {
            lemma_byte(b, es);
            let c = unrank(dims, b / es);
        }
        assert(after =~= before);
    }
}

/// The bytes that a record points at.
pub open spec fn stored_bytes(file: Seq<u8>, record: RecordModel) -> Result<Seq<u8>, ErrorKind> {
    if record.address + record.size <= file.len() {
        Ok(file.subrange(record.address as int, record.address + record.size))
    } else {
        Err(ErrorKind::Format)
    }
}

/// The stored bytes of one chunk, as they are in the file.
pub fn read_chunk_bytes<'a>(file_data: &'a [u8], rec: &ChunkRecord) -> (r: Result<
    &'a [u8],
    OxiH5Error,
>)
    ensures
        outcome(r) == stored_bytes(file_data@, rec@),
{
    assert(file_data.len() <= usize::MAX);
    if let Some(addr) = to_usize(rec.address) {
        if rec.size as u64 <= file_data.len() as u64 && addr as u64 <= file_data.len() as u64
            - rec.size as u64 {
            return Ok(slice_subrange(file_data, addr, addr + rec.size as usize));
        }
    }
    Err(
        OxiH5Error::Format(
            text(
                &[
                    "chunk at ",
                    &rec.address.to_string(),
                    " size ",
                    &rec.size.to_string(),
                    " extends beyond file (",
                    &file_data.len().to_string(),
                    " bytes)",
                ],
            ),
        ),
    )
}

/// The weighted sum of the coordinates so far leaves room for one more stride.
proof fn lemma_weighted_bound(dims: Seq<int>, c: Seq<int>, k: int)
    requires
        non_negative(dims),
        c.len() == dims.len(),
        0 <= k <= dims.len(),
        forall|d: int| 0 <= d < k ==> 0 <= #[trigger] c[d] < dims[d],
    ensures
        k > 0 ==> 0 <= weighted(dims, c, k - 1) && 0 <= c[k - 1] * stride(dims, k - 1),
        k > 0 ==> weighted(dims, c, k) + stride(dims, k - 1) <= product(dims),
        0 <= weighted(dims, c, k) <= product(dims),
    decreases k,
{
    lemma_product_non_negative(dims);
    if k > 0 {
        lemma_weighted_bound(dims, c, k - 1);
        crate::dims::lemma_stride_step(dims, k - 1);
        crate::dims::lemma_stride_non_negative(dims, k - 1);
        let s = stride(dims, k - 1);
        let m = dims[k - 1];
        let x = c[k - 1];
        assert(0 <= x * s && x * s + s <= m * s) by (nonlinear_arith)
            requires
                0 <= x < m,
                0 <= s,
        ;
    }
}

/// The place in data of extents `dims` of the position that lies `coords` from
/// `origin`, if it is one.
pub(crate) fn place_of(coords: &[u64], origin: &[u64], dims: &[u64], strides: &[usize]) -> (r: Option<usize>)
    requires
        coords@.len() == dims@.len(),
        origin@.len() >= dims@.len(),
        ints(strides@) == strides_of(ints64(dims@)),
        strides@.len() == dims@.len(),
        product(ints64(dims@)) <= usize::MAX,
    ensures
        ({
            let all = ints64(dims@);
            let g = plus(ints64(coords@), ints64(origin@));
            match r {
                Some(e) => in_box(all, g) && e == rank(all, g),
                None => !in_box(all, g),
            }
        }),
{
    let ghost all = ints64(dims@);
    let ghost g = plus(ints64(coords@), ints64(origin@));
    let mut flat: u64 = 0;
    for d in 0..dims.len()
        invariant
            all == ints64(dims@),
            g == plus(ints64(coords@), ints64(origin@)),
            coords@.len() == dims@.len(),
            origin@.len() >= dims@.len(),
            strides@.len() == dims@.len(),
            ints(strides@) == strides_of(all),
            product(all) <= usize::MAX,
            flat == weighted(all, g, d as int),
            forall|k: int| 0 <= k < d ==> 0 <= #[trigger] g[k] < all[k],
    {
        assert(g[d as int] == coords@[d as int] + origin@[d as int]);
        assert(ints(strides@)[d as int] == strides@[d as int]);
        let c: u64 = match origin[d].checked_add(coords[d]) {
            Some(c) => c,
            None => {
                return None;
            },
        };
        if c >= dims[d] {
            return None;
        }
        proof {
            lemma_weighted_bound(all, g, d + 1);
        }
        flat = flat + c * strides[d] as u64;
    }
    proof {
        law_rank_is_weighted_sum(all, g);
        if dims@.len() > 0 {
            lemma_weighted_bound(all, g, dims@.len() as int);
        }
    }
    Some(flat as usize)
}

/// What copying between a chunk and a buffer of elements of extents `dims` takes:
/// shapes of one rank whose sizes are machine numbers.
pub open spec fn can_scatter(chunk_dims: Seq<int>, dims: Seq<int>, es: int) -> bool {
    &&& chunk_dims.len() == dims.len()
    &&& es > 0
    &&& strides_fit(chunk_dims)
    &&& strides_fit(dims)
    &&& product(dims) * es <= usize::MAX
}

/// Copy the elements of a decoded chunk to their places in the buffer of the
/// whole dataset; those beyond its extents are padding and are left out.
pub fn scatter_chunk(
    output: &mut Vec<u8>,
    origin: &[u64],
    chunk_data: &[u8],
    chunk_dims: &[u64],
    dataset_dims: &[u64],
    elem_size: usize,
) -> (r: Result<(), OxiH5Error>)
    requires
        can_scatter(ints64(chunk_dims@), ints64(dataset_dims@), elem_size as int),
        origin@.len() >= dataset_dims@.len(),
    ensures
        r is Ok,
        final(output)@ == scattered(
            old(output)@,
            ints64(origin@).take(dataset_dims@.len() as int),
            chunk_data@,
            ints64(chunk_dims@),
            ints64(dataset_dims@),
            elem_size as int,
        ),
{
    let ndims: usize = dataset_dims.len();
    let ghost out = output@;
    let ghost from = ints64(origin@).take(ndims as int);
    let ghost data = chunk_data@;
    let ghost chunk = ints64(chunk_dims@);
    let ghost dims = ints64(dataset_dims@);
    let ghost es = elem_size as int;
    proof {
        lemma_product_non_negative(dims);
        assert(product(dims) <= product(dims) * es) by (nonlinear_arith)
            requires
                product(dims) >= 0,
                es > 0,
        ;
    }
    let dataset_strides: Vec<usize> = row_major_strides(dataset_dims);
    let chunk_strides: Vec<usize> = row_major_strides(chunk_dims);
    let n: usize = capped_total(chunk_dims, chunk_data.len() / elem_size);
    proof {
        lemma_whole_elements(data.len() as int, es);
        assert(n * es <= data.len() as int / es * es) by (nonlinear_arith)
            requires
                n <= data.len() as int / es,
                es > 0,
        ;
        assert(output@ =~= scattered_upto(out, from, data, chunk, dims, es, 0)) by {
            assert forall|b: int| 0 <= b < out.len() implies #[trigger] out[b] == scattered_upto(
                out,
                from,
                data,
                chunk,
                dims,
                es,
                0,
            )[b] by {
                let c = unrank(dims, b / es);
                if in_box(chunk, minus(c, from)) {
                    law_rank_then_unrank(chunk, minus(c, from));
                }
            }
        }
    }
    for p in 0..n
        invariant
            ndims == dataset_dims@.len(),
            from == ints64(origin@).take(ndims as int),
            origin@.len() >= ndims,
            data == chunk_data@,
            chunk == ints64(chunk_dims@),
            dims == ints64(dataset_dims@),
            es == elem_size,
            can_scatter(chunk, dims, es),
            product(dims) <= usize::MAX,
            dataset_strides@.len() == ndims,
            chunk_strides@.len() == ndims,
            ints(dataset_strides@) == strides_of(dims),
            ints(chunk_strides@) == strides_of(chunk),
            n <= product(chunk),
            n * es <= data.len() <= usize::MAX,
            output@ == scattered_upto(out, from, data, chunk, dims, es, p as int),
    {
        proof {
            law_strides_unrank(chunk, p as int);
            assert(p * es + es <= n * es) by (nonlinear_arith)
                requires
                    p + 1 <= n,
                    es > 0,
            ;
            assert((p + 1) * es == p * es + es) by (nonlinear_arith);
            lemma_scatter_step(out, from, data, chunk, dims, es, p as int);
            assert(0 <= p * es) by (nonlinear_arith)
                requires
                    es > 0,
            ;
        }
        let coords: Vec<u64> = flat_to_coords(p, &chunk_strides, ndims);
        proof {
            assert(plus(ints64(coords@), ints64(origin@)) =~= plus(ints64(coords@), from));
        }
        if let Some(e) = place_of(&coords, origin, dataset_dims, &dataset_strides) {
            proof {
                law_rank_then_unrank(dims, plus(unrank(chunk, p as int), from));
                assert(e * es + es <= product(dims) * es) by (nonlinear_arith)
                    requires
                        e + 1 <= product(dims),
                        es > 0,
                ;
                assert((e + 1) * es == e * es + es) by (nonlinear_arith);
            }
            if e * elem_size + elem_size <= output.len() {
                put_bytes(
                    output,
                    e * elem_size,
                    slice_subrange(chunk_data, p * elem_size, p * elem_size + elem_size),
                );
            }
        }
    }
    proof {
        lemma_scattered_all(out, from, data, chunk, dims, es, n as int);
    }
    Ok(())
}

/// As many whole elements as fit do fit, and no more.
proof fn lemma_whole_elements(len: int, es: int)
    requires
        len >= 0,
        es > 0,
    ensures
        0 <= len / es,
        len / es * es <= len,
        forall|p: int| (p + 1) * es <= len ==> #[trigger] (p + 1) <= len / es,
{
    lemma_byte(len, es);
    assert forall|p: int| (p + 1) * es <= len implies #[trigger] (p + 1) <= len / es by {
        assert(p + 1 <= len / es) by (nonlinear_arith)
            requires
                (p + 1) * es <= len,
                len < (len / es + 1) * es,
                es > 0,
        ;
    }
}

/// Once the whole chunk is copied, all that it supplies is in place.
proof fn lemma_scattered_all(
    out: Seq<u8>,
    origin: Seq<int>,
    data: Seq<u8>,
    chunk_dims: Seq<int>,
    dims: Seq<int>,
    es: int,
    n: int,
)
    requires
        es > 0,
        n == (if product(chunk_dims) < data.len() as int / es {
            product(chunk_dims)
        } else {
            data.len() as int / es
        }),
    ensures
        scattered_upto(out, origin, data, chunk_dims, dims, es, n) == scattered(
            out,
            origin,
            data,
            chunk_dims,
            dims,
            es,
        ),
{
    let a = scattered_upto(out, origin, data, chunk_dims, dims, es, n);
    let s = scattered(out, origin, data, chunk_dims, dims, es);
    lemma_whole_elements(data.len() as int, es);
    assert forall|b: int| 0 <= b < out.len() implies a[b] == #[trigger] s[b] by {
        let c = unrank(dims, b / es);
        if supplies(c, origin, data, chunk_dims, es) {
            law_rank_then_unrank(chunk_dims, minus(c, origin));
            let p = rank(chunk_dims, minus(c, origin));
            assert((p + 1) <= data.len() as int / es);
        }
    }
    assert(a =~= s);
}

/// As [`scattered`], so far only for the first `k` positions of the box of extents
/// `shape` that starts at `low`.
pub open spec fn scattered_within(
    out: Seq<u8>,
    origin: Seq<int>,
    data: Seq<u8>,
    chunk_dims: Seq<int>,
    dims: Seq<int>,
    es: int,
    low: Seq<int>,
    shape: Seq<int>,
    k: int,
) -> Seq<u8> {
    Seq::new(
        out.len(),
        |b: int|
            {
                let c = unrank(dims, b / es);
                if b / es < product(dims) && (b / es + 1) * es <= out.len() && supplies(
                    c,
                    origin,
                    data,
                    chunk_dims,
                    es,
                ) && in_box(shape, minus(c, low)) && rank(shape, minus(c, low)) < k {
                    supplied(c, b % es, origin, data, chunk_dims, es)
                } else {
                    out[b]
                }
            },
    )
}

/// Copying the element at position `q` of the box takes it one position further.
proof fn lemma_within_step(
    out: Seq<u8>,
    origin: Seq<int>,
    data: Seq<u8>,
    chunk_dims: Seq<int>,
    dims: Seq<int>,
    es: int,
    low: Seq<int>,
    shape: Seq<int>,
    q: int,
)
    requires
        0 < es,
        shape.len() == chunk_dims.len() == dims.len() == origin.len() == low.len(),
        non_negative(dims),
        non_negative(shape),
        0 <= q < product(shape),
        in_box(dims, plus(unrank(shape, q), low)),
        in_box(chunk_dims, minus(plus(unrank(shape, q), low), origin)),
    ensures
        ({
            let c = plus(unrank(shape, q), low);
            let before = scattered_within(
                out,
                origin,
                data,
                chunk_dims,
                dims,
                es,
                low,
                shape,
                q,
            );
            let after = scattered_within(
                out,
                origin,
                data,
                chunk_dims,
                dims,
                es,
                low,
                shape,
                q + 1,
            );
            let e = rank(dims, c);
            let p = rank(chunk_dims, minus(c, origin));
            if (p + 1) * es <= data.len() && (e + 1) * es <= out.len() {
                after == put(before, e * es, data.subrange(p * es, (p + 1) * es))
            } else {
                after == before
            }
        }),
{
    let rel = unrank(shape, q);
    let g = plus(rel, low);
    let before = scattered_within(out, origin, data, chunk_dims, dims, es, low, shape, q);
    let after = scattered_within(out, origin, data, chunk_dims, dims, es, low, shape, q + 1);
    let e = rank(dims, g);
    let p = rank(chunk_dims, minus(g, origin));
    law_unrank_then_rank(shape, q);
    law_rank_then_unrank(dims, g);
    law_rank_then_unrank(chunk_dims, minus(g, origin));
    assert(minus(g, low) =~= rel);
    // Only the element at `g` is the box's element `q`.
    assert forall|b: int| 0 <= b < out.len() && b / es < product(dims) && in_box(
        shape,
        minus(#[trigger] unrank(dims, b / es), low),
    ) && rank(shape, minus(unrank(dims, b / es), low)) == q implies b / es == e by {
        let c = unrank(dims, b / es);
        lemma_byte(b, es);
        law_unrank_then_rank(dims, b / es);
        law_rank_then_unrank(shape, minus(c, low));
        assert(minus(c, low) == rel);
        assert(c =~= g) by {
            assert forall|d: int| 0 <= d < c.len() implies c[d] == g[d] by {
                assert(minus(c, low)[d] == rel[d]);
            }
        }
    }
    assert((p + 1) * es == p * es + es) by (nonlinear_arith);
    assert((e + 1) * es == e * es + es) by (nonlinear_arith);
    assert(0 <= p * es) by (nonlinear_arith)
        requires
            0 <= p,
            0 < es,
    ;
    if (p + 1) * es <= data.len() && (e + 1) * es <= out.len() {
        let new = put(before, e * es, data.subrange(p * es, (p + 1) * es));
        assert forall|b: int| 0 <= b < out.len() implies after[b] == #[trigger] new[b] by {
            lemma_byte(b, es);
            let c = unrank(dims, b / es);
            if e * es <= b < (e + 1) * es {
                lemma_byte_of(b, e, es);
                assert(c == g);
            } else {
                assert(b / es != e);
            }
        }
        assert(after =~= new);
    } else {
        assert forall|b: int| 0 <= b < out.len() implies after[b] == #[trigger] before[b] by {
            lemma_byte(b, es);
            let c = unrank(dims, b / es);
            if b / es == e {
                assert(c == g);
            }
        }
        assert(after =~= before);
    }
}

/// A box that holds every position which the chunk covers is all that counts.
proof fn lemma_within_all(
    out: Seq<u8>,
    origin: Seq<int>,
    data: Seq<u8>,
    chunk_dims: Seq<int>,
    dims: Seq<int>,
    es: int,
    low: Seq<int>,
    shape: Seq<int>,
)
    requires
        0 < es,
        non_negative(dims),
        forall|c: Seq<int>|
            in_box(dims, c) && #[trigger] in_box(chunk_dims, minus(c, origin)) ==> in_box(
                shape,
                minus(c, low),
            ),
    ensures
        scattered_within(
            out,
            origin,
            data,
            chunk_dims,
            dims,
            es,
            low,
            shape,
            product(shape),
        ) == scattered(out, origin, data, chunk_dims, dims, es),
{
    let a = scattered_within(
        out,
        origin,
        data,
        chunk_dims,
        dims,
        es,
        low,
        shape,
        product(shape),
    );
    let s = scattered(out, origin, data, chunk_dims, dims, es);
    assert forall|b: int| 0 <= b < out.len() implies a[b] == #[trigger] s[b] by {
        lemma_byte(b, es);
        let c = unrank(dims, b / es);
        if b / es < product(dims) && supplies(c, origin, data, chunk_dims, es) {
            law_unrank_then_rank(dims, b / es);
            law_rank_then_unrank(shape, minus(c, low));
        }
    }
    assert(a =~= s);
}

/// The first positions of the ranges.
pub open spec fn starts(ranges: Seq<std::ops::Range<u64>>) -> Seq<int> {
    Seq::new(ranges.len(), |d: int| ranges[d].start as int)
}

/// The lengths of the ranges.
pub open spec fn lengths(ranges: Seq<std::ops::Range<u64>>) -> Seq<int> {
    Seq::new(ranges.len(), |d: int| ranges[d].end - ranges[d].start)
}

/// Whether no range ends before it starts.
pub open spec fn forward(ranges: Seq<std::ops::Range<u64>>) -> bool {
    forall|d: int| 0 <= d < ranges.len() ==> (#[trigger] ranges[d]).start <= ranges[d].end
}

/// The place of a position.
pub(crate) fn flat_index(coords: &[u64], dims: &[u64], strides: &[usize]) -> (r: usize)
    requires
        in_box(ints64(dims@), ints64(coords@)),
        ints(strides@) == strides_of(ints64(dims@)),
        strides@.len() == dims@.len(),
        product(ints64(dims@)) <= usize::MAX,
    ensures
        r == rank(ints64(dims@), ints64(coords@)),
{
    let ghost all = ints64(dims@);
    let ghost c = ints64(coords@);
    let mut flat: u64 = 0;
    for d in 0..dims.len()
        invariant
            all == ints64(dims@),
            c == ints64(coords@),
            in_box(all, c),
            strides@.len() == dims@.len(),
            ints(strides@) == strides_of(all),
            product(all) <= usize::MAX,
            flat == weighted(all, c, d as int),
    {
        proof {
            assert(ints(strides@)[d as int] == strides@[d as int]);
            assert(c[d as int] == coords@[d as int]);
            lemma_weighted_bound(all, c, d + 1);
        }
        flat = flat + coords[d] * strides[d] as u64;
    }
    proof {
        law_rank_is_weighted_sum(all, c);
        lemma_weighted_bound(all, c, dims@.len() as int);
    }
    flat as usize
}

spec fn can_shift(a: u64, minus_by: u64, plus_by: u64) -> bool {
    minus_by <= a + plus_by <= u64::MAX
}

/// `a - minus_by + plus_by`, dimension by dimension.
fn shifted(a: &[u64], minus_by: &[u64], plus_by: &[u64]) -> (r: Vec<u64>)
    requires
        minus_by@.len() >= a@.len(),
        plus_by@.len() >= a@.len(),
        forall|d: int|
            0 <= d < a@.len() ==> #[trigger] can_shift(a@[d], minus_by@[d], plus_by@[d]),
    ensures
        ints64(r@) == minus(plus(ints64(a@), ints64(plus_by@)), ints64(minus_by@)),
{
    let mut r: Vec<u64> = Vec::new();
    for d in 0..a.len()
        invariant
            minus_by@.len() >= a@.len(),
            plus_by@.len() >= a@.len(),
            forall|d: int|
                0 <= d < a@.len() ==> #[trigger] can_shift(a@[d], minus_by@[d], plus_by@[d]),
            r@.len() == d,
            forall|k: int| 0 <= k < d ==> #[trigger] r@[k] == a@[k] + plus_by@[k] - minus_by@[k],
    {
        assert(can_shift(a@[d as int], minus_by@[d as int], plus_by@[d as int]));
        r.push(a[d] + plus_by[d] - minus_by[d]);
    }
    proof {
        assert(ints64(r@) =~= minus(plus(ints64(a@), ints64(plus_by@)), ints64(minus_by@)));
    }
    r
}

/// Along dimension `k`, a range and a chunk overlap in `ovl_shape[k]` positions
/// from `ovl_start[k]` on.
spec fn overlaps_at(
    k: int,
    ranges: Seq<std::ops::Range<u64>>,
    origin: Seq<u64>,
    chunk_dims: Seq<u64>,
    first: Seq<u64>,
    out_dims: Seq<u64>,
    ovl_start: Seq<u64>,
    ovl_shape: Seq<u64>,
) -> bool {
    &&& first[k] == ranges[k].start
    &&& out_dims[k] == ranges[k].end - ranges[k].start
    &&& ovl_start[k] == (if ranges[k].start < origin[k] {
        origin[k]
    } else {
        ranges[k].start
    })
    &&& ovl_shape[k] > 0
    &&& ovl_start[k] + ovl_shape[k] == (if ranges[k].end < origin[k] + chunk_dims[k] {
        ranges[k].end as int
    } else {
        origin[k] + chunk_dims[k]
    })
}

/// Copy the elements of a decoded chunk that lie in `ranges` to their places in a
/// buffer of just these ranges.
pub fn scatter_chunk_slice(
    output: &mut Vec<u8>,
    origin: &[u64],
    chunk_data: &[u8],
    chunk_dims: &[u64],
    ranges: &[std::ops::Range<u64>],
    elem_size: usize,
) -> (r: Result<(), OxiH5Error>)
    requires
        forward(ranges@),
        can_scatter(ints64(chunk_dims@), lengths(ranges@), elem_size as int),
        product(ints64(chunk_dims@)) <= usize::MAX,
        origin@.len() >= ranges@.len(),
    ensures
        r is Ok,
        final(output)@ == scattered(
            old(output)@,
            minus(ints64(origin@).take(ranges@.len() as int), starts(ranges@)),
            chunk_data@,
            ints64(chunk_dims@),
            lengths(ranges@),
            elem_size as int,
        ),
{
    let ndims: usize = ranges.len();
    let ghost out = output@;
    let ghost begin = starts(ranges@);
    let ghost from = minus(ints64(origin@).take(ndims as int), begin);
    let ghost data = chunk_data@;
    let ghost chunk = ints64(chunk_dims@);
    let ghost dims = lengths(ranges@);
    let ghost es = elem_size as int;

    let mut first: Vec<u64> = Vec::new();
    let mut out_dims: Vec<u64> = Vec::new();
    let mut ovl_start: Vec<u64> = Vec::new();
    let mut ovl_shape: Vec<u64> = Vec::new();
    for d in 0..ndims
        invariant
            ndims == ranges@.len(),
            forward(ranges@),
            origin@.len() >= ndims,
            chunk_dims@.len() == ndims,
            out == output@,
            begin == starts(ranges@),
            from == minus(ints64(origin@).take(ndims as int), begin),
            data == chunk_data@,
            chunk == ints64(chunk_dims@),
            dims == lengths(ranges@),
            es == elem_size,
            es > 0,
            first@.len() == d,
            out_dims@.len() == d,
            ovl_start@.len() == d,
            ovl_shape@.len() == d,
            forall|k: int|
                0 <= k < d ==> #[trigger] overlaps_at(
                    k,
                    ranges@,
                    origin@,
                    chunk_dims@,
                    first@,
                    out_dims@,
                    ovl_start@,
                    ovl_shape@,
                ),
    {
        let start: u64 = ranges[d].start;
        let end: u64 = ranges[d].end;
        let low: u64 = if start < origin[d] {
            origin[d]
        } else {
            start
        };
        let reach: u64 = origin[d].saturating_add(chunk_dims[d]);
        let high: u64 = if end < reach {
            end
        } else {
            reach
        };
        if low >= high {
            proof {
                lemma_nothing_supplied(out, from, data, chunk, dims, es, d as int);
            }
            return Ok(());
        }
        let ghost before = (first@, out_dims@, ovl_start@, ovl_shape@);
        first.push(start);
        out_dims.push(end - start);
        ovl_start.push(low);
        ovl_shape.push(high - low);
        proof {
            assert forall|k: int| 0 <= k < d + 1 implies #[trigger] overlaps_at(
                k,
                ranges@,
                origin@,
                chunk_dims@,
                first@,
                out_dims@,
                ovl_start@,
                ovl_shape@,
            ) by {
                if k < d {
                    assert(overlaps_at(
                        k,
                        ranges@,
                        origin@,
                        chunk_dims@,
                        before.0,
                        before.1,
                        before.2,
                        before.3,
                    ));
                }
            }
        }
    }
    let ghost shape = ints64(ovl_shape@);
    let ghost low = minus(ints64(ovl_start@), begin);
    proof {
        assert forall|d: int| 0 <= d < ndims implies ints64(out_dims@)[d] == #[trigger] dims[d]
            && ints64(first@)[d] == begin[d] by {
            assert(overlaps_at(
                d,
                ranges@,
                origin@,
                chunk_dims@,
                first@,
                out_dims@,
                ovl_start@,
                ovl_shape@,
            ));
        }
        assert(ints64(out_dims@) =~= dims);
        assert(ints64(first@) =~= begin) by {
            assert forall|d: int| 0 <= d < ndims implies ints64(first@)[d] == #[trigger] begin[d] by {
                assert(overlaps_at(
                    d,
                    ranges@,
                    origin@,
                    chunk_dims@,
                    first@,
                    out_dims@,
                    ovl_start@,
                    ovl_shape@,
                ));
            }
        }
        assert forall|d: int| 0 <= d < ndims implies 0 < #[trigger] shape[d] <= dims[d] by {
            assert(overlaps_at(
                    d,
                    ranges@,
                    origin@,
                    chunk_dims@,
                    first@,
                    out_dims@,
                    ovl_start@,
                    ovl_shape@,
                ));
        }
        lemma_smaller_box(shape, dims);
        lemma_product_non_negative(dims);
        assert(product(dims) <= product(dims) * es) by (nonlinear_arith)
            requires
                product(dims) >= 0,
                es > 0,
        ;
        assert forall|c: Seq<int>|
            in_box(dims, c) && #[trigger] in_box(chunk, minus(c, from)) implies in_box(
            shape,
            minus(c, low),
        ) by {
            assert forall|d: int| 0 <= d < shape.len() implies 0 <= #[trigger] minus(c, low)[d]
                < shape[d] by {
                assert(overlaps_at(
                    d,
                    ranges@,
                    origin@,
                    chunk_dims@,
                    first@,
                    out_dims@,
                    ovl_start@,
                    ovl_shape@,
                ));
                assert(minus(c, from)[d] < chunk[d]);
                assert(c[d] < dims[d]);
            }
        }
        lemma_within_all(out, from, data, chunk, dims, es, low, shape);
    }
    let out_strides: Vec<usize> = row_major_strides(&out_dims);
    let chunk_strides: Vec<usize> = row_major_strides(chunk_dims);
    let ovl_strides: Vec<usize> = row_major_strides(&ovl_shape);
    let n: usize = capped_total(&ovl_shape, usize::MAX);
    assert(chunk_data.len() <= usize::MAX);
    proof {
        assert(output@ =~= scattered_within(out, from, data, chunk, dims, es, low, shape, 0)) by {
            assert forall|b: int| 0 <= b < out.len() implies #[trigger] out[b] == scattered_within(
                out,
                from,
                data,
                chunk,
                dims,
                es,
                low,
                shape,
                0,
            )[b] by {
                let c = unrank(dims, b / es);
                if in_box(shape, minus(c, low)) {
                    law_rank_then_unrank(shape, minus(c, low));
                }
            }
        }
    }
    for q in 0..n
        invariant
            ndims == ranges@.len(),
            origin@.len() >= ndims,
            begin == starts(ranges@),
            from == minus(ints64(origin@).take(ndims as int), begin),
            data == chunk_data@,
            data.len() <= usize::MAX,
            chunk == ints64(chunk_dims@),
            dims == lengths(ranges@),
            es == elem_size,
            can_scatter(chunk, dims, es),
            product(chunk) <= usize::MAX,
            product(dims) <= usize::MAX,
            shape == ints64(ovl_shape@),
            low == minus(ints64(ovl_start@), begin),
            ints64(out_dims@) == dims,
            ints64(first@) == begin,
            first@.len() == ndims,
            out_dims@.len() == ndims,
            ovl_start@.len() == ndims,
            ovl_shape@.len() == ndims,
            forall|k: int|
                0 <= k < ndims ==> #[trigger] overlaps_at(
                    k,
                    ranges@,
                    origin@,
                    chunk_dims@,
                    first@,
                    out_dims@,
                    ovl_start@,
                    ovl_shape@,
                ),
            out_strides@.len() == ndims,
            chunk_strides@.len() == ndims,
            ovl_strides@.len() == ndims,
            ints(out_strides@) == strides_of(dims),
            ints(chunk_strides@) == strides_of(chunk),
            ints(ovl_strides@) == strides_of(shape),
            n == product(shape),
            output@ == scattered_within(out, from, data, chunk, dims, es, low, shape, q as int),
    {
        let rel: Vec<u64> = flat_to_coords(q, &ovl_strides, ndims);
        let ghost c = plus(unrank(shape, q as int), low);
        proof {
            law_strides_unrank(shape, q as int);
            law_unrank_then_rank(shape, q as int);
            assert forall|d: int| 0 <= d < ndims implies rel@[d] < ovl_shape@[d]
                && #[trigger] can_shift(rel@[d], origin@[d], ovl_start@[d]) && can_shift(
                rel@[d],
                first@[d],
                ovl_start@[d],
            ) by {
                assert(ints64(rel@)[d] == rel@[d]);
                assert(unrank(shape, q as int)[d] < shape[d]);
                assert(overlaps_at(
                    d,
                    ranges@,
                    origin@,
                    chunk_dims@,
                    first@,
                    out_dims@,
                    ovl_start@,
                    ovl_shape@,
                ));
            }
        }
        let in_chunk: Vec<u64> = shifted(&rel, origin, &ovl_start);
        proof {
            assert forall|d: int| 0 <= d < ndims implies #[trigger] can_shift(
                rel@[d],
                first@[d],
                ovl_start@[d],
            ) by {
                assert(can_shift(rel@[d], origin@[d], ovl_start@[d]));
            }
        }
        let in_out: Vec<u64> = shifted(&rel, &first, &ovl_start);
        proof {
            assert(ints64(in_out@) =~= c);
            assert(ints64(in_chunk@) =~= minus(c, from));
            assert forall|d: int| 0 <= d < ndims implies 0 <= #[trigger] c[d] < dims[d] by {
                assert(overlaps_at(
                    d,
                    ranges@,
                    origin@,
                    chunk_dims@,
                    first@,
                    out_dims@,
                    ovl_start@,
                    ovl_shape@,
                ));
                assert(c[d] == rel@[d] + ovl_start@[d] - first@[d]);
            }
            let local = minus(c, from);
            assert forall|d: int| 0 <= d < ndims implies 0 <= #[trigger] local[d] < chunk[d] by {
                assert(overlaps_at(
                    d,
                    ranges@,
                    origin@,
                    chunk_dims@,
                    first@,
                    out_dims@,
                    ovl_start@,
                    ovl_shape@,
                ));
                assert(local[d] == rel@[d] + ovl_start@[d] - origin@[d]);
            }
            lemma_within_step(out, from, data, chunk, dims, es, low, shape, q as int);
            law_rank_then_unrank(dims, c);
            law_rank_then_unrank(chunk, local);
        }
        let p: usize = flat_index(&in_chunk, chunk_dims, &chunk_strides);
        let e: usize = flat_index(&in_out, &out_dims, &out_strides);
        proof {
            assert(e * es + es <= product(dims) * es) by (nonlinear_arith)
                requires
                    e + 1 <= product(dims),
                    es > 0,
            ;
            assert((e + 1) * es == e * es + es) by (nonlinear_arith);
            assert((p + 1) * es == p * es + es) by (nonlinear_arith);
            assert(0 <= p * es) by (nonlinear_arith)
                requires
                    es > 0,
            ;
        }
        if let Some(src) = p.checked_mul(elem_size) {
            if elem_size <= chunk_data.len() && src <= chunk_data.len() - elem_size && e * elem_size
                + elem_size <= output.len() {
                put_bytes(
                    output,
                    e * elem_size,
                    slice_subrange(chunk_data, src, src + elem_size),
                );
            }
        }
    }
    Ok(())
}

/// Where a chunk and a buffer do not overlap in one dimension, nothing is copied.
proof fn lemma_nothing_supplied(
    out: Seq<u8>,
    origin: Seq<int>,
    data: Seq<u8>,
    chunk_dims: Seq<int>,
    dims: Seq<int>,
    es: int,
    d: int,
)
    requires
        es > 0,
        0 <= d < dims.len(),
        chunk_dims.len() == dims.len() == origin.len(),
        non_negative(dims),
        origin[d] >= dims[d] || origin[d] + chunk_dims[d] <= 0 || dims[d] <= 0 || chunk_dims[d] <= 0,
    ensures
        scattered(out, origin, data, chunk_dims, dims, es) == out,
{
    let s = scattered(out, origin, data, chunk_dims, dims, es);
    assert forall|b: int| 0 <= b < out.len() implies #[trigger] s[b] == out[b] by {
        lemma_byte(b, es);
        let c = unrank(dims, b / es);
        if b / es < product(dims) {
            law_unrank_then_rank(dims, b / es);
            if in_box(chunk_dims, minus(c, origin)) {
                assert(0 <= minus(c, origin)[d] < chunk_dims[d]);
                assert(0 <= c[d] < dims[d]);
            }
        }
    }
    assert(s =~= out);
}

/// A box within another has no larger strides and no more elements.
proof fn lemma_smaller_box(small: Seq<int>, large: Seq<int>)
    requires
        small.len() == large.len(),
        forall|d: int| 0 <= d < small.len() ==> 0 < #[trigger] small[d] <= large[d],
    ensures
        product(small) <= product(large),
        strides_fit(large) ==> strides_fit(small),
{
    crate::dims::lemma_product_monotone(small, large);
    assert forall|d: int| 0 <= d < small.len() implies #[trigger] stride(small, d) <= stride(
        large,
        d,
    ) by {
        let a = small.skip(d + 1);
        let b = large.skip(d + 1);
        assert forall|i: int| 0 <= i < a.len() implies 0 < #[trigger] a[i] <= b[i] by {
            assert(a[i] == small[d + 1 + i]);
        }
        crate::dims::lemma_product_monotone(a, b);
    }
}

/// Where in the dataset a record's chunk starts.
pub open spec fn origin_of(record: RecordModel, ndims: nat) -> Seq<int> {
    ints64(record.offsets).take(ndims as int)
}

/// The buffer of a dataset once the first `k` chunks are copied into it, a later
/// chunk over an earlier one; what no chunk supplies is zero.
pub open spec fn assembled(
    records: Seq<RecordModel>,
    decoded: Seq<Seq<u8>>,
    k: nat,
    chunk_dims: Seq<int>,
    dims: Seq<int>,
    es: int,
) -> Seq<u8>
    decreases k,
{
    if k == 0 {
        zeros((product(dims) * es) as nat)
    } else {
        scattered(
            assembled(records, decoded, (k - 1) as nat, chunk_dims, dims, es),
            origin_of(records[k - 1], dims.len()),
            decoded[k - 1],
            chunk_dims,
            dims,
            es,
        )
    }
}

/// What decoding stored bytes may give: which results are possible for which bytes
/// and filter mask.
pub type Filtering = spec_fn(Seq<u8>, u32, Result<Seq<u8>, OxiH5Error>) -> bool;

/// The content of what a filter function returned.
pub open spec fn content(r: Result<Vec<u8>, OxiH5Error>) -> Result<Seq<u8>, OxiH5Error> {
    match r {
        Ok(data) => Ok(data@),
        Err(e) => Err(e),
    }
}

/// What decoding by `f` may give.
pub open spec fn filtering_of<F: Fn(&[u8], u32) -> Result<Vec<u8>, OxiH5Error>>(f: F) -> Filtering {
    |raw: Seq<u8>, mask: u32, res: Result<Seq<u8>, OxiH5Error>|
        exists|bytes: &[u8], out: Result<Vec<u8>, OxiH5Error>|
            bytes@ == raw && #[trigger] f.ensures((bytes, mask), out) && content(out) == res
}

/// The stored bytes of `record` may decode to `data`.
pub open spec fn decodes_to(
    filter: Filtering,
    file: Seq<u8>,
    record: RecordModel,
    data: Seq<u8>,
) -> bool {
    match stored_bytes(file, record) {
        Ok(raw) => filter(raw, record.filter_mask, Ok(data)),
        Err(_) => false,
    }
}

/// Decoding the chunk of `record` may fail with `e`: its stored bytes are not all
/// in the file, or the filters refuse them.
pub open spec fn decoding_fails(
    filter: Filtering,
    file: Seq<u8>,
    record: RecordModel,
    e: OxiH5Error,
) -> bool {
    match stored_bytes(file, record) {
        Ok(raw) => filter(raw, record.filter_mask, Err(e)),
        Err(kind) => e@ == kind,
    }
}

/// The first `k` chunks are well placed and may decode to `decoded`.
pub open spec fn all_decode(
    filter: Filtering,
    file: Seq<u8>,
    records: Seq<RecordModel>,
    decoded: Seq<Seq<u8>>,
    k: nat,
    ndims: nat,
) -> bool {
    &&& decoded.len() == k
    &&& forall|i: int|
        0 <= i < k ==> (#[trigger] records[i]).offsets.len() >= ndims && decodes_to(
            filter,
            file,
            records[i],
            decoded[i],
        )
}

/// The first `k` chunks may decode, and the next one is misplaced or may fail to,
/// with `e`.
pub open spec fn fails_after(
    filter: Filtering,
    file: Seq<u8>,
    records: Seq<RecordModel>,
    decoded: Seq<Seq<u8>>,
    k: nat,
    ndims: nat,
    e: OxiH5Error,
) -> bool {
    &&& k < records.len()
    &&& all_decode(filter, file, records, decoded, k, ndims)
    &&& if records[k as int].offsets.len() < ndims {
        e@ == ErrorKind::Format
    } else {
        decoding_fails(filter, file, records[k as int], e)
    }
}

/// Read and decode one chunk.
fn decode_chunk<F: Fn(&[u8], u32) -> Result<Vec<u8>, OxiH5Error>>(
    file_data: &[u8],
    rec: &ChunkRecord,
    apply_filters: &F,
) -> (r: Result<Vec<u8>, OxiH5Error>)
    requires
        forall|raw: &[u8], mask: u32| apply_filters.requires((raw, mask)),
    ensures
        match r {
            Ok(data) => decodes_to(filtering_of(*apply_filters), file_data@, rec@, data@),
            Err(e) => decoding_fails(filtering_of(*apply_filters), file_data@, rec@, e),
        },
{
    let raw = read_chunk_bytes(file_data, rec)?;
    let decoded = (*apply_filters)(raw, rec.filter_mask);
    assert(apply_filters.ensures((raw, rec@.filter_mask), decoded));
    decoded
}

/// Assemble the chunks into one buffer of the whole dataset in row-major order.
///
/// `apply_filters` receives the stored bytes of a chunk and its filter mask, and
/// gives back the elements.
pub fn assemble_chunks<F: Fn(&[u8], u32) -> Result<Vec<u8>, OxiH5Error>>(
    chunks: &[ChunkRecord],
    file_data: &[u8],
    chunk_dims: &[u64],
    dataset_dims: &[u64],
    elem_size: usize,
    apply_filters: F,
) -> (r: Result<Vec<u8>, OxiH5Error>)
    requires
        forall|raw: &[u8], mask: u32| apply_filters.requires((raw, mask)),
        chunk_dims@.len() == dataset_dims@.len() && elem_size > 0 ==> can_scatter(
            ints64(chunk_dims@),
            ints64(dataset_dims@),
            elem_size as int,
        ),
    ensures
        whole_outcome(
            filtering_of(apply_filters),
            file_data@,
            views(chunks@),
            ints64(chunk_dims@),
            ints64(dataset_dims@),
            elem_size as int,
            r,
        ),
{
    let ndims: usize = dataset_dims.len();
    if chunk_dims.len() != ndims {
        return Err(
            OxiH5Error::Format(
                text(
                    &[
                        "assemble_chunks: chunk_dims (",
                        &chunk_dims.len().to_string(),
                        ") and dataset_dims (",
                        &ndims.to_string(),
                        ") length mismatch",
                    ],
                ),
            ),
        );
    }
    if elem_size == 0 {
        return Err(OxiH5Error::Format("assemble_chunks: elem_size must be > 0".to_string()));
    }
    let ghost file = file_data@;
    let ghost records = views(chunks@);
    let ghost chunk = ints64(chunk_dims@);
    let ghost dims = ints64(dataset_dims@);
    let ghost es = elem_size as int;
    let mut output: Vec<u8> = blank(dataset_dims, elem_size);
    let ghost mut decoded: Seq<Seq<u8>> = Seq::empty();
    for i in 0..chunks.len()
        invariant
            ndims == dataset_dims@.len() == chunk_dims@.len(),
            forall|raw: &[u8], mask: u32| apply_filters.requires((raw, mask)),
            file == file_data@,
            records == views(chunks@),
            chunk == ints64(chunk_dims@),
            dims == ints64(dataset_dims@),
            es == elem_size,
            can_scatter(chunk, dims, es),
            all_decode(filtering_of(apply_filters), file, records, decoded, i as nat, ndims as nat),
            output@ == assembled(records, decoded, i as nat, chunk, dims, es),
    {
        let rec = &chunks[i];
        assert(records[i as int] == rec@);
        if rec.offsets.len() < ndims {
            let e = OxiH5Error::Format(
                text(
                    &[
                        "chunk at ",
                        &rec.address.to_string(),
                        ": offsets length ",
                        &rec.offsets.len().to_string(),
                        " < ndims ",
                        &ndims.to_string(),
                    ],
                ),
            );
            assert(fails_after(filtering_of(apply_filters),
                file,
                records,
                decoded,
                i as nat,
                ndims as nat,
                e,
            ));
            return Err(e);
        }
        let chunk_data: Vec<u8> = match decode_chunk(file_data, rec, &apply_filters) {
            Ok(data) => data,
            Err(e) => {
                assert(fails_after(filtering_of(apply_filters),
                    file,
                    records,
                    decoded,
                    i as nat,
                    ndims as nat,
                    e,
                ));
                return Err(e);
            },
        };
        let ghost before = decoded;
        proof {
            decoded = decoded.push(chunk_data@);
            lemma_assembled_same(records, before, decoded, i as nat, chunk, dims, es);
        }
        scatter_chunk(
            &mut output,
            &rec.offsets,
            &chunk_data,
            chunk_dims,
            dataset_dims,
            elem_size,
        )?;
        proof {
            assert(ints64(rec.offsets@).take(ndims as int) == origin_of(
                records[i as int],
                dims.len(),
            ));
            assert forall|j: int| 0 <= j < i + 1 implies (#[trigger] records[j]).offsets.len()
                >= ndims && decodes_to(filtering_of(apply_filters), file, records[j], decoded[j]) by {
                if j < i {
                    assert(decoded[j] == before[j]);
                }
            }
        }
    }
    proof {
        assert(all_decode(
            filtering_of(apply_filters),
            file,
            records,
            decoded,
            records.len(),
            dims.len(),
        ));
    }
    Ok(output)
}

/// What assembling a whole dataset gives, whatever decoding gives.
pub open spec fn whole_outcome(
    filter: Filtering,
    file: Seq<u8>,
    records: Seq<RecordModel>,
    chunk_dims: Seq<int>,
    dims: Seq<int>,
    es: int,
    r: Result<Vec<u8>, OxiH5Error>,
) -> bool {
    if chunk_dims.len() != dims.len() || es == 0 {
        r is Err && r->Err_0@ == ErrorKind::Format
    } else {
        match r {
            Ok(out) => exists|decoded: Seq<Seq<u8>>|
                {
                    &&& #[trigger] all_decode(
                        filter,
                        file,
                        records,
                        decoded,
                        records.len(),
                        dims.len(),
                    )
                    &&& out@ == assembled(
                        records,
                        decoded,
                        records.len(),
                        chunk_dims,
                        dims,
                        es,
                    )
                },
            Err(e) => exists|decoded: Seq<Seq<u8>>, k: nat| #[trigger]
                fails_after(filter, file, records, decoded, k, dims.len(), e),
        }
    }
}

/// What was assembled depends on the chunks so far alone.
proof fn lemma_assembled_same(
    records: Seq<RecordModel>,
    a: Seq<Seq<u8>>,
    b: Seq<Seq<u8>>,
    k: nat,
    chunk_dims: Seq<int>,
    dims: Seq<int>,
    es: int,
)
    requires
        forall|i: int| 0 <= i < k ==> #[trigger] a[i] == b[i],
    ensures
        assembled(records, a, k, chunk_dims, dims, es) == assembled(
            records,
            b,
            k,
            chunk_dims,
            dims,
            es,
        ),
    decreases k,
{
    if k > 0 {
        lemma_assembled_same(records, a, b, (k - 1) as nat, chunk_dims, dims, es);
        assert(a[k - 1] == b[k - 1]);
    }
}

/// A buffer of zeros for elements of extents `dims`.
fn blank(dims: &[u64], elem_size: usize) -> (r: Vec<u8>)
    requires
        product(ints64(dims@)) * elem_size <= usize::MAX,
        elem_size > 0,
    ensures
        r@ == zeros((product(ints64(dims@)) * elem_size) as nat),
{
    proof {
        let p = product(ints64(dims@));
        lemma_product_non_negative(ints64(dims@));
        assert(p <= p * elem_size) by (nonlinear_arith)
            requires
                p >= 0,
                elem_size > 0,
        ;
    }
    let total: usize = capped_total(dims, usize::MAX);
    let mut out: Vec<u8> = Vec::new();
    crate::bytes::push_zeros(&mut out, total * elem_size);
    proof {
        assert(out@ =~= zeros((product(ints64(dims@)) * elem_size) as nat));
    }
    out
}

/// The last record of a chunk that starts at `origin`.
pub open spec fn last_at(records: Seq<RecordModel>, origin: Seq<int>) -> Option<int>
    decreases records.len(),
{
    if records.len() == 0 {
        None
    } else if records.last().offsets.len() >= origin.len() && origin_of(
        records.last(),
        origin.len(),
    ) == origin {
        Some(records.len() - 1)
    } else {
        last_at(records.drop_last(), origin)
    }
}

/// How many chunks of the grid the ranges touch along each dimension.
pub open spec fn cell_counts(
    ranges: Seq<std::ops::Range<u64>>,
    chunk_dims: Seq<int>,
) -> Seq<int> {
    Seq::new(
        ranges.len(),
        |d: int|
            (ranges[d].end - 1) / chunk_dims[d] - ranges[d].start as int / chunk_dims[d] + 1,
    )
}

/// Where the `q`-th chunk of the grid that the ranges touch starts.
pub open spec fn cell_origin(
    ranges: Seq<std::ops::Range<u64>>,
    chunk_dims: Seq<int>,
    q: int,
) -> Seq<int> {
    let rel = unrank(cell_counts(ranges, chunk_dims), q);
    Seq::new(
        ranges.len(),
        |d: int| (ranges[d].start as int / chunk_dims[d] + rel[d]) * chunk_dims[d],
    )
}

/// `n` bytes of elements of `es` bytes that no chunk holds: each is the fill value, or
/// zero where there is none of that size.
pub open spec fn gaps(n: nat, es: int, fill: Seq<u8>) -> Seq<u8> {
    Seq::new(
        n,
        |b: int|
            if fill.len() == es {
                fill[b % es]
            } else {
                0
            },
    )
}

/// The buffer of the ranges once the first `k` chunks that they touch are copied
/// into it; absent chunks leave the fill value, or zeros.
pub open spec fn sliced(
    records: Seq<RecordModel>,
    decoded: Seq<Seq<u8>>,
    k: nat,
    chunk_dims: Seq<int>,
    ranges: Seq<std::ops::Range<u64>>,
    es: int,
    fill: Seq<u8>,
) -> Seq<u8>
    decreases k,
{
    if k == 0 {
        gaps((product(lengths(ranges)) * es) as nat, es, fill)
    } else {
        let before = sliced(records, decoded, (k - 1) as nat, chunk_dims, ranges, es, fill);
        let origin = cell_origin(ranges, chunk_dims, k - 1);
        if last_at(records, origin) is None {
            before
        } else {
            scattered(
                before,
                minus(origin, starts(ranges)),
                decoded[k - 1],
                chunk_dims,
                lengths(ranges),
                es,
            )
        }
    }
}

/// Those of the first `k` chunks that the ranges touch which are there may decode
/// to `decoded`.
pub open spec fn cells_decode(
    filter: Filtering,
    file: Seq<u8>,
    records: Seq<RecordModel>,
    decoded: Seq<Seq<u8>>,
    k: nat,
    chunk_dims: Seq<int>,
    ranges: Seq<std::ops::Range<u64>>,
) -> bool {
    &&& decoded.len() == k
    &&& forall|q: int|
        0 <= q < k ==> {
            let at = last_at(records, #[trigger] cell_origin(ranges, chunk_dims, q));
            at is Some ==> decodes_to(filter, file, records[at->0], decoded[q])
        }
}

/// The first `k` chunks that the ranges touch may decode, and the next one is
/// there and may fail to, with `e`.
pub open spec fn cell_fails_after(
    filter: Filtering,
    file: Seq<u8>,
    records: Seq<RecordModel>,
    decoded: Seq<Seq<u8>>,
    k: nat,
    chunk_dims: Seq<int>,
    ranges: Seq<std::ops::Range<u64>>,
    e: OxiH5Error,
) -> bool {
    let at = last_at(records, cell_origin(ranges, chunk_dims, k as int));
    &&& k < product(cell_counts(ranges, chunk_dims))
    &&& cells_decode(filter, file, records, decoded, k, chunk_dims, ranges)
    &&& at is Some
    &&& decoding_fails(filter, file, records[at->0], e)
}

pub proof fn lemma_last_at_bounds(records: Seq<RecordModel>, origin: Seq<int>)
    ensures
        last_at(records, origin) is Some ==> {
            let i = last_at(records, origin)->0;
            0 <= i < records.len() && origin_of(records[i], origin.len()) == origin
        },
    decreases records.len(),
{
    if records.len() > 0 {
        lemma_last_at_bounds(records.drop_last(), origin);
    }
}

/// Whether the record's chunk starts at `origin`.
fn starts_at(rec: &ChunkRecord, origin: &[u64]) -> (r: bool)
    ensures
        r == (rec@.offsets.len() >= origin@.len() && origin_of(rec@, origin@.len()) == ints64(
            origin@,
        )),
{
    if rec.offsets.len() < origin.len() {
        return false;
    }
    for d in 0..origin.len()
        invariant
            rec.offsets@.len() >= origin@.len(),
            forall|k: int| 0 <= k < d ==> #[trigger] rec.offsets@[k] == origin@[k],
    {
        if rec.offsets[d] != origin[d] {
            proof {
                assert(origin_of(rec@, origin@.len())[d as int] != ints64(origin@)[d as int]);
            }
            return false;
        }
    }
    proof {
        assert(origin_of(rec@, origin@.len()) =~= ints64(origin@));
    }
    true
}

/// Find the last record of a chunk that starts at `origin`.
fn find_chunk(chunks: &[ChunkRecord], origin: &[u64]) -> (r: Option<usize>)
    ensures
        match r {
            Some(i) => i < chunks@.len() && last_at(views(chunks@), ints64(origin@)) == Some(
                i as int,
            ),
            None => last_at(views(chunks@), ints64(origin@)) is None,
        },
{
    let ghost records = views(chunks@);
    let ghost at = ints64(origin@);
    let mut left: usize = chunks.len();
    proof {
        assert(records.take(left as int) =~= records);
    }
    while left > 0
        invariant
            left <= chunks@.len(),
            records == views(chunks@),
            at == ints64(origin@),
            last_at(records.take(left as int), at) == last_at(records, at),
        decreases left,
    {
        proof {
            assert(records.take(left as int).last() == chunks@[left - 1]@);
            assert(records.take(left as int).drop_last() =~= records.take(left - 1));
        }
        if starts_at(&chunks[left - 1], origin) {
            return Some(left - 1);
        }
        left -= 1;
    }
    None
}

/// What assembling the ranges takes: one range and one positive chunk extent per
/// dimension, and sizes that are machine numbers.
pub open spec fn can_slice(
    chunk_dims: Seq<int>,
    ranges: Seq<std::ops::Range<u64>>,
    es: int,
) -> bool {
    &&& forward(ranges)
    &&& chunk_dims.len() == ranges.len()
    &&& forall|d: int| 0 <= d < chunk_dims.len() ==> 0 < #[trigger] chunk_dims[d]
    &&& product(chunk_dims) <= usize::MAX
    &&& product(lengths(ranges)) <= usize::MAX
    &&& product(lengths(ranges)) * es <= usize::MAX
}

/// One more chunk of the grid reaches at least one more position.
proof fn lemma_cell_count(start: int, end: int, chunk: int)
    requires
        0 <= start < end,
        chunk > 0,
    ensures
        0 <= start / chunk <= (end - 1) / chunk,
        (end - 1) / chunk - start / chunk + 1 <= end - start,
        forall|x: int|
            0 <= x <= (end - 1) / chunk ==> 0 <= #[trigger] (x * chunk) <= end - 1,
{
    let a = start / chunk;
    let b = (end - 1) / chunk;
    vstd::arithmetic::div_mod::lemma_fundamental_div_mod(start, chunk);
    vstd::arithmetic::div_mod::lemma_fundamental_div_mod(end - 1, chunk);
    vstd::arithmetic::div_mod::lemma_div_pos_is_pos(start, chunk);
    vstd::arithmetic::div_mod::lemma_div_is_ordered(start, end - 1, chunk);
    assert(b - a <= end - 1 - start) by (nonlinear_arith)
        requires
            start == chunk * a + start % chunk,
            end - 1 == chunk * b + (end - 1) % chunk,
            0 <= start % chunk < chunk,
            0 <= (end - 1) % chunk < chunk,
            chunk >= 1,
            a <= b,
            start <= end - 1,
    ;
    assert forall|x: int| 0 <= x <= b implies 0 <= #[trigger] (x * chunk) <= end - 1 by {
        assert(0 <= x * chunk <= chunk * b) by (nonlinear_arith)
            requires
                0 <= x <= b,
                chunk > 0,
        ;
    }
}

/// Append `n` elements that no chunk holds.
fn push_gaps(out: &mut Vec<u8>, n: usize, elem_size: usize, fill: &[u8])
    requires
        old(out)@.len() == 0,
        n * elem_size <= usize::MAX,
    ensures
        final(out)@ == gaps((n * elem_size) as nat, elem_size as int, fill@),
{
    let total: usize = n * elem_size;
    if fill.len() != elem_size || elem_size == 0 {
        proof {
            assert(elem_size == 0 ==> n * elem_size == 0) by (nonlinear_arith);
        }
        crate::bytes::push_zeros(out, total);
        proof {
            assert(out@ =~= gaps(total as nat, elem_size as int, fill@));
        }
        return;
    }
    for b in 0..total
        invariant
            elem_size > 0,
            fill@.len() == elem_size,
            out@.len() == b,
            forall|k: int| 0 <= k < b ==> #[trigger] out@[k] == fill@[k % elem_size as int],
    {
        out.push(fill[b % elem_size]);
    }
    proof {
        assert(out@ =~= gaps(total as nat, elem_size as int, fill@));
    }
}

/// Assemble only what lies in `ranges`, from the chunks that they touch, into a
/// buffer of just these ranges. What no chunk holds is zero.
pub fn assemble_chunks_slice<F: Fn(&[u8], u32) -> Result<Vec<u8>, OxiH5Error>>(
    chunks: &[ChunkRecord],
    file_data: &[u8],
    chunk_dims: &[u64],
    dataset_dims: &[u64],
    elem_size: usize,
    ranges: &[std::ops::Range<u64>],
    apply_filters: F,
) -> (r: Result<Vec<u8>, OxiH5Error>)
    requires
        forall|raw: &[u8], mask: u32| apply_filters.requires((raw, mask)),
        dataset_dims@.len() == ranges@.len(),
        can_slice(ints64(chunk_dims@), ranges@, elem_size as int),
    ensures
        slice_outcome(
            filtering_of(apply_filters),
            file_data@,
            views(chunks@),
            ints64(chunk_dims@),
            ranges@,
            elem_size as int,
            Seq::empty(),
            r,
        ),
{
    let none: Vec<u8> = Vec::new();
    proof {
        assert(none@ =~= Seq::empty());
    }
    assemble_chunks_slice_filled(
        chunks,
        file_data,
        chunk_dims,
        dataset_dims,
        elem_size,
        &none,
        ranges,
        apply_filters,
    )
}

/// Assemble only what lies in `ranges`, from the chunks that they touch, into a
/// buffer of just these ranges. What no chunk holds is the fill value.
pub fn assemble_chunks_slice_filled<F: Fn(&[u8], u32) -> Result<Vec<u8>, OxiH5Error>>(
    chunks: &[ChunkRecord],
    file_data: &[u8],
    chunk_dims: &[u64],
    dataset_dims: &[u64],
    elem_size: usize,
    fill_value: &[u8],
    ranges: &[std::ops::Range<u64>],
    apply_filters: F,
) -> (r: Result<Vec<u8>, OxiH5Error>)
    requires
        forall|raw: &[u8], mask: u32| apply_filters.requires((raw, mask)),
        dataset_dims@.len() == ranges@.len(),
        can_slice(ints64(chunk_dims@), ranges@, elem_size as int),
    ensures
        slice_outcome(
            filtering_of(apply_filters),
            file_data@,
            views(chunks@),
            ints64(chunk_dims@),
            ranges@,
            elem_size as int,
            fill_value@,
            r,
        ),
{
    let ghost fill = fill_value@;
    let ndims: usize = dataset_dims.len();
    let ghost file = file_data@;
    let ghost records = views(chunks@);
    let ghost chunk = ints64(chunk_dims@);
    let ghost dims = lengths(ranges@);
    let ghost es = elem_size as int;

    let mut first: Vec<u64> = Vec::new();
    let mut counts: Vec<u64> = Vec::new();
    let mut out_dims: Vec<u64> = Vec::new();
    let ghost cells = cell_counts(ranges@, chunk);
    for d in 0..ndims
        invariant
            ndims == ranges@.len(),
            chunk == ints64(chunk_dims@),
            dims == lengths(ranges@),
            can_slice(chunk, ranges@, es),
            cells == cell_counts(ranges@, chunk),
            es == elem_size,
            first@.len() == d,
            counts@.len() == d,
            out_dims@.len() == d,
            forall|k: int| 0 <= k < d ==> 0 < #[trigger] dims[k],
            forall|k: int| 0 <= k < d ==> #[trigger] out_dims@[k] == dims[k],
            forall|k: int|
                0 <= k < d ==> #[trigger] first@[k] == ranges@[k].start as int / chunk[k],
            forall|k: int| 0 <= k < d ==> #[trigger] counts@[k] == cells[k],
            forall|k: int| 0 <= k < d ==> 0 < #[trigger] cells[k] <= dims[k],
    {
        let start: u64 = ranges[d].start;
        let end: u64 = ranges[d].end;
        let size: u64 = chunk_dims[d];
        assert(chunk[d as int] == size && 0 < chunk[d as int]);
        assert(ranges@[d as int].start <= ranges@[d as int].end);
        if start == end {
            let out: Vec<u8> = Vec::new();
            proof {
                assert(dims[d as int] == 0);
                crate::dims::lemma_product_zero(dims, d as int);
                assert(out@ =~= zeros(0));
                assert(0 * es == 0);
            }
            return Ok(out);
        }
        proof {
            lemma_cell_count(start as int, end as int, size as int);
        }
        first.push(start / size);
        counts.push((end - 1) / size - start / size + 1);
        out_dims.push(end - start);
    }
    proof {
        lemma_product_non_negative(dims);
        assert(ints64(out_dims@) =~= dims);
        assert(ints64(counts@) =~= cells);
        lemma_smaller_box(cells, dims);
        crate::dims::lemma_strides_fit(dims);
        crate::dims::lemma_strides_fit(chunk);
        crate::dims::lemma_product_positive(dims);
    }
    let strides: Vec<usize> = row_major_strides(&counts);
    let total: usize = capped_total(&counts, usize::MAX);
    let mut output: Vec<u8> = Vec::new();
    let out_elems: usize = capped_total(&out_dims, usize::MAX);
    push_gaps(&mut output, out_elems, elem_size, fill_value);
    let ghost mut decoded: Seq<Seq<u8>> = Seq::empty();
    proof {
        assert(output@ =~= sliced(records, decoded, 0, chunk, ranges@, es, fill));
    }
    for q in 0..total
        invariant
            ndims == ranges@.len() == chunk_dims@.len(),
            forall|raw: &[u8], mask: u32| apply_filters.requires((raw, mask)),
            file == file_data@,
            records == views(chunks@),
            chunk == ints64(chunk_dims@),
            dims == lengths(ranges@),
            es == elem_size,
            can_slice(chunk, ranges@, es),
            cells == cell_counts(ranges@, chunk),
            first@.len() == ndims,
            counts@.len() == ndims,
            strides@.len() == ndims,
            forall|k: int| 0 <= k < ndims ==> 0 < #[trigger] dims[k],
            forall|k: int|
                0 <= k < ndims ==> #[trigger] first@[k] == ranges@[k].start as int / chunk[k],
            forall|k: int| 0 <= k < ndims ==> 0 < #[trigger] cells[k] <= dims[k],
            ints64(counts@) == cells,
            ints(strides@) == strides_of(cells),
            strides_fit(dims),
            strides_fit(chunk),
            total == product(cells),
            product(dims) > 0,
            cells_decode(filtering_of(apply_filters), file, records, decoded, q as nat, chunk, ranges@),
            output@ == sliced(records, decoded, q as nat, chunk, ranges@, es, fill),
    {
        let rel: Vec<u64> = flat_to_coords(q, &strides, ndims);
        let ghost at = cell_origin(ranges@, chunk, q as int);
        proof {
            assert(non_negative(cells));
            law_strides_unrank(cells, q as int);
            law_unrank_then_rank(cells, q as int);
        }
        let mut origin: Vec<u64> = Vec::new();
        for d in 0..ndims
            invariant
                ndims == ranges@.len() == chunk_dims@.len(),
                chunk == ints64(chunk_dims@),
                dims == lengths(ranges@),
                es == elem_size,
                can_slice(chunk, ranges@, es),
                cells == cell_counts(ranges@, chunk),
                at == cell_origin(ranges@, chunk, q as int),
                rel@.len() == ndims,
                ints64(rel@) == unrank(cells, q as int),
                in_box(cells, unrank(cells, q as int)),
                first@.len() == ndims,
                forall|k: int| 0 <= k < ndims ==> 0 < #[trigger] dims[k],
                forall|k: int|
                    0 <= k < ndims ==> #[trigger] first@[k] == ranges@[k].start as int / chunk[k],
                origin@.len() == d,
                forall|k: int| 0 <= k < d ==> #[trigger] origin@[k] == at[k],
        {
            proof {
                let k = d as int;
                assert(0 < dims[k] && 0 < chunk[k]);
                assert(first@[k] == ranges@[k].start as int / chunk[k]);
                assert(0 <= unrank(cells, q as int)[k] < cells[k]);
                assert(ints64(rel@)[k] == rel@[k]);
                lemma_cell_count(ranges@[k].start as int, ranges@[k].end as int, chunk[k]);
                let x = first@[k] + rel@[k];
                assert(0 <= x * chunk[k] <= ranges@[k].end - 1);
            }
            origin.push((first[d] + rel[d]) * chunk_dims[d]);
        }
        let ghost before = decoded;
        proof {
            assert(ints64(origin@) =~= at);
        }
        match find_chunk(chunks, &origin) {
            Some(i) => {
                assert(records[i as int] == chunks@[i as int]@);
                match decode_chunk(file_data, &chunks[i], &apply_filters) {
                    Ok(chunk_data) => {
                        proof {
                            decoded = decoded.push(chunk_data@);
                            lemma_sliced_same(
                                records,
                                before,
                                decoded,
                                q as nat,
                                chunk,
                                ranges@,
                                es,
                                fill,
                            );
                        }
                        if elem_size > 0 {
                            proof {
                                assert(ints64(origin@).take(ndims as int) =~= at);
                            }
                            scatter_chunk_slice(
                                &mut output,
                                &origin,
                                &chunk_data,
                                chunk_dims,
                                ranges,
                                elem_size,
                            )?;
                        } else {
                            proof {
                                assert(product(dims) * es == 0) by (nonlinear_arith)
                                    requires
                                        es == 0,
                                ;
                                lemma_sliced_len(
                                    records,
                                    decoded,
                                    (q + 1) as nat,
                                    chunk,
                                    ranges@,
                                    es,
                                    fill,
                                );
                                lemma_sliced_len(records, decoded, q as nat, chunk, ranges@, es, fill);
                                assert(output@ =~= sliced(
                                    records,
                                    decoded,
                                    (q + 1) as nat,
                                    chunk,
                                    ranges@,
                                    es,
                                    fill,
                                ));
                            }
                        }
                    },
                    Err(e) => {
                        assert(cell_fails_after(filtering_of(apply_filters),
                            file,
                            records,
                            decoded,
                            q as nat,
                            chunk,
                            ranges@,
                            e,
                        ));
                        return Err(e);
                    },
                }
            },
            None => {
                proof {
                    decoded = decoded.push(Seq::empty());
                    lemma_sliced_same(records, before, decoded, q as nat, chunk, ranges@, es, fill);
                }
            },
        }
        proof {
            assert forall|j: int| 0 <= j < q + 1 implies {
                let place = last_at(records, #[trigger] cell_origin(ranges@, chunk, j));
                place is Some ==> decodes_to(filtering_of(apply_filters), file, records[place->0], decoded[j])
            } by {
                if j < q {
                    assert(decoded[j] == before[j]);
                }
            }
        }
    }
    Ok(output)
}

/// What assembling the ranges gives, whatever `filter` does.
pub open spec fn slice_outcome(
    filter: Filtering,
    file: Seq<u8>,
    records: Seq<RecordModel>,
    chunk_dims: Seq<int>,
    ranges: Seq<std::ops::Range<u64>>,
    es: int,
    fill: Seq<u8>,
    r: Result<Vec<u8>, OxiH5Error>,
) -> bool {
    if product(lengths(ranges)) == 0 {
        r is Ok && r->Ok_0@ == Seq::<u8>::empty()
    } else {
        let cells = product(cell_counts(ranges, chunk_dims)) as nat;
        match r {
            Ok(out) => exists|decoded: Seq<Seq<u8>>|
                {
                    &&& #[trigger] cells_decode(
                        filter,
                        file,
                        records,
                        decoded,
                        cells,
                        chunk_dims,
                        ranges,
                    )
                    &&& out@ == sliced(records, decoded, cells, chunk_dims, ranges, es, fill)
                },
            Err(e) => exists|decoded: Seq<Seq<u8>>, k: nat| #[trigger]
                cell_fails_after(filter, file, records, decoded, k, chunk_dims, ranges, e),
        }
    }
}

/// What was assembled of the ranges depends on the chunks so far alone.
proof fn lemma_sliced_same(
    records: Seq<RecordModel>,
    a: Seq<Seq<u8>>,
    b: Seq<Seq<u8>>,
    k: nat,
    chunk_dims: Seq<int>,
    ranges: Seq<std::ops::Range<u64>>,
    es: int,
    fill: Seq<u8>,
)
    requires
        forall|i: int| 0 <= i < k ==> #[trigger] a[i] == b[i],
    ensures
        sliced(records, a, k, chunk_dims, ranges, es, fill) == sliced(
            records,
            b,
            k,
            chunk_dims,
            ranges,
            es,
            fill,
        ),
    decreases k,
{
    if k > 0 {
        lemma_sliced_same(records, a, b, (k - 1) as nat, chunk_dims, ranges, es, fill);
        assert(a[k - 1] == b[k - 1]);
    }
}

/// A buffer of the ranges has the size of the ranges.
pub proof fn lemma_sliced_len(
    records: Seq<RecordModel>,
    decoded: Seq<Seq<u8>>,
    k: nat,
    chunk_dims: Seq<int>,
    ranges: Seq<std::ops::Range<u64>>,
    es: int,
    fill: Seq<u8>,
)
    ensures
        sliced(records, decoded, k, chunk_dims, ranges, es, fill).len() == (product(lengths(ranges))
            * es) as nat,
    decreases k,
{
    if k > 0 {
        lemma_sliced_len(records, decoded, (k - 1) as nat, chunk_dims, ranges, es, fill);
    }
}

/// Where the chunk of the grid that covers position `c` starts.
pub open spec fn grid_base(c: Seq<int>, chunk_dims: Seq<int>) -> Seq<int> {
    Seq::new(c.len(), |d: int| c[d] / chunk_dims[d] * chunk_dims[d])
}

/// Whether the chunk starts on the grid.
pub open spec fn on_grid(origin: Seq<int>, chunk_dims: Seq<int>) -> bool {
    forall|d: int| 0 <= d < origin.len() ==> #[trigger] origin[d] % chunk_dims[d] == 0
}

/// Records of chunks on the grid, as they were decoded. Of two at the same place the later
/// one is a full chunk at least; any other may be short.
pub open spec fn tiled(
    records: Seq<RecordModel>,
    decoded: Seq<Seq<u8>>,
    chunk_dims: Seq<int>,
    es: int,
) -> bool {
    &&& decoded.len() == records.len()
    &&& forall|i: int|
        0 <= i < records.len() ==> {
            &&& (#[trigger] records[i]).offsets.len() >= chunk_dims.len()
            &&& on_grid(origin_of(records[i], chunk_dims.len()), chunk_dims)
        }
    &&& forall|i: int, j: int|
        0 <= i < j < records.len() && origin_of(#[trigger] records[i], chunk_dims.len())
            == origin_of(#[trigger] records[j], chunk_dims.len()) ==> decoded[j].len() >= product(
            chunk_dims,
        ) * es
}

/// A chunk on the grid covers a position exactly if it is the grid's chunk there.
pub proof fn lemma_covers(c: Seq<int>, origin: Seq<int>, chunk_dims: Seq<int>)
    requires
        c.len() == origin.len() == chunk_dims.len(),
        forall|d: int| 0 <= d < chunk_dims.len() ==> 0 < #[trigger] chunk_dims[d],
        on_grid(origin, chunk_dims),
    ensures
        in_box(chunk_dims, minus(c, origin)) <==> origin == grid_base(c, chunk_dims),
{
    let base = grid_base(c, chunk_dims);
    let local = minus(c, origin);
    if in_box(chunk_dims, local) {
        assert forall|d: int| 0 <= d < c.len() implies #[trigger] origin[d] == base[d] by {
            let m = chunk_dims[d];
            assert(0 <= local[d] < m);
            assert(origin[d] % m == 0);
            vstd::arithmetic::div_mod::lemma_fundamental_div_mod(origin[d], m);
            let q = origin[d] / m;
            assert(m * q == q * m) by (nonlinear_arith);
            vstd::arithmetic::div_mod::lemma_fundamental_div_mod_converse(
                c[d],
                m,
                q,
                c[d] - origin[d],
            );
        }
        assert(origin =~= base);
    }
    if origin == base {
        assert forall|d: int| 0 <= d < c.len() implies 0 <= #[trigger] local[d] < chunk_dims[d] by {
            let m = chunk_dims[d];
            assert(0 < m);
            vstd::arithmetic::div_mod::lemma_fundamental_div_mod(c[d], m);
            let q = c[d] / m;
            assert(m * q == q * m) by (nonlinear_arith);
            assert(origin[d] == base[d]);
        }
    }
}

/// The byte `r` of the element at position `c`, from the last chunk there; zero where
/// there is none, or it does not reach as far.
pub open spec fn element_byte(
    records: Seq<RecordModel>,
    decoded: Seq<Seq<u8>>,
    chunk_dims: Seq<int>,
    c: Seq<int>,
    es: int,
    r: int,
) -> u8 {
    match last_at(records, grid_base(c, chunk_dims)) {
        None => 0,
        Some(i) => if supplies(c, grid_base(c, chunk_dims), decoded[i], chunk_dims, es) {
            supplied(c, r, grid_base(c, chunk_dims), decoded[i], chunk_dims, es)
        } else {
            0
        },
    }
}

/// A covered position is supplied by a full chunk.
proof fn lemma_full_chunk_supplies(
    c: Seq<int>,
    origin: Seq<int>,
    data: Seq<u8>,
    chunk_dims: Seq<int>,
    es: int,
)
    requires
        es > 0,
        in_box(chunk_dims, minus(c, origin)),
        data.len() >= product(chunk_dims) * es,
    ensures
        supplies(c, origin, data, chunk_dims, es),
{
    law_rank_then_unrank(chunk_dims, minus(c, origin));
    let p = rank(chunk_dims, minus(c, origin));
    assert((p + 1) * es <= product(chunk_dims) * es) by (nonlinear_arith)
        requires
            p + 1 <= product(chunk_dims),
            es > 0,
    ;
}

/// Where the bytes of an element lie.
pub proof fn lemma_element_byte_bounds(e: int, n: int, es: int, r: int)
    requires
        es > 0,
        0 <= e < n,
        0 <= r < es,
    ensures
        0 <= e * es + r < n * es,
        (e * es + r) / es == e,
        (e * es + r) % es == r,
        (e + 1) * es <= n * es,
{
    assert(0 <= e * es && (e + 1) * es <= n * es && (e + 1) * es == e * es + es) by (nonlinear_arith)
        requires
            es > 0,
            0 <= e < n,
    ;
    lemma_byte_of(e * es + r, e, es);
}

pub proof fn lemma_assembled_len(
    records: Seq<RecordModel>,
    decoded: Seq<Seq<u8>>,
    k: nat,
    chunk_dims: Seq<int>,
    dims: Seq<int>,
    es: int,
)
    ensures
        assembled(records, decoded, k, chunk_dims, dims, es).len() == (product(dims) * es) as nat,
    decreases k,
{
    if k > 0 {
        lemma_assembled_len(records, decoded, (k - 1) as nat, chunk_dims, dims, es);
    }
}

proof fn lemma_assembled_upto(
    records: Seq<RecordModel>,
    decoded: Seq<Seq<u8>>,
    k: nat,
    chunk_dims: Seq<int>,
    dims: Seq<int>,
    es: int,
    c: Seq<int>,
    r: int,
)
    requires
        es > 0,
        chunk_dims.len() == dims.len(),
        forall|d: int| 0 <= d < chunk_dims.len() ==> 0 < #[trigger] chunk_dims[d],
        tiled(records, decoded, chunk_dims, es),
        in_box(dims, c),
        0 <= r < es,
        k <= records.len(),
    ensures
        assembled(records, decoded, k, chunk_dims, dims, es)[rank(dims, c) * es + r]
            == element_byte(records.take(k as int), decoded, chunk_dims, c, es, r),
    decreases k,
{
    law_rank_then_unrank(dims, c);
    let e = rank(dims, c);
    lemma_element_byte_bounds(e, product(dims), es, r);
    if k > 0 {
        let i = k - 1;
        lemma_assembled_upto(records, decoded, i as nat, chunk_dims, dims, es, c, r);
        lemma_assembled_len(records, decoded, i as nat, chunk_dims, dims, es);
        let origin = origin_of(records[i], dims.len());
        assert(records[i].offsets.len() >= chunk_dims.len());
        lemma_covers(c, origin, chunk_dims);
        let taken = records.take(k as int);
        assert(taken.last() == records[i]);
        assert(taken.drop_last() =~= records.take(i));
        if in_box(chunk_dims, minus(c, origin)) && last_at(records.take(i), origin) is Some {
            lemma_last_at_bounds(records.take(i), origin);
            let j = last_at(records.take(i), origin)->0;
            assert(records.take(i)[j] == records[j]);
            lemma_full_chunk_supplies(c, origin, decoded[i], chunk_dims, es);
        }
    } else {
        assert(records.take(0) =~= Seq::<RecordModel>::empty());
    }
}

/// What the assembled dataset holds: where the chunks lie on a grid, every element is
/// that of the last chunk at its place in the grid, and zero where there is none, or it
/// does not reach as far.
pub proof fn law_assembled_element(
    records: Seq<RecordModel>,
    decoded: Seq<Seq<u8>>,
    chunk_dims: Seq<int>,
    dims: Seq<int>,
    es: int,
    c: Seq<int>,
    r: int,
)
    requires
        es > 0,
        chunk_dims.len() == dims.len(),
        forall|d: int| 0 <= d < chunk_dims.len() ==> 0 < #[trigger] chunk_dims[d],
        tiled(records, decoded, chunk_dims, es),
        in_box(dims, c),
        0 <= r < es,
    ensures
        assembled(records, decoded, records.len(), chunk_dims, dims, es)[rank(dims, c) * es + r]
            == element_byte(records, decoded, chunk_dims, c, es, r),
{
    lemma_assembled_upto(records, decoded, records.len(), chunk_dims, dims, es, c, r);
    assert(records.take(records.len() as int) =~= records);
}

/// The last of the first `k` chunks that supplies position `c`, wherever the chunks lie.
pub open spec fn last_supplier(
    records: Seq<RecordModel>,
    decoded: Seq<Seq<u8>>,
    k: nat,
    chunk_dims: Seq<int>,
    es: int,
    c: Seq<int>,
) -> Option<int>
    decreases k,
{
    if k == 0 {
        None
    } else if supplies(
        c,
        origin_of(records[k - 1], chunk_dims.len()),
        decoded[k - 1],
        chunk_dims,
        es,
    ) {
        Some(k - 1)
    } else {
        last_supplier(records, decoded, (k - 1) as nat, chunk_dims, es, c)
    }
}

/// What the assembled dataset holds, wherever the chunks lie: every element is that of the
/// last chunk that supplies it, and zero where none does.
pub proof fn law_element_of_last_supplier(
    records: Seq<RecordModel>,
    decoded: Seq<Seq<u8>>,
    k: nat,
    chunk_dims: Seq<int>,
    dims: Seq<int>,
    es: int,
    c: Seq<int>,
    r: int,
)
    requires
        es > 0,
        chunk_dims.len() == dims.len(),
        in_box(dims, c),
        0 <= r < es,
    ensures
        assembled(records, decoded, k, chunk_dims, dims, es)[rank(dims, c) * es + r] == (
        match last_supplier(records, decoded, k, chunk_dims, es, c) {
            None => 0,
            Some(i) => supplied(
                c,
                r,
                origin_of(records[i], chunk_dims.len()),
                decoded[i],
                chunk_dims,
                es,
            ),
        }),
    decreases k,
{
    law_rank_then_unrank(dims, c);
    lemma_element_byte_bounds(rank(dims, c), product(dims), es, r);
    if k > 0 {
        law_element_of_last_supplier(
            records,
            decoded,
            (k - 1) as nat,
            chunk_dims,
            dims,
            es,
            c,
            r,
        );
        lemma_assembled_len(records, decoded, (k - 1) as nat, chunk_dims, dims, es);
    }
}

/// Whether no two chunks cover the same position.
pub open spec fn disjoint(records: Seq<RecordModel>, chunk_dims: Seq<int>) -> bool {
    forall|i: int, j: int, c: Seq<int>|
        0 <= i < records.len() && 0 <= j < records.len() && i != j && in_box(
            chunk_dims,
            #[trigger] minus(c, origin_of(records[i], chunk_dims.len())),
        ) ==> !in_box(chunk_dims, #[trigger] minus(c, origin_of(records[j], chunk_dims.len())))
}

proof fn lemma_only_supplier(
    records: Seq<RecordModel>,
    decoded: Seq<Seq<u8>>,
    k: nat,
    chunk_dims: Seq<int>,
    es: int,
    c: Seq<int>,
    i: int,
)
    requires
        k <= records.len(),
        0 <= i < records.len(),
        disjoint(records, chunk_dims),
        in_box(chunk_dims, minus(c, origin_of(records[i], chunk_dims.len()))),
    ensures
        last_supplier(records, decoded, k, chunk_dims, es, c) == if i < k && supplies(
            c,
            origin_of(records[i], chunk_dims.len()),
            decoded[i],
            chunk_dims,
            es,
        ) {
            Some(i)
        } else {
            None
        },
    decreases k,
{
    if k > 0 {
        lemma_only_supplier(records, decoded, (k - 1) as nat, chunk_dims, es, c, i);
        if k - 1 != i {
            assert(!in_box(
                chunk_dims,
                minus(c, origin_of(records[k - 1], chunk_dims.len())),
            ));
        }
    }
}

/// What the assembled dataset holds of chunks that do not overlap, on a grid or not: at a
/// position that a chunk covers, that chunk's element, or zero where the chunk does not
/// reach as far.
pub proof fn law_element_of_disjoint_chunk(
    records: Seq<RecordModel>,
    decoded: Seq<Seq<u8>>,
    chunk_dims: Seq<int>,
    dims: Seq<int>,
    es: int,
    c: Seq<int>,
    r: int,
    i: int,
)
    requires
        es > 0,
        chunk_dims.len() == dims.len(),
        disjoint(records, chunk_dims),
        in_box(dims, c),
        0 <= r < es,
        0 <= i < records.len(),
        in_box(chunk_dims, minus(c, origin_of(records[i], chunk_dims.len()))),
    ensures
        assembled(records, decoded, records.len(), chunk_dims, dims, es)[rank(dims, c) * es + r]
            == if supplies(
            c,
            origin_of(records[i], chunk_dims.len()),
            decoded[i],
            chunk_dims,
            es,
        ) {
            supplied(
                c,
                r,
                origin_of(records[i], chunk_dims.len()),
                decoded[i],
                chunk_dims,
                es,
            )
        } else {
            0
        },
{
    law_element_of_last_supplier(
        records,
        decoded,
        records.len(),
        chunk_dims,
        dims,
        es,
        c,
        r,
    );
    lemma_only_supplier(records, decoded, records.len(), chunk_dims, es, c, i);
}

/// The chunks that the ranges touch are on the grid.
pub proof fn lemma_cell_on_grid(
    ranges: Seq<std::ops::Range<u64>>,
    chunk_dims: Seq<int>,
    q: int,
)
    requires
        chunk_dims.len() == ranges.len(),
        forall|d: int| 0 <= d < chunk_dims.len() ==> 0 < #[trigger] chunk_dims[d],
    ensures
        on_grid(cell_origin(ranges, chunk_dims, q), chunk_dims),
{
    let origin = cell_origin(ranges, chunk_dims, q);
    let rel = unrank(cell_counts(ranges, chunk_dims), q);
    assert forall|d: int| 0 <= d < origin.len() implies #[trigger] origin[d] % chunk_dims[d]
        == 0 by {
        assert(0 < chunk_dims[d]);
        let x = ranges[d].start as int / chunk_dims[d] + rel[d];
        vstd::arithmetic::div_mod::lemma_mod_multiples_basic(x, chunk_dims[d]);
    }
}

/// The place of the grid's chunk at position `c` among those that the ranges touch.
pub open spec fn cell_of(
    ranges: Seq<std::ops::Range<u64>>,
    chunk_dims: Seq<int>,
    c: Seq<int>,
) -> int {
    rank(
        cell_counts(ranges, chunk_dims),
        Seq::new(
            ranges.len(),
            |d: int| c[d] / chunk_dims[d] - ranges[d].start as int / chunk_dims[d],
        ),
    )
}

pub proof fn lemma_cell_of(
    ranges: Seq<std::ops::Range<u64>>,
    chunk_dims: Seq<int>,
    c: Seq<int>,
    q: int,
)
    requires
        forward(ranges),
        chunk_dims.len() == ranges.len(),
        forall|d: int| 0 <= d < chunk_dims.len() ==> 0 < #[trigger] chunk_dims[d],
        in_box(lengths(ranges), minus(c, starts(ranges))),
        0 <= q < product(cell_counts(ranges, chunk_dims)),
    ensures
        0 <= cell_of(ranges, chunk_dims, c) < product(cell_counts(ranges, chunk_dims)),
        cell_origin(ranges, chunk_dims, q) == grid_base(c, chunk_dims) <==> q == cell_of(
            ranges,
            chunk_dims,
            c,
        ),
{
    let cells = cell_counts(ranges, chunk_dims);
    let rel = Seq::new(
        ranges.len(),
        |d: int| c[d] / chunk_dims[d] - ranges[d].start as int / chunk_dims[d],
    );
    let o = minus(c, starts(ranges));
    assert(non_negative(cells)) by {
        assert forall|d: int| 0 <= d < cells.len() implies 0 <= #[trigger] cells[d] by {
            assert(0 <= o[d] < lengths(ranges)[d]);
            assert(0 < chunk_dims[d]);
            lemma_cell_count(ranges[d].start as int, ranges[d].end as int, chunk_dims[d]);
        }
    }
    assert(in_box(cells, rel)) by {
        assert forall|d: int| 0 <= d < cells.len() implies 0 <= #[trigger] rel[d] < cells[d] by {
            assert(0 <= o[d] < lengths(ranges)[d]);
            assert(0 < chunk_dims[d]);
            vstd::arithmetic::div_mod::lemma_div_is_ordered(
                ranges[d].start as int,
                c[d],
                chunk_dims[d],
            );
            vstd::arithmetic::div_mod::lemma_div_is_ordered(
                c[d],
                ranges[d].end - 1,
                chunk_dims[d],
            );
        }
    }
    law_rank_then_unrank(cells, rel);
    law_unrank_then_rank(cells, q);
    let found = unrank(cells, q);
    let origin = cell_origin(ranges, chunk_dims, q);
    let base = grid_base(c, chunk_dims);
    if origin == base {
        assert forall|d: int| 0 <= d < cells.len() implies #[trigger] found[d] == rel[d] by {
            let m = chunk_dims[d];
            let a = ranges[d].start as int / m;
            assert(origin[d] == base[d]);
            assert((a + found[d]) * m == (c[d] / m) * m);
            assert(a + found[d] == c[d] / m) by (nonlinear_arith)
                requires
                    (a + found[d]) * m == (c[d] / m) * m,
                    m > 0,
            ;
        }
        assert(found =~= rel);
    }
    if q == cell_of(ranges, chunk_dims, c) {
        assert(found == rel);
        assert(origin =~= base);
    }
}

proof fn lemma_sliced_upto(
    records: Seq<RecordModel>,
    whole: Seq<Seq<u8>>,
    decoded: Seq<Seq<u8>>,
    k: nat,
    chunk_dims: Seq<int>,
    ranges: Seq<std::ops::Range<u64>>,
    es: int,
    c: Seq<int>,
    r: int,
)
    requires
        es > 0,
        forward(ranges),
        chunk_dims.len() == ranges.len(),
        forall|d: int| 0 <= d < chunk_dims.len() ==> 0 < #[trigger] chunk_dims[d],
        tiled(records, whole, chunk_dims, es),
        same_chunks(records, whole, decoded, chunk_dims, ranges),
        in_box(lengths(ranges), minus(c, starts(ranges))),
        c.len() == ranges.len(),
        0 <= r < es,
        k <= product(cell_counts(ranges, chunk_dims)),
    ensures
        sliced(records, decoded, k, chunk_dims, ranges, es, Seq::empty())[rank(
            lengths(ranges),
            minus(c, starts(ranges)),
        ) * es + r] == if cell_of(ranges, chunk_dims, c) < k {
            element_byte(records, whole, chunk_dims, c, es, r)
        } else {
            0
        },
    decreases k,
{
    let dims = lengths(ranges);
    let o = minus(c, starts(ranges));
    law_rank_then_unrank(dims, o);
    let e = rank(dims, o);
    lemma_element_byte_bounds(e, product(dims), es, r);
    if k > 0 {
        let q = k - 1;
        lemma_sliced_upto(records, whole, decoded, q as nat, chunk_dims, ranges, es, c, r);
        lemma_sliced_len(records, decoded, q as nat, chunk_dims, ranges, es, Seq::empty());
        let origin = cell_origin(ranges, chunk_dims, q);
        let from = minus(origin, starts(ranges));
        lemma_cell_on_grid(ranges, chunk_dims, q);
        lemma_covers(c, origin, chunk_dims);
        lemma_cell_of(ranges, chunk_dims, c, q);
        assert(minus(o, from) =~= minus(c, origin));
        let at = last_at(records, origin);
        if at is Some {
            lemma_last_at_bounds(records, origin);
            assert(decoded[q] == whole[at->0]);
            assert(records[at->0].offsets.len() >= chunk_dims.len());
        }
    } else {
        if product(cell_counts(ranges, chunk_dims)) > 0 {
            lemma_cell_of(ranges, chunk_dims, c, 0);
        } else {
            lemma_cells_positive(ranges, chunk_dims, c);
        }
    }
}

pub proof fn lemma_cells_positive(
    ranges: Seq<std::ops::Range<u64>>,
    chunk_dims: Seq<int>,
    c: Seq<int>,
)
    requires
        forward(ranges),
        chunk_dims.len() == ranges.len(),
        forall|d: int| 0 <= d < chunk_dims.len() ==> 0 < #[trigger] chunk_dims[d],
        in_box(lengths(ranges), minus(c, starts(ranges))),
    ensures
        product(cell_counts(ranges, chunk_dims)) > 0,
{
    let cells = cell_counts(ranges, chunk_dims);
    let o = minus(c, starts(ranges));
    assert forall|d: int| 0 <= d < cells.len() implies 0 < #[trigger] cells[d] by {
        assert(0 <= o[d] < lengths(ranges)[d]);
        assert(0 < chunk_dims[d]);
        lemma_cell_count(ranges[d].start as int, ranges[d].end as int, chunk_dims[d]);
    }
    crate::dims::lemma_product_positive(cells);
}

/// The chunks that the ranges touch are decoded as those of the whole dataset are.
pub open spec fn same_chunks(
    records: Seq<RecordModel>,
    whole: Seq<Seq<u8>>,
    decoded: Seq<Seq<u8>>,
    chunk_dims: Seq<int>,
    ranges: Seq<std::ops::Range<u64>>,
) -> bool {
    forall|q: int|
        0 <= q < product(cell_counts(ranges, chunk_dims)) ==> {
            let at = last_at(records, #[trigger] cell_origin(ranges, chunk_dims, q));
            at is Some ==> decoded[q] == whole[at->0]
        }
}

/// Reading a part reads the same as reading the whole: where the chunks lie on a
/// grid, the element of the ranges' buffer for a position is the
/// element of the whole dataset's buffer for that position.
pub proof fn law_slice_is_part_of_whole(
    records: Seq<RecordModel>,
    whole: Seq<Seq<u8>>,
    decoded: Seq<Seq<u8>>,
    chunk_dims: Seq<int>,
    dims: Seq<int>,
    ranges: Seq<std::ops::Range<u64>>,
    es: int,
    c: Seq<int>,
    r: int,
)
    requires
        es > 0,
        forward(ranges),
        chunk_dims.len() == ranges.len() == dims.len(),
        forall|d: int| 0 <= d < chunk_dims.len() ==> 0 < #[trigger] chunk_dims[d],
        tiled(records, whole, chunk_dims, es),
        same_chunks(records, whole, decoded, chunk_dims, ranges),
        in_box(dims, c),
        in_box(lengths(ranges), minus(c, starts(ranges))),
        0 <= r < es,
    ensures
        sliced(
            records,
            decoded,
            product(cell_counts(ranges, chunk_dims)) as nat,
            chunk_dims,
            ranges,
            es,
            Seq::empty(),
        )[rank(lengths(ranges), minus(c, starts(ranges))) * es + r] == assembled(
            records,
            whole,
            records.len(),
            chunk_dims,
            dims,
            es,
        )[rank(dims, c) * es + r],
{
    let cells = product(cell_counts(ranges, chunk_dims));
    law_assembled_element(records, whole, chunk_dims, dims, es, c, r);
    lemma_cells_positive(ranges, chunk_dims, c);
    lemma_cell_of(ranges, chunk_dims, c, 0);
    lemma_sliced_upto(records, whole, decoded, cells as nat, chunk_dims, ranges, es, c, r);
}

} // verus!
