//! Laws of reading chunked datasets: a part is a part of the whole, and a cache changes no
//! result.

use vstd::prelude::*;
use crate::chunk_reader::{
    cached_records, chunk_plan, filtering_through, lemma_chunk_shape_len, ranges_fit, slice_read,
    whole_read,
};
use crate::chunk_record::RecordModel;
use crate::chunked::{
    all_decode, assembled, cell_counts, cell_fails_after, cell_origin, cells_decode, decodes_to,
    decoding_fails, fails_after, last_at, law_slice_is_part_of_whole,
    lemma_assembled_len, lemma_last_at_bounds, lemma_sliced_len, lengths, minus, on_grid,
    origin_of, same_chunks, slice_outcome, sliced, starts, tiled, whole_outcome, Filtering,
};
use crate::dims::{in_box, ints64, lemma_product_non_negative, product, rank};
use crate::error::{outcome, OxiH5Error};
use crate::filters::apply_pipeline;
use crate::object::{FilterPipeline, LayoutModel};

verus! {

/// Whether two results of decoding are the same but for the text of an error.
pub open spec fn alike(a: Result<Seq<u8>, OxiH5Error>, b: Result<Seq<u8>, OxiH5Error>) -> bool {
    match (a, b) {
        (Ok(x), Ok(y)) => x == y,
        (Err(x), Err(y)) => x@ == y@,
        _ => false,
    }
}

/// Whether decoding gives one result for the same bytes and mask.
pub open spec fn functional(filter: Filtering) -> bool {
    forall|
        raw: Seq<u8>,
        mask: u32,
        a: Result<Seq<u8>, OxiH5Error>,
        b: Result<Seq<u8>, OxiH5Error>,
    | #[trigger] filter(raw, mask, a) && #[trigger] filter(raw, mask, b) ==> alike(a, b)
}

/// Decoding through the filters of this library is a function, and so is decoding without
/// filters, whatever is supplied for them.
pub proof fn law_decoding_is_functional<
    P: Fn(&[u8], &FilterPipeline, u32, usize) -> Result<Vec<u8>, OxiH5Error>,
>(supplied: P, pipeline: FilterPipeline, elem_size: usize)
    ensures
        functional(filtering_through(apply_pipeline, pipeline, elem_size)),
        pipeline.filters@.len() == 0 ==> functional(
            filtering_through(supplied, pipeline, elem_size),
        ),
{
}

/// Whether the chunks lie on the grid, at most one in each of its cells.
pub open spec fn one_per_cell(records: Seq<RecordModel>, chunk_dims: Seq<int>) -> bool {
    &&& forall|i: int|
        0 <= i < records.len() ==> on_grid(
            origin_of(#[trigger] records[i], chunk_dims.len()),
            chunk_dims,
        )
    &&& forall|i: int, j: int|
        0 <= i < j < records.len() ==> origin_of(#[trigger] records[i], chunk_dims.len())
            != origin_of(#[trigger] records[j], chunk_dims.len())
}

/// Whether two caches give the same records for a dataset.
pub open spec fn same_records(
    file: Seq<u8>,
    layout: LayoutModel,
    dims: Seq<u64>,
    elem_size: usize,
    one: Map<(u64, usize), Seq<RecordModel>>,
    other: Map<(u64, usize), Seq<RecordModel>>,
) -> bool {
    match chunk_plan(layout, dims.len()) {
        Err(_) => true,
        Ok((index, address, shape)) => cached_records(
            one,
            file,
            index,
            address,
            shape,
            elem_size,
        ) == cached_records(other, file, index, address, shape, elem_size),
    }
}

/// Whether the index of a dataset, or the cache, lists at most one chunk for each cell of
/// the grid, and the chunks have positive extents.
pub open spec fn regular(
    file: Seq<u8>,
    layout: LayoutModel,
    dims: Seq<u64>,
    elem_size: usize,
    cache: Map<(u64, usize), Seq<RecordModel>>,
) -> bool {
    match chunk_plan(layout, dims.len()) {
        Err(_) => false,
        Ok((index, address, shape)) => {
            &&& forall|d: int| 0 <= d < shape.len() ==> 0 < #[trigger] shape[d]
            &&& match cached_records(cache, file, index, address, shape, elem_size) {
                Err(_) => true,
                Ok(records) => one_per_cell(records, ints64(shape)),
            }
        },
    }
}

/// What is assembled of the ranges, given what was assembled of the whole.
proof fn lemma_slice_outcome(
    filter: Filtering,
    file: Seq<u8>,
    records: Seq<RecordModel>,
    chunk_dims: Seq<int>,
    dims: Seq<int>,
    ranges: Seq<std::ops::Range<u64>>,
    es: int,
    full: Vec<u8>,
    part: Result<Vec<u8>, OxiH5Error>,
) -> (decoded: (Seq<Seq<u8>>, Seq<Seq<u8>>))
    requires
        functional(filter),
        es > 0,
        chunk_dims.len() == dims.len() == ranges.len(),
        one_per_cell(records, chunk_dims),
        product(lengths(ranges)) != 0,
        whole_outcome(filter, file, records, chunk_dims, dims, es, Ok(full)),
        slice_outcome(filter, file, records, chunk_dims, ranges, es, Seq::empty(), part),
    ensures
        part is Ok,
        full@ == assembled(records, decoded.0, records.len(), chunk_dims, dims, es),
        part->Ok_0@ == sliced(
            records,
            decoded.1,
            product(cell_counts(ranges, chunk_dims)) as nat,
            chunk_dims,
            ranges,
            es,
            Seq::empty(),
        ),
        tiled(records, decoded.0, chunk_dims, es),
        same_chunks(records, decoded.0, decoded.1, chunk_dims, ranges),
{
    let n = records.len();
    let whole = choose|whole: Seq<Seq<u8>>|
        #[trigger] all_decode(filter, file, records, whole, n, dims.len()) && full@ == assembled(
            records,
            whole,
            n,
            chunk_dims,
            dims,
            es,
        );
    let cells = product(cell_counts(ranges, chunk_dims)) as nat;
    match part {
        Ok(out) => {
            let decoded = choose|decoded: Seq<Seq<u8>>|
                #[trigger] cells_decode(filter, file, records, decoded, cells, chunk_dims, ranges)
                    && out@ == sliced(records, decoded, cells, chunk_dims, ranges, es, Seq::empty());
            assert forall|q: int|
                0 <= q < product(cell_counts(ranges, chunk_dims)) && last_at(
                    records,
                    #[trigger] cell_origin(ranges, chunk_dims, q),
                ) is Some implies decoded[q] == whole[last_at(
                records,
                cell_origin(ranges, chunk_dims, q),
            )->0] by {
                let at = last_at(records, cell_origin(ranges, chunk_dims, q))->0;
                lemma_last_at_bounds(records, cell_origin(ranges, chunk_dims, q));
                assert(decodes_to(filter, file, records[at], whole[at]));
                assert(decodes_to(filter, file, records[at], decoded[q]));
            }
            (whole, decoded)
        },
        Err(e) => {
            let (decoded, k) = choose|decoded: Seq<Seq<u8>>, k: nat| #[trigger]
                cell_fails_after(filter, file, records, decoded, k, chunk_dims, ranges, e);
            let origin = cell_origin(ranges, chunk_dims, k as int);
            let at = last_at(records, origin)->0;
            lemma_last_at_bounds(records, origin);
            assert(decodes_to(filter, file, records[at], whole[at]));
            assert(decoding_fails(filter, file, records[at], e));
            (whole, decoded)
        },
    }
}

/// Reading a part of a dataset reads the same as reading the whole: if the whole can be
/// read, every part can, and the element for a position is the element that the whole has
/// there. The index lists at most one chunk for each cell of the grid; chunks may be
/// missing or short. Decoding is a function.
pub proof fn law_slice_read_is_part_of_whole_read(
    file: Seq<u8>,
    layout: LayoutModel,
    dims: Seq<u64>,
    elem_size: usize,
    ranges: Seq<std::ops::Range<u64>>,
    filter: Filtering,
    before: Map<(u64, usize), Seq<RecordModel>>,
    after: Map<(u64, usize), Seq<RecordModel>>,
    full: Vec<u8>,
    part_before: Map<(u64, usize), Seq<RecordModel>>,
    part_after: Map<(u64, usize), Seq<RecordModel>>,
    part: Result<Vec<u8>, OxiH5Error>,
)
    requires
        functional(filter),
        elem_size > 0,
        layout is Chunked,
        regular(file, layout, dims, elem_size, before),
        same_records(file, layout, dims, elem_size, before, part_before),
        ranges_fit(ranges, dims),
        whole_read(file, layout, dims, elem_size, filter, before, after, Ok(full)),
        slice_read(
            file,
            layout,
            dims,
            elem_size,
            ranges,
            Seq::empty(),
            filter,
            part_before,
            part_after,
            part,
        ),
    ensures
        part is Ok,
        part->Ok_0@.len() == product(lengths(ranges)) * elem_size,
        forall|c: Seq<int>, r: int|
            in_box(lengths(ranges), #[trigger] minus(c, starts(ranges))) && 0 <= r < elem_size
                && c.len() == dims.len() ==> part->Ok_0@[#[trigger] (rank(
                lengths(ranges),
                minus(c, starts(ranges)),
            ) * elem_size + r)] == full@[rank(ints64(dims), c) * elem_size + r],
{
    let es = elem_size as int;
    let want = lengths(ranges);
    lemma_chunk_shape_len(layout, dims.len());
    let (index, address, shape) = chunk_plan(layout, dims.len())->Ok_0;
    let records = cached_records(before, file, index, address, shape, elem_size)->Ok_0;
    let chunk_dims = ints64(shape);
    let all = ints64(dims);
    assert forall|d: int| 0 <= d < ranges.len() implies (#[trigger] ranges[d]).start
        <= ranges[d].end by {}
    assert forall|d: int| 0 <= d < want.len() implies 0 <= #[trigger] want[d] by {
        assert(ranges[d].start <= ranges[d].end);
    }
    lemma_product_non_negative(want);
    if product(want) == 0 {
        assert(0 * es == 0);
        assert forall|c: Seq<int>| in_box(want, #[trigger] minus(c, starts(ranges))) implies
            false by {
            crate::dims::law_rank_then_unrank(want, minus(c, starts(ranges)));
        }
    } else {
        let (whole, decoded) = lemma_slice_outcome(
            filter,
            file,
            records,
            chunk_dims,
            all,
            ranges,
            es,
            full,
            part,
        );
        let cells = product(cell_counts(ranges, chunk_dims)) as nat;
        lemma_sliced_len(records, decoded, cells, chunk_dims, ranges, es, Seq::empty());
        assert(product(want) * es >= 0) by (nonlinear_arith)
            requires
                product(want) >= 0,
                es > 0,
        ;
        assert forall|d: int| 0 <= d < chunk_dims.len() implies 0 < #[trigger] chunk_dims[d] by {
            assert(0 < shape[d]);
        }
        assert forall|c: Seq<int>, r: int|
            in_box(want, #[trigger] minus(c, starts(ranges))) && 0 <= r < elem_size && c.len()
                == dims.len() implies part->Ok_0@[#[trigger] (rank(
            want,
            minus(c, starts(ranges)),
        ) * elem_size + r)] == full@[rank(all, c) * elem_size + r] by {
            let o = minus(c, starts(ranges));
            assert forall|d: int| 0 <= d < all.len() implies 0 <= #[trigger] c[d] < all[d] by {
                assert(0 <= o[d] < want[d]);
                assert(ranges[d].end <= dims[d]);
            }
            law_slice_is_part_of_whole(
                records,
                whole,
                decoded,
                chunk_dims,
                all,
                ranges,
                es,
                c,
                r,
            );
        }
    }
}

/// Assembling gives one outcome where decoding does.
proof fn lemma_whole_outcome_once(
    filter: Filtering,
    file: Seq<u8>,
    records: Seq<RecordModel>,
    chunk_dims: Seq<int>,
    dims: Seq<int>,
    es: int,
    a: Result<Vec<u8>, OxiH5Error>,
    b: Result<Vec<u8>, OxiH5Error>,
)
    requires
        functional(filter),
        whole_outcome(filter, file, records, chunk_dims, dims, es, a),
        whole_outcome(filter, file, records, chunk_dims, dims, es, b),
    ensures
        outcome(a) == outcome(b),
{
    if chunk_dims.len() == dims.len() && es != 0 {
        let n = records.len();
        let (x, i) = lemma_decoded(filter, file, records, chunk_dims, dims, es, a);
        let (y, j) = lemma_decoded(filter, file, records, chunk_dims, dims, es, b);
        let least = if i <= j {
            i
        } else {
            j
        };
        assert forall|k: int| 0 <= k < least implies x[k] == y[k] by {
            assert(decodes_to(filter, file, records[k], x[k]));
            assert(decodes_to(filter, file, records[k], y[k]));
        }
        if i < j {
            assert(decodes_to(filter, file, records[i as int], y[i as int]));
        } else if j < i {
            assert(decodes_to(filter, file, records[j as int], x[j as int]));
        } else {
            assert(x =~= y);
        }
    }
}

/// How far decoding went: over all chunks, or up to one that fails.
proof fn lemma_decoded(
    filter: Filtering,
    file: Seq<u8>,
    records: Seq<RecordModel>,
    chunk_dims: Seq<int>,
    dims: Seq<int>,
    es: int,
    r: Result<Vec<u8>, OxiH5Error>,
) -> (found: (Seq<Seq<u8>>, nat))
    requires
        chunk_dims.len() == dims.len(),
        es != 0,
        whole_outcome(filter, file, records, chunk_dims, dims, es, r),
    ensures
        all_decode(filter, file, records, found.0, found.1, dims.len()),
        match r {
            Ok(out) => found.1 == records.len() && out@ == assembled(
                records,
                found.0,
                records.len(),
                chunk_dims,
                dims,
                es,
            ),
            Err(e) => fails_after(filter, file, records, found.0, found.1, dims.len(), e),
        },
{
    match r {
        Ok(out) => {
            let decoded = choose|decoded: Seq<Seq<u8>>|
                #[trigger] all_decode(filter, file, records, decoded, records.len(), dims.len())
                    && out@ == assembled(records, decoded, records.len(), chunk_dims, dims, es);
            (decoded, records.len())
        },
        Err(e) => {
            choose|decoded: Seq<Seq<u8>>, k: nat| #[trigger]
                fails_after(filter, file, records, decoded, k, dims.len(), e)
        },
    }
}

/// A cache changes no result: with two caches that give the same records, a dataset reads
/// the same. Decoding is a function.
pub proof fn law_caches_read_the_same(
    file: Seq<u8>,
    layout: LayoutModel,
    dims: Seq<u64>,
    elem_size: usize,
    filter: Filtering,
    before: Map<(u64, usize), Seq<RecordModel>>,
    after: Map<(u64, usize), Seq<RecordModel>>,
    a: Result<Vec<u8>, OxiH5Error>,
    other_before: Map<(u64, usize), Seq<RecordModel>>,
    other_after: Map<(u64, usize), Seq<RecordModel>>,
    b: Result<Vec<u8>, OxiH5Error>,
)
    requires
        functional(filter),
        same_records(file, layout, dims, elem_size, before, other_before),
        whole_read(file, layout, dims, elem_size, filter, before, after, a),
        whole_read(file, layout, dims, elem_size, filter, other_before, other_after, b),
    ensures
        outcome(a) == outcome(b),
{
    if let Ok((index, address, shape)) = chunk_plan(layout, dims.len()) {
        if let Ok(records) = cached_records(before, file, index, address, shape, elem_size) {
            lemma_whole_outcome_once(
                filter,
                file,
                records,
                ints64(shape),
                ints64(dims),
                elem_size as int,
                a,
                b,
            );
        }
    }
}

/// A second read with the same cache gives what the first gave, and leaves the cache as it
/// is. Decoding is a function.
pub proof fn law_second_read_is_the_same(
    file: Seq<u8>,
    layout: LayoutModel,
    dims: Seq<u64>,
    elem_size: usize,
    filter: Filtering,
    before: Map<(u64, usize), Seq<RecordModel>>,
    between: Map<(u64, usize), Seq<RecordModel>>,
    after: Map<(u64, usize), Seq<RecordModel>>,
    a: Result<Vec<u8>, OxiH5Error>,
    b: Result<Vec<u8>, OxiH5Error>,
)
    requires
        functional(filter),
        whole_read(file, layout, dims, elem_size, filter, before, between, a),
        whole_read(file, layout, dims, elem_size, filter, between, after, b),
    ensures
        outcome(a) == outcome(b),
        after == between,
{
    assert(same_records(file, layout, dims, elem_size, before, between));
    law_caches_read_the_same(
        file,
        layout,
        dims,
        elem_size,
        filter,
        before,
        between,
        a,
        between,
        after,
        b,
    );
}

/// A dataset that is read has as many bytes as its extents and the size of its elements
/// say.
pub proof fn law_whole_read_len(
    file: Seq<u8>,
    layout: LayoutModel,
    dims: Seq<u64>,
    elem_size: usize,
    filter: Filtering,
    before: Map<(u64, usize), Seq<RecordModel>>,
    after: Map<(u64, usize), Seq<RecordModel>>,
    out: Vec<u8>,
)
    requires
        whole_read(file, layout, dims, elem_size, filter, before, after, Ok(out)),
    ensures
        out@.len() == product(ints64(dims)) * elem_size,
{
    let (index, address, shape) = chunk_plan(layout, dims.len())->Ok_0;
    let records = cached_records(before, file, index, address, shape, elem_size)->Ok_0;
    let (decoded, n) = lemma_decoded(
        filter,
        file,
        records,
        ints64(shape),
        ints64(dims),
        elem_size as int,
        Ok(out),
    );
    lemma_assembled_len(records, decoded, n, ints64(shape), ints64(dims), elem_size as int);
    let total = product(ints64(dims));
    lemma_product_non_negative(ints64(dims));
    assert(total * elem_size >= 0) by (nonlinear_arith)
        requires
            total >= 0,
            elem_size >= 0,
    ;
}

} // verus!
