//! Parts of datasets: what ranges read is what the whole holds there.

use vstd::prelude::*;
use crate::chunk_reader::{filtering_through, ranges_fit, slice_read};
use crate::chunk_record::RecordModel;
use crate::chunked::{
    assembled, can_slice, cell_counts, cell_fails_after, cell_origin, cells_decode, decodes_to,
    decoding_fails, last_at, law_slice_is_part_of_whole, lemma_assembled_len, lemma_byte,
    lemma_last_at_bounds, lemma_sliced_len, lengths, minus, plus, same_chunks, sliced, starts,
    stored_bytes, tiled, Filtering,
};
use crate::chunked_hyperslab::{bounds_of, box_of, from_start, selection_read, taken};
use crate::dataset::{
    cut_bytes, range_lengths, range_starts, range_within, ranges_within, Dataset, DatasetModel,
};
use crate::dataset_reader::{
    carried, chunk_element_size, cut_of, dataset_read, dataset_selection_read,
    dataset_slice_read, holds_filters, part_with, read_by_chunks,
    selection_of, selection_shape, wide_ranges,
};
use crate::dims::{
    ints, ints64, law_rank_then_unrank, law_unrank_then_rank, lemma_product_non_negative, product,
    rank, strides_fit, unrank,
};
use crate::error::{outcome, ErrorKind, OxiH5Error};
use crate::file::{
    dataset_at_path_read, dataset_header, selection_at_path_read, slice_at_path_read,
};
use crate::hyperslab::{
    can_gather, gathered, lemma_position_bounds, saturated, selected_end, selected_shape,
    selected_source, selects_within, DimSelection,
};
use crate::object::FilterPipeline;
use crate::roundtrip::chunks::{law_tiles_are_the_dataset, lemma_tiled, tiles};
use crate::roundtrip::datasets::{
    cache_agrees, holds_chunks, law_contiguous_dataset_reads_back, law_path_leads_to_dataset,
    leads_to_dataset, lemma_can_read, lemma_chunk_index, lemma_dataset_there, lemma_shape_back,
    lemma_undoes, lemma_written_storable, undoes, undoes_filters,
};
use crate::roundtrip::file::{lemma_dataset_parts, read_dataset_model, readable};
use crate::roundtrip::held::held;
use crate::roundtrip::messages::words_of;
use crate::roundtrip::objects::read_parts;
use crate::roundtrip::placed::attrs_nul_free;
use crate::write::elem::byte_size_of;
use crate::write::emit::{dataset_image, file_addresses, file_image, groups_end};
use crate::write::layout::{data_place, dataset_place, in_chunks, index_place};
use crate::write::messages::nats;
use crate::write::tiles::{chunk_extents, chunk_records, lemma_counts, stored_chunk};
use crate::write::tree::{DatasetDesc, GroupModel};

verus! {

proof fn lemma_within(p: int, n: int, es: int)
    requires
        0 <= p < n,
        es > 0,
    ensures
        0 <= p * es,
        (p + 1) * es <= n * es,
        (p + 1) * es == p * es + es,
{
    assert(0 <= p * es && (p + 1) * es <= n * es && (p + 1) * es == p * es + es)
        by (nonlinear_arith)
        requires
            0 <= p < n,
            es > 0,
    ;
}

/// Reading ranges chunk by chunk gives what cutting the ranges out of the whole gives,
/// where the chunks lie on a grid.
pub proof fn law_sliced_is_cut(
    records: Seq<RecordModel>,
    whole: Seq<Seq<u8>>,
    decoded: Seq<Seq<u8>>,
    chunk_dims: Seq<int>,
    dims: Seq<int>,
    ranges: Seq<std::ops::Range<usize>>,
    es: int,
)
    requires
        es > 0,
        chunk_dims.len() == dims.len(),
        forall|d: int| 0 <= d < chunk_dims.len() ==> 0 < #[trigger] chunk_dims[d],
        ranges_within(ranges, dims),
        tiled(records, whole, chunk_dims, es),
        same_chunks(records, whole, decoded, chunk_dims, wide_ranges(ranges)),
    ensures
        sliced(
            records,
            decoded,
            product(cell_counts(wide_ranges(ranges), chunk_dims)) as nat,
            chunk_dims,
            wide_ranges(ranges),
            es,
            Seq::empty(),
        ) == cut_bytes(
            assembled(records, whole, records.len(), chunk_dims, dims, es),
            dims,
            ranges,
            es as nat,
        ),
{
    let wide = wide_ranges(ranges);
    let want = range_lengths(ranges);
    let cells = product(cell_counts(wide, chunk_dims)) as nat;
    let all = assembled(records, whole, records.len(), chunk_dims, dims, es);
    let part = sliced(records, decoded, cells, chunk_dims, wide, es, Seq::empty());
    let goal = cut_bytes(all, dims, ranges, es as nat);
    assert(lengths(wide) =~= want);
    assert(starts(wide) =~= range_starts(ranges));
    assert forall|d: int| 0 <= d < want.len() implies 0 <= #[trigger] want[d] by {
        assert(range_within(ranges[d], dims[d]));
    }
    assert forall|d: int| 0 <= d < wide.len() implies (#[trigger] wide[d]).start
        <= wide[d].end by {
        assert(range_within(ranges[d], dims[d]));
    }
    lemma_sliced_len(records, decoded, cells, chunk_dims, wide, es, Seq::empty());
    lemma_assembled_len(records, whole, records.len(), chunk_dims, dims, es);
    lemma_product_non_negative(want);
    assert(product(want) * es >= 0) by (nonlinear_arith)
        requires
            product(want) >= 0,
            es > 0,
    ;
    assert forall|b: int| 0 <= b < part.len() implies #[trigger] part[b] == goal[b] by {
        lemma_byte(b, es);
        let e = b / es;
        assert(0 <= e < product(want)) by (nonlinear_arith)
            requires
                e == b / es,
                e * es <= b,
                0 <= b < product(want) * es,
                es > 0,
        ;
        law_unrank_then_rank(want, e);
        let u = unrank(want, e);
        let c = plus(u, range_starts(ranges));
        assert(minus(c, starts(wide)) =~= u);
        assert forall|d: int| 0 <= d < dims.len() implies 0 <= #[trigger] c[d] < dims[d] by {
            assert(range_within(ranges[d], dims[d]));
            assert(0 <= u[d] < want[d]);
        }
        law_rank_then_unrank(dims, c);
        lemma_within(rank(dims, c), product(dims), es);
        law_slice_is_part_of_whole(
            records,
            whole,
            decoded,
            chunk_dims,
            dims,
            wide,
            es,
            c,
            b % es,
        );
    }
    assert(part =~= goal);
}

/// What reading all of a written dataset in one run of bytes gives.
proof fn lemma_contiguous_whole<
    P: Fn(&[u8], &FilterPipeline, u32, usize) -> Result<Vec<u8>, OxiH5Error>,
>(
    root: GroupModel,
    file: Seq<u8>,
    path: Seq<char>,
    m: GroupModel,
    at: nat,
    i: int,
    addr: u64,
    apply_pipeline: P,
    before: Map<(u64, usize), Seq<RecordModel>>,
    after: Map<(u64, usize), Seq<RecordModel>>,
    r: Result<Dataset, OxiH5Error>,
)
    requires
        readable(root),
        file_image(root) == Ok::<Seq<u8>, ErrorKind>(file),
        file.len() <= usize::MAX,
        leads_to_dataset(root, path, m, at, i),
        m.datasets[i].storage is Contiguous,
        m.datasets[i].vlen_strings is None,
        dataset_header(file, path) == Ok::<u64, ErrorKind>(addr),
        dataset_read(file, addr, apply_pipeline, before, after, r),
    ensures
        outcome(r) == Ok::<DatasetModel, ErrorKind>(
            read_dataset_model(m.datasets[i], file_addresses(root)),
        ),
        after == before,
{
    law_path_leads_to_dataset(root, file, path, m, at, i);
    assert(dataset_at_path_read(file, path, apply_pipeline, before, after, r));
    law_contiguous_dataset_reads_back(
        root,
        file,
        path,
        m,
        at,
        i,
        apply_pipeline,
        before,
        after,
        r,
    );
}

/// Ranges of a written dataset in one run of bytes read back, by its path in the
/// written file, as what they cut out of it.
pub proof fn law_contiguous_slice_reads_back<
    P: Fn(&[u8], &FilterPipeline, u32, usize) -> Result<Vec<u8>, OxiH5Error>,
>(
    root: GroupModel,
    file: Seq<u8>,
    path: Seq<char>,
    m: GroupModel,
    at: nat,
    i: int,
    ranges: Seq<std::ops::Range<usize>>,
    apply_pipeline: P,
    before: Map<(u64, usize), Seq<RecordModel>>,
    after: Map<(u64, usize), Seq<RecordModel>>,
    r: Result<Dataset, OxiH5Error>,
)
    requires
        readable(root),
        file_image(root) == Ok::<Seq<u8>, ErrorKind>(file),
        file.len() <= usize::MAX,
        leads_to_dataset(root, path, m, at, i),
        m.datasets[i].storage is Contiguous,
        m.datasets[i].vlen_strings is None,
        slice_at_path_read(file, path, ranges, apply_pipeline, before, after, r),
    ensures
        outcome(r) == cut_of(read_dataset_model(m.datasets[i], file_addresses(root)), ranges),
        after == before,
{
    let seen = lemma_dataset_there(root, file, path, m, at, i);
    let ds = m.datasets[i];
    let place = dataset_place(m, at, i);
    let addr = place as u64;
    lemma_dataset_parts(file, ds, place, file_addresses(root), groups_end(root), seen);
    let whole = choose|whole: Result<Dataset, OxiH5Error>|
        {
            &&& #[trigger] dataset_read(file, addr, apply_pipeline, before, after, whole)
            &&& match whole {
                Err(e) => r == Err::<Dataset, OxiH5Error>(e),
                Ok(ds) => outcome(r) == cut_of(ds@, ranges),
            }
        };
    lemma_contiguous_whole(
        root,
        file,
        path,
        m,
        at,
        i,
        addr,
        apply_pipeline,
        before,
        after,
        whole,
    );
}

/// A selection of a written dataset in one run of bytes reads back, by its path in the
/// written file, as the selection of what was written.
pub proof fn law_contiguous_selection_reads_back<
    P: Fn(&[u8], &FilterPipeline, u32, usize) -> Result<Vec<u8>, OxiH5Error>,
>(
    root: GroupModel,
    file: Seq<u8>,
    path: Seq<char>,
    m: GroupModel,
    at: nat,
    i: int,
    selection: Seq<DimSelection>,
    apply_pipeline: P,
    before: Map<(u64, usize), Seq<RecordModel>>,
    after: Map<(u64, usize), Seq<RecordModel>>,
    r: Result<Dataset, OxiH5Error>,
)
    requires
        readable(root),
        file_image(root) == Ok::<Seq<u8>, ErrorKind>(file),
        file.len() <= usize::MAX,
        leads_to_dataset(root, path, m, at, i),
        m.datasets[i].storage is Contiguous,
        m.datasets[i].vlen_strings is None,
        selection_at_path_read(file, path, selection, apply_pipeline, before, after, r),
    ensures
        outcome(r) == selection_of(
            read_dataset_model(m.datasets[i], file_addresses(root)),
            selection,
        ),
        after == before,
{
    let seen = lemma_dataset_there(root, file, path, m, at, i);
    let ds = m.datasets[i];
    let place = dataset_place(m, at, i);
    let addr = place as u64;
    lemma_dataset_parts(file, ds, place, file_addresses(root), groups_end(root), seen);
    let whole = choose|whole: Result<Dataset, OxiH5Error>|
        {
            &&& #[trigger] dataset_read(file, addr, apply_pipeline, before, after, whole)
            &&& match whole {
                Err(e) => r == Err::<Dataset, OxiH5Error>(e),
                Ok(ds) => outcome(r) == selection_of(ds@, selection),
            }
        };
    lemma_contiguous_whole(
        root,
        file,
        path,
        m,
        at,
        i,
        addr,
        apply_pipeline,
        before,
        after,
        whole,
    );
}

/// What reading ranges of the chunks of a written dataset gives.
proof fn lemma_chunk_slice_read(
    file: Seq<u8>,
    ds: DatasetDesc,
    place: nat,
    ranges: Seq<std::ops::Range<usize>>,
    filter: Filtering,
    before: Map<(u64, usize), Seq<RecordModel>>,
    after: Map<(u64, usize), Seq<RecordModel>>,
    es: usize,
    data: Seq<u8>,
    r: Result<Vec<u8>, OxiH5Error>,
)
    requires
        file.len() <= usize::MAX,
        holds_chunks(file, ds, place, data),
        es == byte_size_of(ds.elem_type),
        ranges_within(ranges, ints(ds.shape@)),
        cache_agrees(before, ds, place),
        undoes(filter, ds, data),
        slice_read(
            file,
            read_parts(ds, data_place(ds, place), index_place(ds, place)).layout,
            words_of(nats(ds.shape@)),
            es,
            wide_ranges(ranges),
            Seq::empty(),
            filter,
            before,
            after,
            r,
        ),
    ensures
        r is Ok,
        r->Ok_0@ == cut_bytes(data, ints(ds.shape@), ranges, es as nat),
        cache_agrees(after, ds, place),
{
    lemma_chunk_index(file, ds, place, before, es, data);
    lemma_shape_back(ds.shape@);
    let records = chunk_records(ds, data_place(ds, place));
    let dims = words_of(nats(ds.shape@));
    let all = ints(ds.shape@);
    let chunk = chunk_extents(ds);
    let wide = wide_ranges(ranges);
    let whole = tiles(ds, data);
    assert(lengths(wide) =~= range_lengths(ranges));
    assert(ranges_fit(wide, dims)) by {
        assert forall|d: int| 0 <= d < dims.len() implies (#[trigger] wide[d]).start
            <= wide[d].end && wide[d].end <= dims[d] by {
            assert(range_within(ranges[d], all[d]));
            assert(ints64(dims)[d] == all[d]);
        }
    }
    let cells = product(cell_counts(wide, chunk)) as nat;
    if product(lengths(wide)) == 0 {
        assert(r->Ok_0@ =~= cut_bytes(data, all, ranges, es as nat));
    } else {
        match r {
            Ok(out) => {
                let decoded = choose|decoded: Seq<Seq<u8>>|
                    {
                        &&& #[trigger] cells_decode(
                            filter,
                            file,
                            records,
                            decoded,
                            cells,
                            chunk,
                            wide,
                        )
                        &&& out@ == sliced(
                            records,
                            decoded,
                            cells,
                            chunk,
                            wide,
                            es as int,
                            Seq::empty(),
                        )
                    };
                law_tiles_are_the_dataset(ds, data, records);
                lemma_tiled(ds, data, records);
                lemma_counts(ds);
                assert(same_chunks(records, whole, decoded, chunk, wide)) by {
                    assert forall|q: int|
                        0 <= q < product(cell_counts(wide, chunk)) && last_at(
                            records,
                            #[trigger] cell_origin(wide, chunk, q),
                        ) is Some implies decoded[q] == whole[last_at(
                        records,
                        cell_origin(wide, chunk, q),
                    )->0] by {
                        lemma_last_at_bounds(records, cell_origin(wide, chunk, q));
                        let k = last_at(records, cell_origin(wide, chunk, q))->0;
                        assert(decodes_to(filter, file, records[k], decoded[q]));
                        assert(stored_bytes(file, records[k]) is Ok);
                        assert(filter(
                            stored_chunk(ds, data, k)->Ok_0,
                            0,
                            Ok::<Seq<u8>, OxiH5Error>(decoded[q]),
                        ));
                    }
                }
                law_sliced_is_cut(records, whole, decoded, chunk, all, ranges, es as int);
            },
            Err(e) => {
                let (decoded, k) = choose|decoded: Seq<Seq<u8>>, k: nat| #[trigger]
                    cell_fails_after(filter, file, records, decoded, k, chunk, wide, e);
                let origin = cell_origin(wide, chunk, k as int);
                lemma_last_at_bounds(records, origin);
                let at = last_at(records, origin)->0;
                assert(decoding_fails(filter, file, records[at], e));
                assert(stored_bytes(file, records[at]) is Ok);
                assert(filter(
                    stored_chunk(ds, data, at)->Ok_0,
                    0,
                    Err::<Seq<u8>, OxiH5Error>(e),
                ));
            },
        }
    }
}

/// Ranges within extents hold no more positions than there are.
proof fn lemma_product_within(want: Seq<int>, dims: Seq<int>)
    requires
        want.len() == dims.len(),
        forall|d: int| 0 <= d < dims.len() ==> 0 <= #[trigger] want[d] <= dims[d],
    ensures
        0 <= product(want) <= product(dims),
    decreases dims.len(),
{
    if dims.len() > 0 {
        let a = want.drop_last();
        let b = dims.drop_last();
        assert forall|d: int| 0 <= d < b.len() implies 0 <= #[trigger] a[d] <= b[d] by {
            assert(want[d] == a[d] && dims[d] == b[d]);
        }
        lemma_product_within(a, b);
        let last = want[dims.len() - 1];
        assert(0 <= last <= dims.last());
        assert(0 <= product(a) * last <= product(b) * dims.last()) by (nonlinear_arith)
            requires
                0 <= product(a) <= product(b),
                0 <= last <= dims.last(),
        ;
    }
}

/// Ranges of a dataset whose size is a machine number can be read.
proof fn lemma_can_read_slice(
    chunk: Seq<int>,
    dims: Seq<int>,
    ranges: Seq<std::ops::Range<usize>>,
    es: int,
)
    requires
        es > 0,
        chunk.len() == dims.len(),
        forall|d: int| 0 <= d < chunk.len() ==> 0 < #[trigger] chunk[d],
        product(chunk) <= usize::MAX,
        product(dims) * es <= usize::MAX,
        ranges_within(ranges, dims),
    ensures
        can_slice(chunk, wide_ranges(ranges), es),
{
    let wide = wide_ranges(ranges);
    let want = lengths(wide);
    assert forall|d: int| 0 <= d < dims.len() implies 0 <= #[trigger] want[d] <= dims[d] by {
        assert(range_within(ranges[d], dims[d]));
    }
    assert forall|d: int| 0 <= d < wide.len() implies (#[trigger] wide[d]).start
        <= wide[d].end by {
        assert(range_within(ranges[d], dims[d]));
    }
    lemma_product_within(want, dims);
    let a = product(want);
    let b = product(dims);
    assert(a * es <= b * es && b <= b * es) by (nonlinear_arith)
        requires
            0 <= a <= b,
            es >= 1,
    ;
}

/// Ranges of a chunked dataset at its place in a file.
proof fn lemma_chunked_slice_at<P: Fn(&[u8], &FilterPipeline, u32, usize) -> Result<Vec<u8>, OxiH5Error>>(
    file: Seq<u8>,
    ds: DatasetDesc,
    place: nat,
    map: Map<Seq<char>, u64>,
    gcol: nat,
    seen: nat,
    ranges: Seq<std::ops::Range<usize>>,
    apply_pipeline: P,
    before: Map<(u64, usize), Seq<RecordModel>>,
    after: Map<(u64, usize), Seq<RecordModel>>,
    r: Result<Dataset, OxiH5Error>,
)
    requires
        file.len() <= usize::MAX,
        attrs_nul_free(ds.attrs@),
        dataset_image(ds, place, map, gcol, seen) is Ok,
        held(file, place as int, dataset_image(ds, place, map, gcol, seen)->Ok_0),
        in_chunks(ds),
        ds.vlen_strings is None,
        ds.filter is Some ==> undoes_filters(apply_pipeline),
        strides_fit(ints(ds.shape@)),
        ranges_within(ranges, ints(ds.shape@)),
        cache_agrees(before, ds, place),
        dataset_slice_read(file, place as u64, ranges, apply_pipeline, before, after, r),
    ensures
        outcome(r) == Ok::<DatasetModel, ErrorKind>(
            DatasetModel {
                data: cut_bytes(ds.raw@, ints(ds.shape@), ranges, byte_size_of(ds.elem_type)),
                shape: range_lengths(ranges),
                ..read_dataset_model(ds, map)
            },
        ),
        cache_agrees(after, ds, place),
{
    let addr = place as u64;
    lemma_dataset_parts(file, ds, place, map, gcol, seen);
    lemma_shape_back(ds.shape@);
    let parts = read_parts(ds, data_place(ds, place), index_place(ds, place));
    let es = byte_size_of(ds.elem_type) as usize;
    assert(chunk_element_size(parts.dtype) == Ok::<usize, ErrorKind>(es));
    assert(holds_chunks(file, ds, place, ds.raw@));
    lemma_chunk_index(file, ds, place, before, es, ds.raw@);
    let wide = wide_ranges(ranges);
    let dims = words_of(nats(ds.shape@));
    let all = ints(ds.shape@);
    assert(read_by_chunks(parts, wide)) by {
        assert forall|d: int| 0 <= d < wide.len() implies (#[trigger] wide[d]).end
            <= dims[d] by {
            assert(range_within(ranges[d], all[d]));
            assert(ints64(dims)[d] == all[d]);
        }
    }
    lemma_can_read(file, ds, place, es);
    lemma_can_read_slice(chunk_extents(ds), all, ranges, es as int);
    let (pipeline, elements) = choose|pipeline: FilterPipeline, elements: Result<
        Vec<u8>,
        OxiH5Error,
    >|
        {
            &&& holds_filters(pipeline, parts.filters)
            &&& #[trigger] slice_read(
                file,
                parts.layout,
                parts.extent.dims,
                es,
                wide,
                Seq::empty(),
                filtering_through(apply_pipeline, pipeline, es),
                before,
                after,
                elements,
            )
            &&& carried(
                r,
                elements,
                |data: Seq<u8>| part_with(file, addr, parts, range_lengths(ranges), data),
            )
        };
    lemma_undoes(apply_pipeline, pipeline, es, ds, ds.raw@);
    lemma_chunk_slice_read(
        file,
        ds,
        place,
        ranges,
        filtering_through(apply_pipeline, pipeline, es),
        before,
        after,
        es,
        ds.raw@,
        elements,
    );
}

/// Ranges of a written dataset in chunks read back, by its path in the written file, as
/// what they cut out of it: the elements in the ranges, with the lengths of the ranges as
/// the shape. A decoder must undo filters as this library does, if the dataset has one;
/// the strides of the dataset must be machine numbers, as they are where no extent is
/// zero; and the cache must hold no other index for it.
pub proof fn law_chunked_slice_reads_back<
    P: Fn(&[u8], &FilterPipeline, u32, usize) -> Result<Vec<u8>, OxiH5Error>,
>(
    root: GroupModel,
    file: Seq<u8>,
    path: Seq<char>,
    m: GroupModel,
    at: nat,
    i: int,
    ranges: Seq<std::ops::Range<usize>>,
    apply_pipeline: P,
    before: Map<(u64, usize), Seq<RecordModel>>,
    after: Map<(u64, usize), Seq<RecordModel>>,
    r: Result<Dataset, OxiH5Error>,
)
    requires
        readable(root),
        file_image(root) == Ok::<Seq<u8>, ErrorKind>(file),
        file.len() <= usize::MAX,
        leads_to_dataset(root, path, m, at, i),
        m.datasets[i].storage is Chunked,
        m.datasets[i].vlen_strings is None,
        m.datasets[i].filter is Some ==> undoes_filters(apply_pipeline),
        strides_fit(ints(m.datasets[i].shape@)),
        ranges_within(ranges, ints(m.datasets[i].shape@)),
        cache_agrees(before, m.datasets[i], dataset_place(m, at, i)),
        slice_at_path_read(file, path, ranges, apply_pipeline, before, after, r),
    ensures
        outcome(r) == Ok::<DatasetModel, ErrorKind>(
            DatasetModel {
                data: cut_bytes(
                    m.datasets[i].raw@,
                    ints(m.datasets[i].shape@),
                    ranges,
                    byte_size_of(m.datasets[i].elem_type),
                ),
                shape: range_lengths(ranges),
                ..read_dataset_model(m.datasets[i], file_addresses(root))
            },
        ),
        cache_agrees(after, m.datasets[i], dataset_place(m, at, i)),
{
    let seen = lemma_dataset_there(root, file, path, m, at, i);
    lemma_written_storable(root, path, m, at, i);
    lemma_chunked_slice_at(
        file,
        m.datasets[i],
        dataset_place(m, at, i),
        file_addresses(root),
        groups_end(root),
        seen,
        ranges,
        apply_pipeline,
        before,
        after,
        r,
    );
}

/// A selection through the box around it: what is selected out of the box is what is
/// selected out of the whole.
pub proof fn law_selection_through_box(
    data: Seq<u8>,
    extents: Seq<int>,
    selection: Seq<DimSelection>,
    ranges: Seq<std::ops::Range<usize>>,
    es: nat,
)
    requires
        es > 0,
        selects_within(selection, extents),
        forall|d: int| 0 <= d < extents.len() ==> #[trigger] extents[d] <= usize::MAX,
        wide_ranges(ranges) == bounds_of(selection),
        ranges_within(ranges, extents),
        product(extents) * es <= data.len(),
    ensures
        gathered(
            cut_bytes(data, extents, ranges, es),
            box_of(selection),
            from_start(selection),
            es,
        ) == gathered(data, extents, selection, es),
{
    let shape = selected_shape(selection);
    let inner = from_start(selection);
    let room = box_of(selection);
    let part = cut_bytes(data, extents, ranges, es);
    let e = es as int;
    let got = gathered(part, room, inner, es);
    let goal = gathered(data, extents, selection, es);
    assert(selected_shape(inner) =~= shape);
    assert forall|d: int| 0 <= d < ranges.len() implies (#[trigger] ranges[d]).start
        == selection[d].start && ranges[d].end == selected_end(selection[d]) by {
        let a = wide_ranges(ranges)[d];
        let b = bounds_of(selection)[d];
        assert(a.start == ranges[d].start as u64 && a.end == ranges[d].end as u64);
        assert(b.start == selection[d].start && b.end == saturated(selected_end(selection[d])));
        assert(range_within(ranges[d], extents[d]));
        assert(selected_end(selection[d]) <= extents[d]);
        lemma_extent_is_word(ranges[d], selection[d]);
    }
    assert(range_lengths(ranges) =~= room);
    assert forall|d: int| 0 <= d < shape.len() implies 0 <= #[trigger] shape[d] by {
        let s = selection[d];
        assert(0 <= s.count * s.block) by (nonlinear_arith)
            requires
                s.count >= 0,
                s.block >= 0,
        ;
    }
    lemma_product_non_negative(shape);
    assert(product(shape) * e >= 0) by (nonlinear_arith)
        requires
            product(shape) >= 0,
            e > 0,
    ;
    assert forall|b: int| 0 <= b < goal.len() implies #[trigger] got[b] == goal[b] by {
        lemma_byte(b, e);
        let k = b / e;
        let r = b % e;
        assert(0 <= k < product(shape)) by (nonlinear_arith)
            requires
                k == b / e,
                k * e <= b,
                0 <= b < product(shape) * e,
                e > 0,
        ;
        law_unrank_then_rank(shape, k);
        let u = unrank(shape, k);
        let from = selected_source(selection, u);
        let local = selected_source(inner, u);
        assert forall|d: int| 0 <= d < selection.len() implies 0 <= #[trigger] local[d] < room[d]
            && from[d] == local[d] + selection[d].start && 0 <= from[d] < extents[d] by {
            assert(0 <= u[d] < shape[d]);
            lemma_position_bounds(selection[d], u[d]);
            assert(ranges[d].end == selected_end(selection[d]));
            assert(room[d] == range_lengths(ranges)[d]);
            assert(selected_end(selection[d]) <= extents[d]);
        }
        assert forall|d: int| 0 <= d < extents.len() implies 0 <= #[trigger] from[d]
            < extents[d] by {
            assert(0 <= local[d] < room[d]);
        }
        law_rank_then_unrank(room, local);
        law_rank_then_unrank(extents, from);
        let q = rank(room, local);
        let p = rank(extents, from);
        lemma_within(q, product(room), e);
        lemma_within(p, product(extents), e);
        lemma_split(q, r, e);
        assert(plus(local, range_starts(ranges)) =~= from);
        assert(part[q * e + r] == data[p * e + r]);
    }
    assert(got =~= goal);
}

proof fn lemma_extent_is_word(range: std::ops::Range<usize>, s: DimSelection)
    requires
        range.start as u64 == s.start,
        range.end as u64 == saturated(selected_end(s)),
        selected_end(s) <= usize::MAX,
    ensures
        range.end == selected_end(s),
{
}

proof fn lemma_split(q: int, r: int, es: int)
    requires
        0 <= q,
        0 <= r < es,
    ensures
        (q * es + r) / es == q,
        (q * es + r) % es == r,
{
    vstd::arithmetic::div_mod::lemma_fundamental_div_mod_converse(q * es + r, es, q, r);
}

/// The ranges around a selection.
spec fn ranges_around(selection: Seq<DimSelection>) -> Seq<std::ops::Range<usize>> {
    Seq::new(
        selection.len(),
        |d: int|
            (std::ops::Range::<usize> {
                start: selection[d].start as usize,
                end: selected_end(selection[d]) as usize,
            }),
    )
}

proof fn lemma_ranges_around(selection: Seq<DimSelection>, extents: Seq<int>)
    requires
        selects_within(selection, extents),
        forall|d: int| 0 <= d < extents.len() ==> #[trigger] extents[d] <= usize::MAX,
    ensures
        wide_ranges(ranges_around(selection)) == bounds_of(selection),
        ranges_within(ranges_around(selection), extents),
        range_lengths(ranges_around(selection)) == box_of(selection),
{
    let ranges = ranges_around(selection);
    assert forall|d: int| 0 <= d < selection.len() implies selection[d].start <= selected_end(
        #[trigger] selection[d],
    ) <= extents[d] by {
        let s = selection[d];
        if s.count > 0 && s.block > 0 {
            let n = s.count - 1;
            assert(0 <= n * s.stride) by (nonlinear_arith)
                requires
                    n >= 0,
                    s.stride >= 0,
            ;
        }
    }
    assert forall|d: int| 0 <= d < extents.len() implies #[trigger] range_within(
        ranges[d],
        extents[d],
    ) by {
        assert(selection[d].start <= selected_end(selection[d]) <= extents[d]);
    }
    assert forall|d: int| 0 <= d < selection.len() implies #[trigger] wide_ranges(ranges)[d]
        == bounds_of(selection)[d] by {
        assert(selection[d].start <= selected_end(selection[d]) <= extents[d]);
    }
    assert(wide_ranges(ranges) =~= bounds_of(selection));
    assert forall|d: int| 0 <= d < selection.len() implies #[trigger] range_lengths(ranges)[d]
        == box_of(selection)[d] by {
        assert(selection[d].start <= selected_end(selection[d]) <= extents[d]);
    }
    assert(range_lengths(ranges) =~= box_of(selection));
}

/// The box around a selection holds what is selected.
proof fn lemma_box_holds(
    data: Seq<u8>,
    extents: Seq<int>,
    selection: Seq<DimSelection>,
    es: nat,
)
    requires
        es > 0,
        can_gather(data, extents, selection, es),
        forall|d: int| 0 <= d < extents.len() ==> #[trigger] extents[d] <= usize::MAX,
    ensures
        can_gather(
            cut_bytes(data, extents, ranges_around(selection), es),
            box_of(selection),
            from_start(selection),
            es,
        ),
{
    let ranges = ranges_around(selection);
    let room = box_of(selection);
    let inner = from_start(selection);
    lemma_ranges_around(selection, extents);
    assert(selected_shape(inner) =~= selected_shape(selection));
    assert forall|d: int| 0 <= d < room.len() implies 0 <= #[trigger] room[d] <= extents[d] by {
        assert(range_within(ranges[d], extents[d]));
        assert(range_lengths(ranges)[d] == room[d]);
    }
    lemma_product_within(room, extents);
    assert(product(room) * es >= 0) by (nonlinear_arith)
        requires
            product(room) >= 0,
            es > 0,
    ;
    assert forall|d: int| 0 <= d < inner.len() implies selected_end(#[trigger] inner[d])
        <= room[d] by {
        assert(range_within(ranges[d], extents[d]));
        assert(selected_end(selection[d]) <= extents[d]);
    }
}

/// What reading a selection of the chunks of a written dataset gives.
proof fn lemma_chunk_selection_read(
    file: Seq<u8>,
    ds: DatasetDesc,
    place: nat,
    selection: Seq<DimSelection>,
    filter: Filtering,
    before: Map<(u64, usize), Seq<RecordModel>>,
    after: Map<(u64, usize), Seq<RecordModel>>,
    es: usize,
    data: Seq<u8>,
    r: Result<Vec<u8>, OxiH5Error>,
)
    requires
        file.len() <= usize::MAX,
        holds_chunks(file, ds, place, data),
        es == byte_size_of(ds.elem_type),
        can_gather(data, ints(ds.shape@), selection, es as nat),
        cache_agrees(before, ds, place),
        undoes(filter, ds, data),
        selection_read(
            file,
            read_parts(ds, data_place(ds, place), index_place(ds, place)).layout,
            words_of(nats(ds.shape@)),
            es,
            selection,
            Seq::empty(),
            filter,
            before,
            after,
            r,
        ),
    ensures
        r is Ok,
        r->Ok_0@ == gathered(data, ints(ds.shape@), selection, es as nat),
        cache_agrees(after, ds, place),
{
    let all = ints(ds.shape@);
    let ranges = ranges_around(selection);
    let layout = read_parts(ds, data_place(ds, place), index_place(ds, place)).layout;
    lemma_ranges_around(selection, all);
    lemma_box_holds(data, all, selection, es as nat);
    let part = choose|part: Result<Vec<u8>, OxiH5Error>|
        {
            &&& #[trigger] slice_read(
                file,
                layout,
                words_of(nats(ds.shape@)),
                es,
                bounds_of(selection),
                Seq::empty(),
                filter,
                before,
                after,
                part,
            )
            &&& match part {
                Err(e) => r == Err::<Vec<u8>, OxiH5Error>(e),
                Ok(part) => outcome(r) == taken(part@, selection, es as nat),
            }
        };
    lemma_chunk_slice_read(file, ds, place, ranges, filter, before, after, es, data, part);
    law_selection_through_box(data, all, selection, ranges, es as nat);
}

/// A selection of a chunked dataset at its place in a file.
proof fn lemma_chunked_selection_at<P: Fn(&[u8], &FilterPipeline, u32, usize) -> Result<Vec<u8>, OxiH5Error>>(
    file: Seq<u8>,
    ds: DatasetDesc,
    place: nat,
    map: Map<Seq<char>, u64>,
    gcol: nat,
    seen: nat,
    selection: Seq<DimSelection>,
    apply_pipeline: P,
    before: Map<(u64, usize), Seq<RecordModel>>,
    after: Map<(u64, usize), Seq<RecordModel>>,
    r: Result<Dataset, OxiH5Error>,
)
    requires
        file.len() <= usize::MAX,
        attrs_nul_free(ds.attrs@),
        dataset_image(ds, place, map, gcol, seen) is Ok,
        held(file, place as int, dataset_image(ds, place, map, gcol, seen)->Ok_0),
        in_chunks(ds),
        ds.vlen_strings is None,
        ds.filter is Some ==> undoes_filters(apply_pipeline),
        strides_fit(ints(ds.shape@)),
        can_gather(ds.raw@, ints(ds.shape@), selection, byte_size_of(ds.elem_type)),
        cache_agrees(before, ds, place),
        dataset_selection_read(file, place as u64, selection, apply_pipeline, before, after, r),
    ensures
        outcome(r) == Ok::<DatasetModel, ErrorKind>(
            DatasetModel {
                data: gathered(ds.raw@, ints(ds.shape@), selection, byte_size_of(ds.elem_type)),
                shape: selection_shape(selection),
                ..read_dataset_model(ds, map)
            },
        ),
        cache_agrees(after, ds, place),
{
    let addr = place as u64;
    lemma_dataset_parts(file, ds, place, map, gcol, seen);
    lemma_shape_back(ds.shape@);
    let parts = read_parts(ds, data_place(ds, place), index_place(ds, place));
    let es = byte_size_of(ds.elem_type) as usize;
    let all = ints(ds.shape@);
    let dims = words_of(nats(ds.shape@));
    let ranges = ranges_around(selection);
    assert(chunk_element_size(parts.dtype) == Ok::<usize, ErrorKind>(es));
    assert(holds_chunks(file, ds, place, ds.raw@));
    lemma_chunk_index(file, ds, place, before, es, ds.raw@);
    lemma_ranges_around(selection, all);
    assert(read_by_chunks(parts, bounds_of(selection))) by {
        assert forall|d: int| 0 <= d < selection.len() implies (#[trigger] bounds_of(
            selection,
        )[d]).end <= dims[d] by {
            assert(wide_ranges(ranges)[d] == bounds_of(selection)[d]);
            assert(range_within(ranges[d], all[d]));
            assert(ints64(dims)[d] == all[d]);
        }
    }
    lemma_can_read(file, ds, place, es);
    lemma_can_read_slice(chunk_extents(ds), all, ranges, es as int);
    let (pipeline, elements) = choose|pipeline: FilterPipeline, elements: Result<
        Vec<u8>,
        OxiH5Error,
    >|
        {
            &&& holds_filters(pipeline, parts.filters)
            &&& #[trigger] selection_read(
                file,
                parts.layout,
                parts.extent.dims,
                es,
                selection,
                Seq::empty(),
                filtering_through(apply_pipeline, pipeline, es),
                before,
                after,
                elements,
            )
            &&& carried(
                r,
                elements,
                |data: Seq<u8>| part_with(file, addr, parts, selection_shape(selection), data),
            )
        };
    lemma_undoes(apply_pipeline, pipeline, es, ds, ds.raw@);
    lemma_chunk_selection_read(
        file,
        ds,
        place,
        selection,
        filtering_through(apply_pipeline, pipeline, es),
        before,
        after,
        es,
        ds.raw@,
        elements,
    );
}

/// A selection of a written dataset in chunks reads back, by its path in the written
/// file, as the selection of what was written. A decoder must undo filters as this
/// library does, if the dataset has one; the strides of the dataset must be machine
/// numbers, as they are where no extent is zero; and the cache must hold no other index
/// for it.
pub proof fn law_chunked_selection_reads_back<
    P: Fn(&[u8], &FilterPipeline, u32, usize) -> Result<Vec<u8>, OxiH5Error>,
>(
    root: GroupModel,
    file: Seq<u8>,
    path: Seq<char>,
    m: GroupModel,
    at: nat,
    i: int,
    selection: Seq<DimSelection>,
    apply_pipeline: P,
    before: Map<(u64, usize), Seq<RecordModel>>,
    after: Map<(u64, usize), Seq<RecordModel>>,
    r: Result<Dataset, OxiH5Error>,
)
    requires
        readable(root),
        file_image(root) == Ok::<Seq<u8>, ErrorKind>(file),
        file.len() <= usize::MAX,
        leads_to_dataset(root, path, m, at, i),
        m.datasets[i].storage is Chunked,
        m.datasets[i].vlen_strings is None,
        m.datasets[i].filter is Some ==> undoes_filters(apply_pipeline),
        strides_fit(ints(m.datasets[i].shape@)),
        can_gather(
            m.datasets[i].raw@,
            ints(m.datasets[i].shape@),
            selection,
            byte_size_of(m.datasets[i].elem_type),
        ),
        cache_agrees(before, m.datasets[i], dataset_place(m, at, i)),
        selection_at_path_read(file, path, selection, apply_pipeline, before, after, r),
    ensures
        outcome(r) == Ok::<DatasetModel, ErrorKind>(
            DatasetModel {
                data: gathered(
                    m.datasets[i].raw@,
                    ints(m.datasets[i].shape@),
                    selection,
                    byte_size_of(m.datasets[i].elem_type),
                ),
                shape: selection_shape(selection),
                ..read_dataset_model(m.datasets[i], file_addresses(root))
            },
        ),
        cache_agrees(after, m.datasets[i], dataset_place(m, at, i)),
{
    let seen = lemma_dataset_there(root, file, path, m, at, i);
    lemma_written_storable(root, path, m, at, i);
    lemma_chunked_selection_at(
        file,
        m.datasets[i],
        dataset_place(m, at, i),
        file_addresses(root),
        groups_end(root),
        seen,
        selection,
        apply_pipeline,
        before,
        after,
        r,
    );
}

} // verus!
