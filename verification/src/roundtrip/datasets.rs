//! The datasets of a written file read back by their paths.

use vstd::prelude::*;
use crate::chunk_reader::{
    cached_records, can_read, chunk_plan, filtering_through, whole_read, ChunkIndex,
};
use crate::chunk_record::RecordModel;
use crate::chunked::{
    all_decode, assembled, decodes_to, decoding_fails, fails_after, origin_of, stored_bytes,
    Filtering,
};
use crate::dataset::{Dataset, DatasetModel};
use crate::dataset_reader::{
    carried, chunk_element_size, dataset_read, dataset_with, holds_filters, plain_read, shape_of,
};
use crate::dims::{ints, ints64, lemma_product_positive, product, strides_fit};
use crate::dtype::views;
use crate::error::{outcome, ErrorKind, OxiH5Error};
use crate::file::{dataset_at_path_read, dataset_header, dataset_target, is_there};
use crate::filters::{filter_undone, skipped, undone};
use crate::links::TargetModel;
use crate::object::FilterPipeline;
use crate::paths::names_along;
use crate::roundtrip::chunks::{
    law_chunk_index_reads_back, law_tiles_are_the_dataset, places_chunks, tiles,
};
use crate::roundtrip::file::{
    group_below, law_dataset_is_found, law_group_is_found, lemma_dataset_held, lemma_dataset_parts,
    lemma_file_parts, lemma_group_parts, lemma_readable_small, read_dataset_model, readable,
    strings_before,
};
use crate::roundtrip::held::{held, lemma_held_parts};
use crate::roundtrip::messages::words_of;
use crate::roundtrip::objects::{read_filters, read_parts};
use crate::roundtrip::placed::attrs_nul_free;
use crate::write::attr::padded;
use crate::write::elem::byte_size_of;
use crate::write::emit::{
    data_image, dataset_image, elements_image, file_addresses, file_image, groups_end, index_image,
};
use crate::write::layout::{
    data_place, dataset_place, in_chunks, index_place, index_start, layout_error,
    lemma_first_layout_error, lemma_first_storage_error, storage_error,
};
use crate::write::messages::{full_chunk_shape, nats};
use crate::write::plan::datasets_strings;
use crate::write::tiles::{
    chunk_count, chunk_extents, chunk_records, chunk_start, chunks_fit, chunks_image, chunks_size,
    grid_fits, lemma_chunk_start, lemma_chunks_len, lemma_chunks_size, lemma_counts,
    lemma_records_rank, lemma_stored_size, stored_chunk, tile,
};
use crate::write::tree::{DatasetDesc, Filter, GroupModel};

verus! {

/// Whether the path leads to dataset `i` of the group `m` placed at `at`.
pub open spec fn leads_to_dataset(
    root: GroupModel,
    path: Seq<char>,
    m: GroupModel,
    at: nat,
    i: int,
) -> bool {
    let names = names_along(path);
    &&& names.len() > 0
    &&& group_below(root, 96, names.drop_last()) == Some((m, at))
    &&& 0 <= i < m.datasets.len()
    &&& m.datasets[i].name@ == names.last()
}

/// What the file holds of the dataset that a path leads to.
pub proof fn lemma_dataset_there(
    root: GroupModel,
    file: Seq<u8>,
    path: Seq<char>,
    m: GroupModel,
    at: nat,
    i: int,
) -> (seen: nat)
    requires
        readable(root),
        file_image(root) == Ok::<Seq<u8>, ErrorKind>(file),
        file.len() <= usize::MAX,
        leads_to_dataset(root, path, m, at, i),
    ensures
        seen == strings_before(root, names_along(path).drop_last()) + datasets_strings(
            m.datasets.take(i),
        ).len(),
        ({
            let ds = m.datasets[i];
            let place = dataset_place(m, at, i);
            let image = dataset_image(ds, place, file_addresses(root), groups_end(root), seen);
            &&& dataset_target(file, path) == Ok::<TargetModel, ErrorKind>(
                TargetModel::Local(place as u64),
            )
            &&& dataset_header(file, path) == Ok::<u64, ErrorKind>(place as u64)
            &&& readable(m)
            &&& image is Ok
            &&& held(file, place as int, image->Ok_0)
            &&& storage_error(ds) is None
        }),
{
    let names = names_along(path);
    let map = file_addresses(root);
    let gcol = groups_end(root);
    lemma_file_parts(root, file);
    let before = strings_before(root, names.drop_last());
    law_group_is_found(file, root, 96, map, gcol, 0, names.drop_last());
    lemma_readable_small(m);
    lemma_group_parts(file, m, at, map, gcol, before);
    law_dataset_is_found(file, m, at, i);
    lemma_dataset_held(file, m, at, map, gcol, before, m.datasets.len(), i);
    lemma_written_storable(root, path, m, at, i);
    before + datasets_strings(m.datasets.take(i)).len()
}

/// The dataset that a path leads to in the writer's tree is found under that path in
/// the written file.
pub proof fn law_path_leads_to_dataset(
    root: GroupModel,
    file: Seq<u8>,
    path: Seq<char>,
    m: GroupModel,
    at: nat,
    i: int,
)
    requires
        readable(root),
        file_image(root) == Ok::<Seq<u8>, ErrorKind>(file),
        file.len() <= usize::MAX,
        leads_to_dataset(root, path, m, at, i),
    ensures
        dataset_target(file, path) == Ok::<TargetModel, ErrorKind>(
            TargetModel::Local(dataset_place(m, at, i) as u64),
        ),
        dataset_header(file, path) == Ok::<u64, ErrorKind>(dataset_place(m, at, i) as u64),
        is_there(file, path),
{
    let seen = lemma_dataset_there(root, file, path, m, at, i);
    lemma_dataset_parts(
        file,
        m.datasets[i],
        dataset_place(m, at, i),
        file_addresses(root),
        groups_end(root),
        seen,
    );
}

pub proof fn lemma_shape_back(shape: Seq<usize>)
    ensures
        shape_of(words_of(nats(shape))) == ints(shape),
        ints64(words_of(nats(shape))) == ints(shape),
{
    assert(shape_of(words_of(nats(shape))) =~= ints(shape));
    assert(ints64(words_of(nats(shape))) =~= ints(shape));
}

/// Reading gives back what was written: a dataset in one run of bytes reads back, by
/// its path in the written file, with its elements, its shape, its type and its
/// attributes.
pub proof fn law_contiguous_dataset_reads_back<
    P: Fn(&[u8], &FilterPipeline, u32, usize) -> Result<Vec<u8>, OxiH5Error>,
>(
    root: GroupModel,
    file: Seq<u8>,
    path: Seq<char>,
    m: GroupModel,
    at: nat,
    i: int,
    apply_pipeline: P,
    before: Map<(u64, usize), Seq<RecordModel>>,
    after: Map<(u64, usize), Seq<RecordModel>>,
    r: Result<Dataset, OxiH5Error>,
)
    requires
        readable(root),
        file_image(root) == Ok::<Seq<u8>, ErrorKind>(file),
        file.len() <= usize::MAX,
        leads_to_dataset(root, path, m, at, i),
        m.datasets[i].storage is Contiguous,
        m.datasets[i].vlen_strings is None,
        dataset_at_path_read(file, path, apply_pipeline, before, after, r),
    ensures
        outcome(r) == Ok::<DatasetModel, ErrorKind>(
            read_dataset_model(m.datasets[i], file_addresses(root)),
        ),
        after == before,
{
    let seen = lemma_dataset_there(root, file, path, m, at, i);
    let ds = m.datasets[i];
    let place = dataset_place(m, at, i);
    let map = file_addresses(root);
    lemma_dataset_parts(file, ds, place, map, groups_end(root), seen);
    lemma_shape_back(ds.shape@);
    let parts = read_parts(ds, data_place(ds, place), index_place(ds, place));
    let from = data_place(ds, place) as int;
    assert(file.subrange(from, from + ds.raw@.len()) == ds.raw@);
    assert(plain_read(file, place as u64, parts) == Ok::<DatasetModel, ErrorKind>(
        read_dataset_model(ds, map),
    ));
}

/// Every dataset of a group that can be laid out can be stored.
proof fn lemma_storable(m: GroupModel, i: int)
    requires
        layout_error(m) is None,
        0 <= i < m.datasets.len(),
    ensures
        storage_error(m.datasets[i]) is None,
{
    lemma_first_storage_error(m.datasets, i + 1);
    assert(m.datasets.take(i + 1).drop_last() =~= m.datasets.take(i));
    assert(m.datasets.take(i + 1).last() == m.datasets[i]);
}

/// Groups that names lead to can be laid out where the whole can.
proof fn lemma_below_layout(m: GroupModel, at: nat, names: Seq<Seq<char>>)
    requires
        layout_error(m) is None,
        group_below(m, at, names) is Some,
    ensures
        ({
            let (found, _) = group_below(m, at, names)->0;
            layout_error(found) is None
        }),
    decreases names.len(),
{
    if names.len() > 0 {
        let k = crate::write::tree::group_position(m.groups, names[0])->0;
        crate::write::tree::lemma_group_position(m.groups, names[0], 0);
        lemma_first_layout_error(m.groups, (k + 1) as nat, m.groups.len());
        lemma_below_layout(
            m.groups[k],
            crate::write::layout::group_place(m, at, k),
            names.skip(1),
        );
    }
}

/// Whether a cache holds nothing for a written dataset, or what its index says.
pub open spec fn cache_agrees(
    cache: Map<(u64, usize), Seq<RecordModel>>,
    ds: DatasetDesc,
    place: nat,
) -> bool {
    let key = (index_place(ds, place) as u64, ds.shape@.len() as usize);
    cache.contains_key(key) ==> cache[key] == chunk_records(ds, data_place(ds, place))
}

/// Whether a file holds a chunked dataset with that data at its place.
pub open spec fn holds_chunks(file: Seq<u8>, ds: DatasetDesc, place: nat, data: Seq<u8>) -> bool {
    &&& in_chunks(ds)
    &&& data.len() == ds.data_size()
    &&& ds.vlen_strings is None ==> data == ds.raw@
    &&& ds.shape@.len() < u8::MAX
    &&& held(file, data_place(ds, place) as int, elements_image(ds, data))
    &&& held(file, index_start(ds, place) as int, index_image(ds, place))
}

/// Whether decoding gives the chunks of a dataset with these elements back.
pub open spec fn undoes(filter: Filtering, ds: DatasetDesc, data: Seq<u8>) -> bool {
    forall|k: int, res: Result<Seq<u8>, OxiH5Error>|
        0 <= k < chunk_count(ds) && #[trigger] filter(stored_chunk(ds, data, k)->Ok_0, 0, res)
            ==> res == Ok::<Seq<u8>, OxiH5Error>(tile(ds, data, k))
}

/// Whether a decoder undoes filters as this library does.
pub open spec fn undoes_filters<
    P: Fn(&[u8], &FilterPipeline, u32, usize) -> Result<Vec<u8>, OxiH5Error>,
>(apply: P) -> bool {
    forall|
        raw: &[u8],
        pipeline: &FilterPipeline,
        mask: u32,
        es: usize,
        r: Result<Vec<u8>, OxiH5Error>,
    | #[trigger]
        apply.ensures((raw, pipeline, mask, es), r) ==> outcome(r) == undone(
            views(pipeline.filters@),
            pipeline.filters@.len(),
            raw@,
            mask,
            es,
        )
}

/// The decoder of this library does so.
pub proof fn law_own_decoder_undoes_filters()
    ensures
        undoes_filters(crate::filters::apply_pipeline),
{
}

/// Decoding through the filters of a written dataset gives its chunks back.
pub proof fn lemma_undoes<
    P: Fn(&[u8], &FilterPipeline, u32, usize) -> Result<Vec<u8>, OxiH5Error>,
>(apply: P, pipeline: FilterPipeline, es: usize, ds: DatasetDesc, data: Seq<u8>)
    requires
        in_chunks(ds),
        ds.vlen_strings is None ==> data == ds.raw@,
        holds_filters(pipeline, read_filters(ds)),
        ds.filter is Some ==> undoes_filters(apply),
    ensures
        undoes(filtering_through(apply, pipeline, es), ds, data),
{
    reveal(storage_error);
    let filter = filtering_through(apply, pipeline, es);
    assert(views(pipeline.filters@) == read_filters(ds));
    assert(pipeline.filters@.len() == read_filters(ds).len());
    assert forall|k: int, res: Result<Seq<u8>, OxiH5Error>|
        0 <= k < chunk_count(ds) && #[trigger] filter(
            stored_chunk(ds, data, k)->Ok_0,
            0,
            res,
        ) implies res == Ok::<Seq<u8>, OxiH5Error>(tile(ds, data, k)) by {
        lemma_stored_size(ds, data, k);
        let stored = stored_chunk(ds, data, k)->Ok_0;
        if let Some(Filter::Deflate { level }) = ds.filter {
            let all = read_filters(ds);
            let (bytes, out) = choose|bytes: &[u8], out: Result<Vec<u8>, OxiH5Error>|
                bytes@ == stored && #[trigger] apply.ensures((bytes, &pipeline, 0, es), out)
                    && crate::chunked::content(out) == res;
            assert(!skipped(0, 0)) by {
                assert((0u32 >> 0u32) & 1 != 1) by (bit_vector);
            }
            assert(filter_undone(all[0], stored, es) == Ok::<Seq<u8>, ErrorKind>(
                tile(ds, data, k),
            ));
            reveal_with_fuel(undone, 2);
            assert(outcome(out) == Ok::<Seq<u8>, ErrorKind>(tile(ds, data, k)));
        }
    }
}

/// A file that holds the chunks of a dataset holds each of them.
proof fn lemma_chunk_held(file: Seq<u8>, ds: DatasetDesc, data: Seq<u8>, from: int, n: nat, k: int)
    requires
        chunks_fit(ds),
        ds.vlen_strings is None ==> data == ds.raw@,
        held(file, from, chunks_image(ds, data, n)),
        0 <= k < n <= chunk_count(ds),
    ensures
        held(file, from + chunks_size(ds, k as nat), stored_chunk(ds, data, k)->Ok_0),
    decreases n,
{
    let front = chunks_image(ds, data, (n - 1) as nat);
    let last = stored_chunk(ds, data, n - 1)->Ok_0;
    lemma_held_parts(file, from, front, padded(last));
    lemma_chunks_len(ds, data, (n - 1) as nat);
    if k < n - 1 {
        lemma_chunk_held(file, ds, data, from, (n - 1) as nat, k);
    } else {
        let pad = padded(last).skip(last.len() as int);
        assert(padded(last) =~= last + pad);
        lemma_held_parts(file, from + front.len(), last, pad);
    }
}

/// What the index of a written dataset says.
pub proof fn lemma_chunk_index(
    file: Seq<u8>,
    ds: DatasetDesc,
    place: nat,
    before: Map<(u64, usize), Seq<RecordModel>>,
    es: usize,
    data: Seq<u8>,
)
    requires
        file.len() <= usize::MAX,
        holds_chunks(file, ds, place, data),
        cache_agrees(before, ds, place),
    ensures
        ({
            let base = index_place(ds, place) as u64;
            let shape = words_of(full_chunk_shape(ds));
            let records = chunk_records(ds, data_place(ds, place));
            let layout = read_parts(ds, data_place(ds, place), index_place(ds, place)).layout;
            &&& chunk_plan(layout, ds.shape@.len()) == Ok::<
                (ChunkIndex, u64, Seq<u64>),
                ErrorKind,
            >((ChunkIndex::BTreeV1, base, shape))
            &&& cached_records(before, file, ChunkIndex::BTreeV1, base, shape, es) == Ok::<
                Seq<RecordModel>,
                ErrorKind,
            >(records)
            &&& ints64(shape) == chunk_extents(ds)
            &&& shape.len() == ds.shape@.len()
            &&& places_chunks(ds, records)
            &&& forall|k: int|
                0 <= k < records.len() ==> stored_bytes(file, #[trigger] records[k]) == Ok::<
                    Seq<u8>,
                    ErrorKind,
                >(stored_chunk(ds, data, k)->Ok_0)
        }),
        grid_fits(ds),
        full_chunk_shape(ds).len() == ds.shape@.len(),
        ds.shape@.len() > 0,
{
    reveal(storage_error);
    let base = index_place(ds, place);
    let from = data_place(ds, place);
    let ndims = ds.shape@.len();
    let layout = read_parts(ds, from, base).layout;
    let chunk = full_chunk_shape(ds);
    let shape = words_of(chunk);
    let records = chunk_records(ds, from);
    lemma_records_rank(ds, from);
    law_chunk_index_reads_back(file, ndims, records, index_start(ds, place));
    let listed = words_of(chunk.push(byte_size_of(ds.elem_type)));
    assert(listed.take(ndims as int) =~= shape);
    assert(chunk_plan(layout, ndims) == Ok::<(ChunkIndex, u64, Seq<u64>), ErrorKind>(
        (ChunkIndex::BTreeV1, base as u64, shape),
    ));
    assert(ints64(shape) =~= chunk_extents(ds));
    lemma_chunks_len(ds, data, chunk_count(ds));
    assert forall|k: int| 0 <= k < records.len() implies {
        &&& (#[trigger] records[k]).offsets.len() == ds.shape@.len()
        &&& origin_of(records[k], ds.shape@.len()) == chunk_start(ds, k)
    } by {
        lemma_chunk_start(ds, k);
        let start = chunk_start(ds, k);
        let origin = origin_of(records[k], ndims);
        assert forall|d: int| 0 <= d < ndims implies #[trigger] origin[d] == start[d] by {
            assert(0 <= start[d] < ds.shape@[d]);
        }
        assert(origin =~= start);
    }
    assert forall|k: int| 0 <= k < records.len() implies stored_bytes(file, #[trigger] records[k])
        == Ok::<Seq<u8>, ErrorKind>(stored_chunk(ds, data, k)->Ok_0) by {
        lemma_stored_size(ds, data, k);
        lemma_chunks_size(ds, k as nat, chunk_count(ds));
        lemma_chunk_held(file, ds, data, from as int, chunk_count(ds), k);
    }
}

/// What reading the chunks of a written dataset gives.
proof fn lemma_chunks_read(
    file: Seq<u8>,
    ds: DatasetDesc,
    place: nat,
    filter: Filtering,
    before: Map<(u64, usize), Seq<RecordModel>>,
    after: Map<(u64, usize), Seq<RecordModel>>,
    es: usize,
    data: Seq<u8>,
    r: Result<Vec<u8>, OxiH5Error>,
)
    requires
        file.len() <= usize::MAX,
        holds_chunks(file, ds, place, data),
        es == byte_size_of(ds.elem_type),
        cache_agrees(before, ds, place),
        undoes(filter, ds, data),
        whole_read(
            file,
            read_parts(ds, data_place(ds, place), index_place(ds, place)).layout,
            words_of(nats(ds.shape@)),
            es,
            filter,
            before,
            after,
            r,
        ),
    ensures
        r is Ok,
        r->Ok_0@ == data,
        cache_agrees(after, ds, place),
{
    lemma_chunk_index(file, ds, place, before, es, data);
    let records = chunk_records(ds, data_place(ds, place));
    let dims = words_of(nats(ds.shape@));
    lemma_shape_back(ds.shape@);
    let all = ints(ds.shape@);
    let n = records.len();
    match r {
        Ok(out) => {
            let decoded = choose|decoded: Seq<Seq<u8>>|
                #[trigger] all_decode(filter, file, records, decoded, n, dims.len()) && out@
                    == assembled(records, decoded, n, chunk_extents(ds), all, es as int);
            assert forall|k: int| 0 <= k < n implies #[trigger] decoded[k] == tile(
                ds,
                data,
                k,
            ) by {
                assert(decodes_to(filter, file, records[k], decoded[k]));
            }
            assert(decoded =~= tiles(ds, data));
            law_tiles_are_the_dataset(ds, data, records);
        },
        Err(e) => {
            let (decoded, k) = choose|decoded: Seq<Seq<u8>>, k: nat| #[trigger]
                fails_after(filter, file, records, decoded, k, dims.len(), e);
            let at = k as int;
            assert(records[at].offsets.len() == dims.len());
            assert(decoding_fails(filter, file, records[at], e));
            assert(filter(
                stored_chunk(ds, data, at)->Ok_0,
                0,
                Err::<Seq<u8>, OxiH5Error>(e),
            ));
        },
    }
}

/// Reading gives back what was written: a dataset in chunks reads back, by its path in
/// the written file, with its elements, its shape, its type and its attributes. A decoder
/// must undo filters as this library does, if the dataset has one; the strides of the
/// dataset must be machine numbers, as they are where no extent is zero; and the cache
/// must not hold another index for it.
pub proof fn law_chunked_dataset_reads_back<
    P: Fn(&[u8], &FilterPipeline, u32, usize) -> Result<Vec<u8>, OxiH5Error>,
>(
    root: GroupModel,
    file: Seq<u8>,
    path: Seq<char>,
    m: GroupModel,
    at: nat,
    i: int,
    apply_pipeline: P,
    before: Map<(u64, usize), Seq<RecordModel>>,
    after: Map<(u64, usize), Seq<RecordModel>>,
    r: Result<Dataset, OxiH5Error>,
)
    requires
        readable(root),
        file_image(root) == Ok::<Seq<u8>, ErrorKind>(file),
        file.len() <= usize::MAX,
        leads_to_dataset(root, path, m, at, i),
        m.datasets[i].storage is Chunked,
        m.datasets[i].vlen_strings is None,
        m.datasets[i].filter is Some ==> undoes_filters(apply_pipeline),
        strides_fit(ints(m.datasets[i].shape@)),
        cache_agrees(before, m.datasets[i], dataset_place(m, at, i)),
        dataset_at_path_read(file, path, apply_pipeline, before, after, r),
    ensures
        outcome(r) == Ok::<DatasetModel, ErrorKind>(
            read_dataset_model(m.datasets[i], file_addresses(root)),
        ),
        cache_agrees(after, m.datasets[i], dataset_place(m, at, i)),
{
    let seen = lemma_dataset_there(root, file, path, m, at, i);
    lemma_written_storable(root, path, m, at, i);
    lemma_chunked_dataset_at(
        file,
        m.datasets[i],
        dataset_place(m, at, i),
        file_addresses(root),
        groups_end(root),
        seen,
        apply_pipeline,
        before,
        after,
        r,
    );
}

/// Every dataset of a written file can be stored.
pub proof fn lemma_written_storable(
    root: GroupModel,
    path: Seq<char>,
    m: GroupModel,
    at: nat,
    i: int,
)
    requires
        file_image(root) is Ok,
        leads_to_dataset(root, path, m, at, i),
    ensures
        storage_error(m.datasets[i]) is None,
{
    reveal(file_image);
    lemma_below_layout(root, 96, names_along(path).drop_last());
    lemma_storable(m, i);
}

/// A chunked dataset at its place in a file reads back.
pub proof fn lemma_chunked_dataset_at<
    P: Fn(&[u8], &FilterPipeline, u32, usize) -> Result<Vec<u8>, OxiH5Error>,
>(
    file: Seq<u8>,
    ds: DatasetDesc,
    place: nat,
    map: Map<Seq<char>, u64>,
    gcol: nat,
    seen: nat,
    apply_pipeline: P,
    before: Map<(u64, usize), Seq<RecordModel>>,
    after: Map<(u64, usize), Seq<RecordModel>>,
    r: Result<Dataset, OxiH5Error>,
)
    requires
        file.len() <= usize::MAX,
        attrs_nul_free(ds.attrs@),
        dataset_image(ds, place, map, gcol, seen) is Ok,
        held(file, place as int, dataset_image(ds, place, map, gcol, seen)->Ok_0),
        in_chunks(ds),
        ds.filter is Some ==> undoes_filters(apply_pipeline),
        strides_fit(ints(ds.shape@)),
        cache_agrees(before, ds, place),
        dataset_read(file, place as u64, apply_pipeline, before, after, r),
    ensures
        data_image(ds, gcol, seen) is Ok,
        outcome(r) == Ok::<DatasetModel, ErrorKind>(
            DatasetModel {
                data: data_image(ds, gcol, seen)->Ok_0,
                ..read_dataset_model(ds, map)
            },
        ),
        cache_agrees(after, ds, place),
{
    lemma_dataset_parts(file, ds, place, map, gcol, seen);
    lemma_shape_back(ds.shape@);
    let parts = read_parts(ds, data_place(ds, place), index_place(ds, place));
    let es = byte_size_of(ds.elem_type) as usize;
    assert(chunk_element_size(parts.dtype) == Ok::<usize, ErrorKind>(es));
    let data = data_image(ds, gcol, seen)->Ok_0;
    lemma_chunk_index(file, ds, place, before, es, data);
    lemma_can_read(file, ds, place, es);
    let (pipeline, elements) = choose|pipeline: FilterPipeline, elements: Result<
        Vec<u8>,
        OxiH5Error,
    >|
        {
            &&& holds_filters(pipeline, parts.filters)
            &&& #[trigger] whole_read(
                file,
                parts.layout,
                parts.extent.dims,
                es,
                filtering_through(apply_pipeline, pipeline, es),
                before,
                after,
                elements,
            )
            &&& carried(
                r,
                elements,
                |data: Seq<u8>| dataset_with(file, place as u64, parts, data),
            )
        };
    lemma_undoes(apply_pipeline, pipeline, es, ds, data);
    lemma_chunks_read(
        file,
        ds,
        place,
        filtering_through(apply_pipeline, pipeline, es),
        before,
        after,
        es,
        data,
        elements,
    );
}

/// The sizes of a written chunked dataset are machine numbers.
pub proof fn lemma_can_read(file: Seq<u8>, ds: DatasetDesc, place: nat, es: usize)
    requires
        in_chunks(ds),
        es == byte_size_of(ds.elem_type),
        strides_fit(ints(ds.shape@)),
    ensures
        can_read(
            read_parts(ds, data_place(ds, place), index_place(ds, place)).layout,
            words_of(nats(ds.shape@)),
            es,
        ),
        product(ints(ds.shape@)) * es <= usize::MAX,
        product(chunk_extents(ds)) * es <= usize::MAX,
        product(chunk_extents(ds)) <= usize::MAX,
        forall|d: int| 0 <= d < ds.shape@.len() ==> 0 < #[trigger] chunk_extents(ds)[d],
{
    reveal(storage_error);
    let chunk = full_chunk_shape(ds);
    lemma_shape_back(ds.shape@);
    let listed = words_of(chunk.push(byte_size_of(ds.elem_type)));
    assert(listed.take(ds.shape@.len() as int) =~= words_of(chunk));
    assert(ints64(words_of(chunk)) =~= chunk_extents(ds));
    lemma_counts(ds);
    let extents = chunk_extents(ds);
    lemma_product_positive(extents);
    let p = product(extents);
    assert(p <= p * es) by (nonlinear_arith)
        requires
            p > 0,
            es >= 1,
    ;
    crate::dims::lemma_strides_fit(extents);
}

} // verus!
