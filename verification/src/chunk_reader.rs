//! Reading chunked datasets: the chunk index, its cache, and the chunks.

use vstd::prelude::*;
use std::sync::Arc;
use crate::chunk_record::{ChunkRecord, RecordModel};
use crate::chunked::{
    all_decode, assemble_chunks, assemble_chunks_slice_filled, can_scatter, can_slice,
    cell_fails_after, cells_decode, content, fails_after, filtering_of, lengths, slice_outcome,
    whole_outcome, Filtering,
};
use crate::dims::{
    capped_total, exact_total64, ints64, lemma_product_non_negative, product, stride, strides_fit,
};
use crate::dtype::views;
use crate::error::{outcomes, text, ErrorKind, OxiH5Error};
use crate::object::{FilterPipeline, LayoutInfo, LayoutModel};

verus! {

/// How the chunks of a dataset are indexed.
#[derive(Debug, Clone, Copy, PartialEq, Eq, Structural)]
pub enum ChunkIndex {
    /// Version 1 B-tree.
    BTreeV1,
    /// Version 2 B-tree.
    BTreeV2,
    /// Fixed array.
    FixedArray,
    /// Extensible array.
    ExtensibleArray,
}

/// The chunk records that an index holds.
pub open spec fn index_records(
    file: Seq<u8>,
    index: ChunkIndex,
    address: u64,
    ndims: nat,
) -> Result<Seq<RecordModel>, ErrorKind> {
    match index {
        ChunkIndex::BTreeV1 => crate::btree_v1_chunk::tree_records(file, address, ndims),
        ChunkIndex::BTreeV2 => crate::btree_v2::tree_chunks(
            file,
            address as int,
            ndims,
            Seq::empty(),
            0,
        ),
        ChunkIndex::FixedArray => crate::fa_index::fixed_array_records(
            file,
            address as int,
            ndims,
            Seq::empty(),
            0,
        ),
        ChunkIndex::ExtensibleArray => crate::ea_index::extensible_array_records(
            file,
            address as int,
            ndims,
        ),
    }
}

/// Read the chunk records that the index at `index_address` holds, for a dataset
/// of rank `ndims`.
pub fn resolve_chunk_index(
    file_data: &[u8],
    index: ChunkIndex,
    index_address: u64,
    ndims: usize,
) -> (r: Result<Vec<ChunkRecord>, OxiH5Error>)
    ensures
        outcomes(r) == index_records(file_data@, index, index_address, ndims as nat),
{
    match index {
        ChunkIndex::BTreeV1 => crate::btree_v1_chunk::parse(file_data, index_address, ndims),
        ChunkIndex::BTreeV2 => {
            let unknown: Vec<u64> = Vec::new();
            proof {
                assert(unknown@ =~= Seq::empty());
            }
            crate::btree_v2::parse_chunks(file_data, index_address, ndims, &unknown, 0)
        },
        ChunkIndex::FixedArray => crate::fa_index::parse_fixed_array(
            file_data,
            index_address,
            ndims,
        ),
        ChunkIndex::ExtensibleArray => crate::ea_index::parse_extensible_array(
            file_data,
            index_address,
            ndims,
        ),
    }
}

/// One remembered index.
struct CacheEntry {
    address: u64,
    ndims: usize,
    records: Arc<Vec<ChunkRecord>>,
}

/// Chunk records that were read before, by the address of the index and the rank
/// of the dataset.
pub struct ChunkIndexCache {
    entries: Vec<CacheEntry>,
}

/// The entry for `key`.
spec fn slot(entries: Seq<CacheEntry>, key: (u64, usize)) -> Option<int>
    decreases entries.len(),
{
    if entries.len() == 0 {
        None
    } else if slot(entries.drop_last(), key) is Some {
        slot(entries.drop_last(), key)
    } else if entries.last().address == key.0 && entries.last().ndims == key.1 {
        Some(entries.len() - 1)
    } else {
        None
    }
}

impl View for ChunkIndexCache {
    type V = Map<(u64, usize), Seq<RecordModel>>;

    closed spec fn view(&self) -> Map<(u64, usize), Seq<RecordModel>> {
        Map::new(
            |key: (u64, usize)| slot(self.entries@, key) is Some,
            |key: (u64, usize)| views(self.entries@[slot(self.entries@, key)->0].records@),
        )
    }
}

/// `Arc::clone`.
///
/// Not proved: that the new pointer leads to the same records.
#[verifier::external_body]
fn share(records: &Arc<Vec<ChunkRecord>>) -> (r: Arc<Vec<ChunkRecord>>)
    ensures
        r == *records,
{
    Arc::clone(records)
}

proof fn lemma_slot_bounds(entries: Seq<CacheEntry>, key: (u64, usize))
    ensures
        slot(entries, key) is Some ==> 0 <= slot(entries, key)->0 < entries.len(),
    decreases entries.len(),
{
    if entries.len() > 0 {
        lemma_slot_bounds(entries.drop_last(), key);
    }
}

/// Whether `r` is what looking up `key` gives, with `after` as the cache then: the
/// remembered records, or those that `compute` gives, which are then remembered. An error
/// is not remembered.
pub open spec fn looked_up<F: FnOnce() -> Result<Vec<ChunkRecord>, OxiH5Error>>(
    before: Map<(u64, usize), Seq<RecordModel>>,
    key: (u64, usize),
    compute: F,
    after: Map<(u64, usize), Seq<RecordModel>>,
    r: Result<Arc<Vec<ChunkRecord>>, OxiH5Error>,
) -> bool {
    if before.contains_key(key) {
        r is Ok && views(r->Ok_0@) == before[key] && after == before
    } else {
        match r {
            Ok(records) => compute.ensures((), Ok(*records)) && after == before.insert(
                key,
                views(records@),
            ),
            Err(e) => compute.ensures((), Err(e)) && after == before,
        }
    }
}

/// Two look-ups of one key: once records were found, they are found again, whatever the
/// second computation is, and the cache stays as it is; after an error the cache is as it
/// was before, so the second computation decides. What is remembered for other keys never
/// changes.
pub proof fn law_looked_up_twice<
    F: FnOnce() -> Result<Vec<ChunkRecord>, OxiH5Error>,
    G: FnOnce() -> Result<Vec<ChunkRecord>, OxiH5Error>,
>(
    before: Map<(u64, usize), Seq<RecordModel>>,
    key: (u64, usize),
    first: F,
    between: Map<(u64, usize), Seq<RecordModel>>,
    a: Result<Arc<Vec<ChunkRecord>>, OxiH5Error>,
    second: G,
    after: Map<(u64, usize), Seq<RecordModel>>,
    b: Result<Arc<Vec<ChunkRecord>>, OxiH5Error>,
)
    requires
        looked_up(before, key, first, between, a),
        looked_up(between, key, second, after, b),
    ensures
        match a {
            Ok(records) => {
                &&& b is Ok
                &&& views(b->Ok_0@) == views(records@)
                &&& after == between
            },
            Err(_) => {
                &&& between == before
                &&& !before.contains_key(key)
                &&& match b {
                    Ok(records) => second.ensures((), Ok(*records)),
                    Err(e) => second.ensures((), Err(e)),
                }
            },
        },
        after.remove(key) == before.remove(key),
{
    assert(after.remove(key) =~= before.remove(key));
}

impl ChunkIndexCache {
    /// An empty cache.
    pub fn new() -> (r: ChunkIndexCache)
        ensures
            r@ == Map::<(u64, usize), Seq<RecordModel>>::empty(),
    {
        let r = ChunkIndexCache { entries: Vec::new() };
        proof {
            assert(r@ =~= Map::empty());
        }
        r
    }

    fn find(&self, key: (u64, usize)) -> (r: Option<usize>)
        ensures
            match r {
                Some(i) => slot(self.entries@, key) == Some(i as int) && i < self.entries@.len(),
                None => slot(self.entries@, key) is None,
            },
    {
        let ghost all = self.entries@;
        proof {
            assert(all.take(0) =~= Seq::<CacheEntry>::empty());
        }
        for i in 0..self.entries.len()
            invariant
                all == self.entries@,
                slot(all.take(i as int), key) is None,
        {
            proof {
                assert(all.take(i + 1).drop_last() =~= all.take(i as int));
            }
            if self.entries[i].address == key.0 && self.entries[i].ndims == key.1 {
                proof {
                    lemma_slot_stays(all, key, i + 1);
                }
                return Some(i);
            }
        }
        proof {
            assert(all.take(all.len() as int) =~= all);
        }
        None
    }

    /// The records for `key`: the remembered ones, or those that `compute` gives,
    /// which are then remembered. An error is not remembered.
    pub fn get_or_insert<F: FnOnce() -> Result<Vec<ChunkRecord>, OxiH5Error>>(
        &mut self,
        key: (u64, usize),
        compute: F,
    ) -> (r: Result<Arc<Vec<ChunkRecord>>, OxiH5Error>)
        requires
            !old(self)@.contains_key(key) ==> compute.requires(()),
        ensures
            looked_up(old(self)@, key, compute, final(self)@, r),
    {
        let ghost before = self@;
        if let Some(i) = self.find(key) {
            return Ok(share(&self.entries[i].records));
        }
        let records: Vec<ChunkRecord> = compute()?;
        let stored: Arc<Vec<ChunkRecord>> = Arc::new(records);
        let ghost all = self.entries@;
        self.entries.push(CacheEntry { address: key.0, ndims: key.1, records: share(&stored) });
        proof {
            let more = self.entries@;
            assert(more.drop_last() =~= all);
            assert forall|k: (u64, usize)| #[trigger] slot(more, k) == (if slot(all, k) is Some {
                slot(all, k)
            } else if k == key {
                Some(all.len() as int)
            } else {
                None
            }) by {}
            assert forall|k: (u64, usize)| slot(all, k) is Some implies 0 <= (#[trigger] slot(
                all,
                k,
            ))->0 < all.len() by {
                lemma_slot_bounds(all, k);
            }
            assert(self@ =~= before.insert(key, views(stored@)));
        }
        Ok(stored)
    }
}

/// Later entries do not move an entry.
proof fn lemma_slot_stays(entries: Seq<CacheEntry>, key: (u64, usize), n: int)
    requires
        0 <= n <= entries.len(),
        slot(entries.take(n), key) is Some,
    ensures
        slot(entries, key) == slot(entries.take(n), key),
    decreases entries.len(),
{
    if n < entries.len() {
        assert(entries.drop_last().take(n) =~= entries.take(n));
        lemma_slot_stays(entries.drop_last(), key, n);
    } else {
        assert(entries.take(n) =~= entries);
    }
}

/// What decoding through a pipeline may give: without filters the bytes
/// themselves, else what `apply` returns for them.
pub open spec fn filtering_through<
    P: Fn(&[u8], &FilterPipeline, u32, usize) -> Result<Vec<u8>, OxiH5Error>,
>(apply: P, pipeline: FilterPipeline, elem_size: usize) -> Filtering {
    |raw: Seq<u8>, mask: u32, res: Result<Seq<u8>, OxiH5Error>|
        if pipeline.filters@.len() == 0 {
            res == Ok::<Seq<u8>, OxiH5Error>(raw)
        } else {
            exists|bytes: &[u8], out: Result<Vec<u8>, OxiH5Error>|
                bytes@ == raw && #[trigger] apply.ensures((bytes, &pipeline, mask, elem_size), out)
                    && content(out) == res
        }
}

/// Decode the stored bytes of one chunk: without a pipeline, or with an empty one,
/// they are the elements; otherwise `apply_pipeline` undoes the filters.
pub fn apply_filters_to_chunk<
    P: Fn(&[u8], &FilterPipeline, u32, usize) -> Result<Vec<u8>, OxiH5Error>,
>(
    raw: &[u8],
    filter_mask: u32,
    pipeline: Option<&FilterPipeline>,
    elem_size: usize,
    apply_pipeline: &P,
) -> (r: Result<Vec<u8>, OxiH5Error>)
    requires
        pipeline is Some ==> apply_pipeline.requires((raw, pipeline->0, filter_mask, elem_size)),
    ensures
        match pipeline {
            Some(p) => filtering_through(*apply_pipeline, *p, elem_size)(
                raw@,
                filter_mask,
                content(r),
            ),
            None => content(r) == Ok::<Seq<u8>, OxiH5Error>(raw@),
        },
{
    match pipeline {
        Some(p) => {
            if p.filters.len() == 0 {
                Ok(vstd::slice::slice_to_vec(raw))
            } else {
                let out = (*apply_pipeline)(raw, p, filter_mask, elem_size);
                assert(apply_pipeline.ensures((raw, p, filter_mask, elem_size), out));
                out
            }
        },
        None => Ok(vstd::slice::slice_to_vec(raw)),
    }
}

/// The chunk shape in elements: a layout may list the element size behind it.
pub open spec fn chunk_shape(chunk_dims: Seq<u64>, ndims: nat) -> Option<Seq<u64>> {
    if chunk_dims.len() == ndims + 1 {
        Some(chunk_dims.take(ndims as int))
    } else if chunk_dims.len() == ndims {
        Some(chunk_dims)
    } else {
        None
    }
}

/// The index that a layout names.
pub open spec fn index_named(index_type: u8) -> Option<ChunkIndex> {
    match index_type {
        0 => Some(ChunkIndex::BTreeV1),
        1 => Some(ChunkIndex::FixedArray),
        2 => Some(ChunkIndex::ExtensibleArray),
        3 => Some(ChunkIndex::BTreeV2),
        _ => None,
    }
}

/// The chunk records of a dataset.
pub open spec fn dataset_records(
    file: Seq<u8>,
    index: ChunkIndex,
    address: u64,
    shape: Seq<u64>,
    elem_size: usize,
) -> Result<Seq<RecordModel>, ErrorKind> {
    if index == ChunkIndex::FixedArray {
        crate::fa_index::fixed_array_records(
            file,
            address as int,
            shape.len(),
            shape,
            (product(ints64(shape)) * elem_size) as usize,
        )
    } else if index == ChunkIndex::BTreeV2 {
        crate::btree_v2::tree_chunks(
            file,
            address as int,
            shape.len(),
            shape,
            (product(ints64(shape)) * elem_size) as usize,
        )
    } else {
        index_records(file, index, address, shape.len())
    }
}

/// Where a chunked layout leads: the index, its address and the chunk shape.
pub open spec fn chunk_plan(layout: LayoutModel, ndims: nat) -> Result<
    (ChunkIndex, u64, Seq<u64>),
    ErrorKind,
> {
    match layout {
        LayoutModel::Chunked { data_address, chunk_dims, index_type, .. } => {
            match (chunk_shape(chunk_dims, ndims), index_named(index_type)) {
                (Some(shape), Some(index)) => Ok((index, data_address, shape)),
                _ => Err(ErrorKind::Format),
            }
        },
        _ => Err(ErrorKind::Format),
    }
}

/// The records of a dataset, those in the cache as the cache has them.
pub open spec fn cached_records(
    cache: Map<(u64, usize), Seq<RecordModel>>,
    file: Seq<u8>,
    index: ChunkIndex,
    address: u64,
    shape: Seq<u64>,
    elem_size: usize,
) -> Result<Seq<RecordModel>, ErrorKind> {
    let key = (address, shape.len() as usize);
    if cache.contains_key(key) {
        Ok(cache[key])
    } else {
        dataset_records(file, index, address, shape, elem_size)
    }
}

/// The cache after the records of a dataset were asked for.
pub open spec fn cache_after(
    cache: Map<(u64, usize), Seq<RecordModel>>,
    address: u64,
    ndims: nat,
    records: Result<Seq<RecordModel>, ErrorKind>,
) -> Map<(u64, usize), Seq<RecordModel>> {
    let key = (address, ndims as usize);
    match records {
        Ok(found) if !cache.contains_key(key) => cache.insert(key, found),
        _ => cache,
    }
}

/// Records are read at most once: once the records of a dataset were asked for and found,
/// asking again gives the same ones and changes nothing, whatever the file holds by then.
pub proof fn law_records_are_read_once(
    cache: Map<(u64, usize), Seq<RecordModel>>,
    file: Seq<u8>,
    later: Seq<u8>,
    index: ChunkIndex,
    address: u64,
    shape: Seq<u64>,
    elem_size: usize,
)
    requires
        cached_records(cache, file, index, address, shape, elem_size) is Ok,
    ensures
        ({
            let records = cached_records(cache, file, index, address, shape, elem_size);
            let after = cache_after(cache, address, shape.len(), records);
            let again = cached_records(after, later, index, address, shape, elem_size);
            again == records && cache_after(after, address, shape.len(), again) == after
        }),
{
}

/// Read the plan of a chunked layout.
fn plan_chunks(layout: &LayoutInfo, ndims: usize) -> (r: Result<
    (ChunkIndex, u64, Vec<u64>),
    OxiH5Error,
>)
    ensures
        match chunk_plan(layout@, ndims as nat) {
            Ok((index, address, shape)) => r is Ok && r->Ok_0.0 == index && r->Ok_0.1 == address
                && r->Ok_0.2@ == shape,
            Err(kind) => r is Err && r->Err_0@ == kind,
        },
{
    if let LayoutInfo::Chunked { data_address, dimensionality, chunk_dims, index_type } = layout {
        let shape: Vec<u64> = if chunk_dims.len() > ndims && chunk_dims.len() - 1 == ndims {
            vstd::slice::slice_to_vec(vstd::slice::slice_subrange(chunk_dims, 0, ndims))
        } else if chunk_dims.len() == ndims {
            vstd::slice::slice_to_vec(chunk_dims)
        } else {
            return Err(
                OxiH5Error::Format(
                    text(
                        &[
                            "chunk_dims length ",
                            &chunk_dims.len().to_string(),
                            " incompatible with rank ",
                            &ndims.to_string(),
                            " (dimensionality field = ",
                            &dimensionality.to_string(),
                            ")",
                        ],
                    ),
                ),
            );
        };
        proof {
            assert(chunk_dims@.len() == ndims + 1 ==> shape@ =~= chunk_dims@.take(ndims as int));
        }
        match *index_type {
            0 => Ok((ChunkIndex::BTreeV1, *data_address, shape)),
            1 => Ok((ChunkIndex::FixedArray, *data_address, shape)),
            2 => Ok((ChunkIndex::ExtensibleArray, *data_address, shape)),
            3 => Ok((ChunkIndex::BTreeV2, *data_address, shape)),
            other => Err(
                OxiH5Error::Format(text(&["unknown chunk index type ", &other.to_string()])),
            ),
        }
    } else {
        Err(OxiH5Error::Format("layout is not chunked".to_string()))
    }
}

/// Read the chunk records of a dataset, or take them from the cache.
fn load_records(
    file_data: &[u8],
    index: ChunkIndex,
    address: u64,
    shape: &[u64],
    elem_size: usize,
    cache: &mut ChunkIndexCache,
) -> (r: Result<Arc<Vec<ChunkRecord>>, OxiH5Error>)
    requires
        product(ints64(shape@)) * elem_size <= usize::MAX,
        product(ints64(shape@)) <= usize::MAX,
    ensures
        ({
            let records = cached_records(
                old(cache)@,
                file_data@,
                index,
                address,
                shape@,
                elem_size,
            );
            &&& final(cache)@ == cache_after(old(cache)@, address, shape@.len(), records)
            &&& match records {
                Ok(found) => r is Ok && views(r->Ok_0@) == found,
                Err(kind) => r is Err && r->Err_0@ == kind,
            }
        }),
{
    let ndims: usize = shape.len();
    let volume: usize = capped_total(shape, usize::MAX);
    let bytes: usize = volume * elem_size;
    let compute = || -> (found: Result<Vec<ChunkRecord>, OxiH5Error>)
        ensures
            outcomes(found) == dataset_records(file_data@, index, address, shape@, elem_size),
        {
            if index == ChunkIndex::FixedArray {
                crate::fa_index::parse_fixed_array_v4(file_data, address, ndims, shape, bytes)
            } else if index == ChunkIndex::BTreeV2 {
                crate::btree_v2::parse_chunks(file_data, address, ndims, shape, bytes)
            } else {
                resolve_chunk_index(file_data, index, address, ndims)
            }
        };
    cache.get_or_insert((address, ndims), compute)
}

/// What reading a whole chunked dataset takes: a chunk shape and an extent whose
/// sizes are machine numbers.
pub open spec fn can_read(layout: LayoutModel, dims: Seq<u64>, elem_size: usize) -> bool {
    match chunk_plan(layout, dims.len()) {
        Ok((_, _, shape)) => {
            &&& product(ints64(shape)) <= usize::MAX
            &&& product(ints64(shape)) * elem_size <= usize::MAX
            &&& elem_size > 0 ==> can_scatter(ints64(shape), ints64(dims), elem_size as int)
        },
        Err(_) => true,
    }
}

/// Whether `r` is what reading a whole chunked dataset gives, with `after` as the
/// cache then: the records as the index or the cache has them, their chunks decoded
/// and assembled.
pub open spec fn whole_read(
    file: Seq<u8>,
    layout: LayoutModel,
    dims: Seq<u64>,
    elem_size: usize,
    filter: Filtering,
    before: Map<(u64, usize), Seq<RecordModel>>,
    after: Map<(u64, usize), Seq<RecordModel>>,
    r: Result<Vec<u8>, OxiH5Error>,
) -> bool {
    match chunk_plan(layout, dims.len()) {
        Err(kind) => r is Err && r->Err_0@ == kind && after == before,
        Ok((index, address, shape)) => {
            let records = cached_records(before, file, index, address, shape, elem_size);
            &&& after == cache_after(before, address, shape.len(), records)
            &&& match records {
                Err(kind) => r is Err && r->Err_0@ == kind,
                Ok(found) => whole_outcome(
                    filter,
                    file,
                    found,
                    ints64(shape),
                    ints64(dims),
                    elem_size as int,
                    r,
                ),
            }
        },
    }
}

/// Read a whole chunked dataset into one buffer in row-major order.
///
/// The chunk index is read at most once for a given address and rank, as long as
/// the same cache is passed. `apply_pipeline` undoes the filters of the pipeline
/// on the stored bytes of a chunk.
pub fn read_chunked<P: Fn(&[u8], &FilterPipeline, u32, usize) -> Result<Vec<u8>, OxiH5Error>>(
    file_data: &[u8],
    layout: &LayoutInfo,
    pipeline: &FilterPipeline,
    dataset_dims: &[u64],
    elem_size: usize,
    cache: &mut ChunkIndexCache,
    apply_pipeline: &P,
) -> (r: Result<Vec<u8>, OxiH5Error>)
    requires
        forall|raw: &[u8], mask: u32|
            apply_pipeline.requires((raw, pipeline, mask, elem_size)),
        can_read(layout@, dataset_dims@, elem_size),
    ensures
        whole_read(
            file_data@,
            layout@,
            dataset_dims@,
            elem_size,
            filtering_through(*apply_pipeline, *pipeline, elem_size),
            old(cache)@,
            final(cache)@,
            r,
        ),
{
    let (index, address, shape) = plan_chunks(layout, dataset_dims.len())?;
    let records = load_records(file_data, index, address, &shape, elem_size, cache)?;
    let decode = |raw: &[u8], mask: u32| -> (out: Result<Vec<u8>, OxiH5Error>)
        ensures
            filtering_through(*apply_pipeline, *pipeline, elem_size)(raw@, mask, content(out)),
        { apply_filters_to_chunk(raw, mask, Some(pipeline), elem_size, apply_pipeline) };
    let r = assemble_chunks(&records, file_data, &shape, dataset_dims, elem_size, decode);
    proof {
        lemma_whole_outcome_weaker(
            filtering_of(decode),
            filtering_through(*apply_pipeline, *pipeline, elem_size),
            file_data@,
            views(records@),
            ints64(shape@),
            ints64(dataset_dims@),
            elem_size as int,
            r,
        );
    }
    r
}

/// What holds with fewer possible decodings holds with more.
proof fn lemma_whole_outcome_weaker(
    a: Filtering,
    b: Filtering,
    file: Seq<u8>,
    records: Seq<RecordModel>,
    chunk_dims: Seq<int>,
    dims: Seq<int>,
    es: int,
    r: Result<Vec<u8>, OxiH5Error>,
)
    requires
        forall|raw: Seq<u8>, mask: u32, res: Result<Seq<u8>, OxiH5Error>| #[trigger]
            a(raw, mask, res) ==> b(raw, mask, res),
        whole_outcome(a, file, records, chunk_dims, dims, es, r),
    ensures
        whole_outcome(b, file, records, chunk_dims, dims, es, r),
{
    if chunk_dims.len() == dims.len() && es != 0 {
        match r {
            Ok(out) => {
                let decoded = choose|decoded: Seq<Seq<u8>>|
                    #[trigger] all_decode(a, file, records, decoded, records.len(), dims.len())
                        && out@ == crate::chunked::assembled(
                        records,
                        decoded,
                        records.len(),
                        chunk_dims,
                        dims,
                        es,
                    );
                assert(all_decode(b, file, records, decoded, records.len(), dims.len()));
            },
            Err(e) => {
                let (decoded, k) = choose|decoded: Seq<Seq<u8>>, k: nat| #[trigger]
                    fails_after(a, file, records, decoded, k, dims.len(), e);
                assert(fails_after(b, file, records, decoded, k, dims.len(), e));
            },
        }
    }
}

/// What holds with fewer possible decodings holds with more.
proof fn lemma_slice_outcome_weaker(
    a: Filtering,
    b: Filtering,
    file: Seq<u8>,
    records: Seq<RecordModel>,
    chunk_dims: Seq<int>,
    ranges: Seq<std::ops::Range<u64>>,
    es: int,
    fill: Seq<u8>,
    r: Result<Vec<u8>, OxiH5Error>,
)
    requires
        forall|raw: Seq<u8>, mask: u32, res: Result<Seq<u8>, OxiH5Error>| #[trigger]
            a(raw, mask, res) ==> b(raw, mask, res),
        slice_outcome(a, file, records, chunk_dims, ranges, es, fill, r),
    ensures
        slice_outcome(b, file, records, chunk_dims, ranges, es, fill, r),
{
    if product(lengths(ranges)) != 0 {
        let cells = product(crate::chunked::cell_counts(ranges, chunk_dims)) as nat;
        match r {
            Ok(out) => {
                let decoded = choose|decoded: Seq<Seq<u8>>|
                    #[trigger] cells_decode(a, file, records, decoded, cells, chunk_dims, ranges)
                        && out@ == crate::chunked::sliced(
                            records,
                            decoded,
                            cells,
                            chunk_dims,
                            ranges,
                            es,
                            fill,
                        );
                assert(cells_decode(b, file, records, decoded, cells, chunk_dims, ranges));
            },
            Err(e) => {
                let (decoded, k) = choose|decoded: Seq<Seq<u8>>, k: nat| #[trigger]
                    cell_fails_after(a, file, records, decoded, k, chunk_dims, ranges, e);
                assert(cell_fails_after(b, file, records, decoded, k, chunk_dims, ranges, e));
            },
        }
    }
}

/// Whether the ranges lie within the extents, one for each.
pub open spec fn ranges_fit(ranges: Seq<std::ops::Range<u64>>, dims: Seq<u64>) -> bool {
    &&& ranges.len() == dims.len()
    &&& forall|d: int|
        0 <= d < dims.len() ==> (#[trigger] ranges[d]).start <= ranges[d].end && ranges[d].end
            <= dims[d]
}

/// What reading the ranges takes.
pub open spec fn can_read_slice(
    layout: LayoutModel,
    dims: Seq<u64>,
    ranges: Seq<std::ops::Range<u64>>,
    elem_size: usize,
) -> bool {
    match chunk_plan(layout, dims.len()) {
        Ok((_, _, shape)) => {
            ranges_fit(ranges, dims) && product(lengths(ranges)) != 0 ==> {
                &&& product(ints64(shape)) * elem_size <= usize::MAX
                &&& can_slice(ints64(shape), ranges, elem_size as int)
            }
        },
        Err(_) => true,
    }
}

/// Whether `r` is what reading the ranges of a chunked dataset gives, with `after` as
/// the cache then. What no chunk holds is the fill value, or zero.
pub open spec fn slice_read(
    file: Seq<u8>,
    layout: LayoutModel,
    dims: Seq<u64>,
    elem_size: usize,
    ranges: Seq<std::ops::Range<u64>>,
    fill: Seq<u8>,
    filter: Filtering,
    before: Map<(u64, usize), Seq<RecordModel>>,
    after: Map<(u64, usize), Seq<RecordModel>>,
    r: Result<Vec<u8>, OxiH5Error>,
) -> bool {
    if !(layout is Chunked) || !ranges_fit(ranges, dims) {
        r is Err && r->Err_0@ == ErrorKind::Format && after == before
    } else if product(lengths(ranges)) == 0 {
        r is Ok && r->Ok_0@ == Seq::<u8>::empty() && after == before
    } else {
        match chunk_plan(layout, dims.len()) {
            Err(kind) => r is Err && r->Err_0@ == kind && after == before,
            Ok((index, address, shape)) => {
                let records = cached_records(before, file, index, address, shape, elem_size);
                &&& after == cache_after(before, address, shape.len(), records)
                &&& match records {
                    Err(kind) => r is Err && r->Err_0@ == kind,
                    Ok(found) => slice_outcome(
                        filter,
                        file,
                        found,
                        ints64(shape),
                        ranges,
                        elem_size as int,
                        fill,
                        r,
                    ),
                }
            },
        }
    }
}

/// Read only the chunks that `ranges` touch, into a buffer of just these ranges in
/// row-major order. What no chunk holds is zero.
pub fn read_chunked_slice<
    P: Fn(&[u8], &FilterPipeline, u32, usize) -> Result<Vec<u8>, OxiH5Error>,
>(
    file_data: &[u8],
    layout: &LayoutInfo,
    pipeline: &FilterPipeline,
    dataset_dims: &[u64],
    elem_size: usize,
    ranges: &[std::ops::Range<u64>],
    cache: &mut ChunkIndexCache,
    apply_pipeline: &P,
) -> (r: Result<Vec<u8>, OxiH5Error>)
    requires
        forall|raw: &[u8], mask: u32|
            apply_pipeline.requires((raw, pipeline, mask, elem_size)),
        can_read_slice(layout@, dataset_dims@, ranges@, elem_size),
    ensures
        slice_read(
            file_data@,
            layout@,
            dataset_dims@,
            elem_size,
            ranges@,
            Seq::empty(),
            filtering_through(*apply_pipeline, *pipeline, elem_size),
            old(cache)@,
            final(cache)@,
            r,
        ),
{
    let none: Vec<u8> = Vec::new();
    proof {
        assert(none@ =~= Seq::empty());
    }
    let params = ChunkSliceParams { elem_size, fill_value: &none };
    read_chunked_slice_filled(
        file_data,
        layout,
        pipeline,
        dataset_dims,
        params,
        ranges,
        cache,
        apply_pipeline,
    )
}

/// What the elements of a part are like: their size, and the value of those that no chunk
/// holds. Without bytes, or with another number of them, that value is zero.
#[derive(Debug, Clone, Copy)]
pub struct ChunkSliceParams<'a> {
    pub elem_size: usize,
    pub fill_value: &'a [u8],
}

/// Read only the chunks that `ranges` touch, into a buffer of just these ranges in
/// row-major order.
pub fn read_chunked_slice_filled<
    P: Fn(&[u8], &FilterPipeline, u32, usize) -> Result<Vec<u8>, OxiH5Error>,
>(
    file_data: &[u8],
    layout: &LayoutInfo,
    pipeline: &FilterPipeline,
    dataset_dims: &[u64],
    params: ChunkSliceParams,
    ranges: &[std::ops::Range<u64>],
    cache: &mut ChunkIndexCache,
    apply_pipeline: &P,
) -> (r: Result<Vec<u8>, OxiH5Error>)
    requires
        forall|raw: &[u8], mask: u32|
            apply_pipeline.requires((raw, pipeline, mask, params.elem_size)),
        can_read_slice(layout@, dataset_dims@, ranges@, params.elem_size),
    ensures
        slice_read(
            file_data@,
            layout@,
            dataset_dims@,
            params.elem_size,
            ranges@,
            params.fill_value@,
            filtering_through(*apply_pipeline, *pipeline, params.elem_size),
            old(cache)@,
            final(cache)@,
            r,
        ),
{
    let elem_size: usize = params.elem_size;
    let fill_value: &[u8] = params.fill_value;
    if let LayoutInfo::Chunked { .. } = layout {
    } else {
        return Err(OxiH5Error::Format("read_chunked_slice: layout is not chunked".to_string()));
    }
    let ndims: usize = dataset_dims.len();
    if ranges.len() != ndims {
        return Err(
            OxiH5Error::Format(
                text(
                    &[
                        "read_chunked_slice: ",
                        &ranges.len().to_string(),
                        " ranges for ",
                        &ndims.to_string(),
                        " dimensions",
                    ],
                ),
            ),
        );
    }
    let mut empty: bool = false;
    for d in 0..ndims
        invariant
            ndims == dataset_dims@.len() == ranges@.len(),
            forall|k: int|
                0 <= k < d ==> (#[trigger] ranges@[k]).start <= ranges@[k].end && ranges@[k].end
                    <= dataset_dims@[k],
            empty ==> exists|k: int| 0 <= k < d && #[trigger] lengths(ranges@)[k] == 0,
            !empty ==> forall|k: int| 0 <= k < d ==> #[trigger] lengths(ranges@)[k] > 0,
    {
        if ranges[d].start > ranges[d].end {
            assert(!ranges_fit(ranges@, dataset_dims@)) by {
                assert(ranges@[d as int].start > ranges@[d as int].end);
            }
            return Err(
                OxiH5Error::Format(
                    text(
                        &[
                            "read_chunked_slice: range ",
                            &ranges[d].start.to_string(),
                            "..",
                            &ranges[d].end.to_string(),
                            " is invalid (start > end) for dim ",
                            &d.to_string(),
                        ],
                    ),
                ),
            );
        }
        if ranges[d].end > dataset_dims[d] {
            assert(!ranges_fit(ranges@, dataset_dims@)) by {
                assert(ranges@[d as int].end > dataset_dims@[d as int]);
            }
            return Err(
                OxiH5Error::Format(
                    text(
                        &[
                            "read_chunked_slice: range ",
                            &ranges[d].start.to_string(),
                            "..",
                            &ranges[d].end.to_string(),
                            " out of bounds for dim ",
                            &d.to_string(),
                            " (size ",
                            &dataset_dims[d].to_string(),
                            ")",
                        ],
                    ),
                ),
            );
        }
        assert(lengths(ranges@)[d as int] == ranges@[d as int].end - ranges@[d as int].start);
        if ranges[d].start == ranges[d].end {
            empty = true;
        }
    }
    if empty {
        let out: Vec<u8> = Vec::new();
        proof {
            let k = choose|k: int| 0 <= k < ndims && #[trigger] lengths(ranges@)[k] == 0;
            crate::dims::lemma_product_zero(lengths(ranges@), k);
            assert(out@ =~= Seq::empty());
        }
        return Ok(out);
    }
    proof {
        crate::dims::lemma_product_positive(lengths(ranges@));
    }
    let (index, address, shape) = plan_chunks(layout, ndims)?;
    let records = load_records(file_data, index, address, &shape, elem_size, cache)?;
    let decode = |raw: &[u8], mask: u32| -> (out: Result<Vec<u8>, OxiH5Error>)
        ensures
            filtering_through(*apply_pipeline, *pipeline, elem_size)(raw@, mask, content(out)),
        { apply_filters_to_chunk(raw, mask, Some(pipeline), elem_size, apply_pipeline) };
    let r = assemble_chunks_slice_filled(
        &records,
        file_data,
        &shape,
        dataset_dims,
        elem_size,
        fill_value,
        ranges,
        decode,
    );
    proof {
        lemma_slice_outcome_weaker(
            filtering_of(decode),
            filtering_through(*apply_pipeline, *pipeline, elem_size),
            file_data@,
            views(records@),
            ints64(shape@),
            ranges@,
            elem_size as int,
            fill_value@,
            r,
        );
    }
    r
}

/// Whether every stride of data of these extents is a `usize`.
fn strides_are_usize(dims: &[u64]) -> (r: bool)
    ensures
        r == strides_fit(ints64(dims@)),
{
    let n: usize = dims.len();
    let ghost all = ints64(dims@);
    for d in 0..n
        invariant
            n == dims@.len(),
            all == ints64(dims@),
            forall|k: int| 0 <= k < d ==> #[trigger] stride(all, k) <= usize::MAX,
    {
        let rest = vstd::slice::slice_subrange(dims, d + 1, n);
        proof {
            assert(ints64(rest@) =~= all.skip(d + 1));
            assert(stride(all, d as int) == product(ints64(rest@)));
        }
        if exact_total64(rest).is_none() {
            return false;
        }
    }
    true
}

/// Whether the product of the extents and an element size is a `usize`, with the
/// product.
fn bytes_are_usize(dims: &[u64], elem_size: usize) -> (r: Option<usize>)
    ensures
        match r {
            Some(n) => n == product(ints64(dims@)) && n * elem_size <= usize::MAX,
            None => product(ints64(dims@)) > usize::MAX || product(ints64(dims@)) * elem_size
                > usize::MAX,
        },
{
    match exact_total64(dims) {
        None => None,
        Some(n) => match n.checked_mul(elem_size) {
            None => None,
            Some(_) => Some(n),
        },
    }
}

/// Whether a whole chunked dataset can be read: its sizes are machine numbers.
pub fn is_readable(layout: &LayoutInfo, dataset_dims: &[u64], elem_size: usize) -> (r: bool)
    ensures
        r == can_read(layout@, dataset_dims@, elem_size),
{
    match plan_chunks(layout, dataset_dims.len()) {
        Err(_) => true,
        Ok((_, _, shape)) => {
            proof {
                lemma_chunk_shape_len(layout@, dataset_dims@.len());
                lemma_product_non_negative(ints64(dataset_dims@));
            }
            if bytes_are_usize(&shape, elem_size).is_none() {
                return false;
            }
            if elem_size == 0 {
                return true;
            }
            proof {
                let n = product(ints64(dataset_dims@));
                assert(n * elem_size >= n) by (nonlinear_arith)
                    requires
                        n >= 0,
                        elem_size >= 1,
                ;
            }
            strides_are_usize(&shape) && strides_are_usize(dataset_dims) && bytes_are_usize(
                dataset_dims,
                elem_size,
            ).is_some()
        },
    }
}

pub proof fn lemma_chunk_shape_len(layout: LayoutModel, ndims: nat)
    ensures
        chunk_plan(layout, ndims) is Ok ==> chunk_plan(layout, ndims)->Ok_0.2.len() == ndims,
{
}

/// Whether ranges of a chunked dataset can be read: the sizes are machine numbers.
pub fn is_slice_readable(
    layout: &LayoutInfo,
    dataset_dims: &[u64],
    ranges: &[std::ops::Range<u64>],
    elem_size: usize,
) -> (r: bool)
    ensures
        r == can_read_slice(layout@, dataset_dims@, ranges@, elem_size),
{
    let ndims: usize = dataset_dims.len();
    let (_, _, shape) = match plan_chunks(layout, ndims) {
        Err(_) => {
            return true;
        },
        Ok(plan) => plan,
    };
    proof {
        lemma_chunk_shape_len(layout@, dataset_dims@.len());
    }
    if ranges.len() != ndims {
        return true;
    }
    let mut wide: Vec<u64> = Vec::new();
    let ghost all = lengths(ranges@);
    for d in 0..ndims
        invariant
            ndims == dataset_dims@.len() == ranges@.len(),
            all == lengths(ranges@),
            forall|k: int|
                0 <= k < d ==> (#[trigger] ranges@[k]).start <= ranges@[k].end && ranges@[k].end
                    <= dataset_dims@[k],
            wide@.len() == d,
            forall|k: int| 0 <= k < d ==> #[trigger] wide@[k] == all[k],
    {
        if ranges[d].start > ranges[d].end || ranges[d].end > dataset_dims[d] {
            assert(!ranges_fit(ranges@, dataset_dims@)) by {
                let bad = ranges@[d as int];
                assert(bad.start > bad.end || bad.end > dataset_dims@[d as int]);
            }
            return true;
        }
        wide.push(ranges[d].end - ranges[d].start);
    }
    proof {
        assert(ints64(wide@) =~= all);
        lemma_product_non_negative(all);
        assert(ranges_fit(ranges@, dataset_dims@));
    }
    let count: Option<usize> = exact_total64(&wide);
    if count == Some(0) {
        return true;
    }
    if bytes_are_usize(&wide, elem_size).is_none() {
        return false;
    }
    let mut flat: bool = false;
    for d in 0..ndims
        invariant
            ndims == shape@.len(),
            flat ==> exists|k: int| 0 <= k < d && #[trigger] ints64(shape@)[k] == 0,
            !flat ==> forall|k: int| 0 <= k < d ==> 0 < #[trigger] ints64(shape@)[k],
    {
        assert(ints64(shape@)[d as int] == shape@[d as int]);
        if shape[d] == 0 {
            flat = true;
        }
    }
    !flat && bytes_are_usize(&shape, elem_size).is_some()
}

} // verus!
