//! Chunked datasets: where their elements come from.

use vstd::prelude::*;
use crate::bytes::le_bytes;
use crate::chunk_reader::{
    cached_records, chunk_plan, filtering_through, whole_read, ChunkIndex,
};
use crate::chunk_record::{ChunkRecord, RecordModel};
use crate::chunked::{
    all_decode, assembled, decodes_to, decoding_fails, disjoint, fails_after,
    law_element_of_disjoint_chunk, lemma_assembled_len, lemma_covers, minus, on_grid, origin_of,
};
use crate::dims::{
    in_box, ints64, law_rank_then_unrank, lemma_product_positive, product, rank,
};
use crate::error::{outcomes, ErrorKind, OxiH5Error};
use crate::fa_index::{fixed_array_records, grid_fits, grid_offsets, law_fixed_array_positions};
use crate::laws::chunk_indexes::{
    fixed_element, holds_fixed_array, kept, lemma_fixed_array, lemma_fixed_records, Stored,
};
use crate::laws::spelling::{piece, runs};
use crate::object::{FilterPipeline, LayoutModel};

verus! {

/// Chunks on a grid, each at its own place, do not overlap.
pub proof fn law_grid_chunks_are_disjoint(records: Seq<RecordModel>, chunk: Seq<int>)
    requires
        forall|d: int| 0 <= d < chunk.len() ==> 0 < #[trigger] chunk[d],
        forall|i: int|
            0 <= i < records.len() ==> (#[trigger] records[i]).offsets.len() >= chunk.len(),
        forall|i: int|
            0 <= i < records.len() ==> on_grid(
                origin_of(#[trigger] records[i], chunk.len()),
                chunk,
            ),
        forall|i: int, j: int|
            0 <= i < j < records.len() ==> origin_of(#[trigger] records[i], chunk.len())
                != origin_of(#[trigger] records[j], chunk.len()),
    ensures
        disjoint(records, chunk),
{
    assert forall|i: int, j: int, c: Seq<int>|
        0 <= i < records.len() && 0 <= j < records.len() && i != j && in_box(
            chunk,
            #[trigger] minus(c, origin_of(records[i], chunk.len())),
        ) implies !in_box(chunk, #[trigger] minus(c, origin_of(records[j], chunk.len()))) by {
        let a = origin_of(records[i], chunk.len());
        let b = origin_of(records[j], chunk.len());
        if in_box(chunk, minus(c, b)) {
            assert(records[i].offsets.len() >= chunk.len() && records[j].offsets.len()
                >= chunk.len());
            assert(c.len() == chunk.len());
            lemma_covers(c, a, chunk);
            lemma_covers(c, b, chunk);
            assert(a == b);
        }
    }
}

/// Without filters, every element is the bytes of the file at the address of the chunk that
/// covers it, behind the elements of the chunk that come before it in row-major order.
pub proof fn law_unfiltered_element<
    P: Fn(&[u8], &FilterPipeline, u32, usize) -> Result<Vec<u8>, OxiH5Error>,
>(
    file: Seq<u8>,
    layout: LayoutModel,
    dims: Seq<u64>,
    es: usize,
    apply: P,
    pipeline: FilterPipeline,
    before: Map<(u64, usize), Seq<RecordModel>>,
    after: Map<(u64, usize), Seq<RecordModel>>,
    r: Result<Vec<u8>, OxiH5Error>,
    index: ChunkIndex,
    address: u64,
    shape: Seq<u64>,
    records: Seq<RecordModel>,
    k: int,
    c: Seq<int>,
    b: int,
)
    requires
        pipeline.filters@.len() == 0,
        whole_read(
            file,
            layout,
            dims,
            es,
            filtering_through(apply, pipeline, es),
            before,
            after,
            r,
        ),
        chunk_plan(layout, dims.len()) == Ok::<(ChunkIndex, u64, Seq<u64>), ErrorKind>(
            (index, address, shape),
        ),
        cached_records(before, file, index, address, shape, es) == Ok::<
            Seq<RecordModel>,
            ErrorKind,
        >(records),
        shape.len() == dims.len(),
        forall|d: int| 0 <= d < shape.len() ==> 0 < #[trigger] shape[d],
        disjoint(records, ints64(shape)),
        forall|i: int|
            0 <= i < records.len() ==> {
                &&& (#[trigger] records[i]).offsets.len() >= dims.len()
                &&& records[i].size == product(ints64(shape)) * es
                &&& records[i].address + records[i].size <= file.len()
            },
        0 <= k < records.len(),
        in_box(ints64(dims), c),
        in_box(ints64(shape), minus(c, origin_of(records[k], dims.len()))),
        0 <= b < es,
    ensures
        r is Ok,
        r->Ok_0@.len() == product(ints64(dims)) * es,
        r->Ok_0@[rank(ints64(dims), c) * es + b] == file[records[k].address + rank(
            ints64(shape),
            minus(c, origin_of(records[k], dims.len())),
        ) * es + b],
{
    let filter = filtering_through(apply, pipeline, es);
    let all = ints64(dims);
    let chunk = ints64(shape);
    let n = records.len();
    assert(records[k].size == product(chunk) * es);
    assert forall|d: int| 0 <= d < chunk.len() implies 0 < #[trigger] chunk[d] by {
        assert(0 < shape[d]);
    }
    lemma_product_positive(chunk);
    let local = minus(c, origin_of(records[k], dims.len()));
    law_rank_then_unrank(chunk, local);
    law_rank_then_unrank(all, c);
    let e = rank(chunk, local);
    let p = product(chunk);
    let f = rank(all, c);
    let t = product(all);
    assert((e + 1) * es <= p * es && e * es >= 0 && (e + 1) * es == e * es + es && t * es >= 0)
        by (nonlinear_arith)
        requires
            0 <= e < p,
            0 <= f < t,
            es > 0,
    ;
    match r {
        Ok(out) => {
            let decoded = choose|decoded: Seq<Seq<u8>>|
                #[trigger] all_decode(filter, file, records, decoded, n, dims.len()) && out@
                    == assembled(records, decoded, n, chunk, all, es as int);
            assert(decodes_to(filter, file, records[k], decoded[k]));
            let rec = records[k];
            assert(rec.address + rec.size <= file.len());
            assert(decoded[k] == file.subrange(rec.address as int, rec.address + rec.size));
            law_element_of_disjoint_chunk(records, decoded, chunk, all, es as int, c, b, k);
            lemma_assembled_len(records, decoded, n, chunk, all, es as int);
        },
        Err(err) => {
            let (decoded, q) = choose|decoded: Seq<Seq<u8>>, q: nat| #[trigger]
                fails_after(filter, file, records, decoded, q, dims.len(), err);
            assert(records[q as int].offsets.len() >= dims.len());
            assert(decoding_fails(filter, file, records[q as int], err));
        },
    }
}

/// Where an entry with an address stands among the chunks that are kept.
proof fn lemma_kept_at(
    stored: Seq<Stored>,
    place: spec_fn(int) -> Seq<u64>,
    k: nat,
    i: int,
) -> (at: int)
    requires
        0 <= i < k <= stored.len(),
        stored[i].address != u64::MAX,
    ensures
        0 <= at < kept(stored, place, k).len(),
        kept(stored, place, k)[at] == (RecordModel {
            address: stored[i].address,
            size: stored[i].size,
            filter_mask: stored[i].filter_mask,
            offsets: place(i),
        }),
    decreases k,
{
    if i == k - 1 {
        kept(stored, place, i as nat).len() as int
    } else {
        lemma_kept_at(stored, place, (k - 1) as nat, i)
    }
}

/// Every kept chunk is that of an entry.
proof fn lemma_kept_from(
    stored: Seq<Stored>,
    place: spec_fn(int) -> Seq<u64>,
    k: nat,
    at: int,
) -> (i: int)
    requires
        k <= stored.len(),
        0 <= at < kept(stored, place, k).len(),
    ensures
        0 <= i < k,
        stored[i].address != u64::MAX,
        kept(stored, place, k)[at] == (RecordModel {
            address: stored[i].address,
            size: stored[i].size,
            filter_mask: stored[i].filter_mask,
            offsets: place(i),
        }),
    decreases k,
{
    let front = kept(stored, place, (k - 1) as nat);
    if at == front.len() {
        k - 1
    } else {
        lemma_kept_from(stored, place, (k - 1) as nat, at)
    }
}

/// An element of a dataset that an unfiltered fixed array indexes is the bytes of the file
/// at the address in the array, behind the elements of the chunk that come before it in
/// row-major order.
pub proof fn law_element_through_fixed_array<
    P: Fn(&[u8], &FilterPipeline, u32, usize) -> Result<Vec<u8>, OxiH5Error>,
>(
    file: Seq<u8>,
    address: u64,
    shape: Seq<u64>,
    dims: Seq<u64>,
    rank_byte: u8,
    es: usize,
    apply: P,
    pipeline: FilterPipeline,
    before: Map<(u64, usize), Seq<RecordModel>>,
    after: Map<(u64, usize), Seq<RecordModel>>,
    r: Result<Vec<u8>, OxiH5Error>,
    addresses: Seq<u64>,
    elements: Seq<u8>,
    i: int,
    c: Seq<int>,
    b: int,
)
    requires
        file.len() <= usize::MAX,
        shape.len() == dims.len(),
        0 < dims.len() <= usize::MAX,
        forall|d: int| 0 <= d < shape.len() ==> 0 < #[trigger] shape[d],
        es > 0,
        product(ints64(shape)) * es <= u32::MAX,
        addresses.len() <= usize::MAX,
        grid_fits(addresses.len(), shape),
        holds_fixed_array(file, address, 0, 8, addresses.len(), elements),
        runs(elements, addresses.len(), 8),
        forall|q: int|
            0 <= q < addresses.len() ==> piece(elements, q, 8) == le_bytes(
                #[trigger] addresses[q] as nat,
                8,
            ),
        forall|q: int|
            0 <= q < addresses.len() && #[trigger] addresses[q] != u64::MAX ==> addresses[q]
                + product(ints64(shape)) * es <= file.len(),
        pipeline.filters@.len() == 0,
        !before.contains_key((address, dims.len() as usize)),
        whole_read(
            file,
            LayoutModel::Chunked {
                data_address: address,
                dimensionality: rank_byte,
                chunk_dims: shape,
                index_type: 1,
            },
            dims,
            es,
            filtering_through(apply, pipeline, es),
            before,
            after,
            r,
        ),
        0 <= i < addresses.len(),
        addresses[i] != u64::MAX,
        in_box(ints64(dims), c),
        in_box(ints64(shape), minus(c, ints64(grid_offsets(addresses.len(), shape, i)))),
        0 <= b < es,
    ensures
        r is Ok,
        r->Ok_0@.len() == product(ints64(dims)) * es,
        r->Ok_0@[rank(ints64(dims), c) * es + b] == file[addresses[i] + rank(
            ints64(shape),
            minus(c, ints64(grid_offsets(addresses.len(), shape, i))),
        ) * es + b],
{
    let n = addresses.len();
    let chunk = ints64(shape);
    let bytes = (product(chunk) * es) as usize;
    let place = |q: int| grid_offsets(n, shape, q);
    let stored = Seq::new(
        n,
        |q: int| Stored { address: addresses[q], size: bytes as u32, filter_mask: 0 },
    );
    assert forall|d: int| 0 <= d < chunk.len() implies 0 < #[trigger] chunk[d] by {
        assert(0 < shape[d]);
    }
    lemma_product_positive(chunk);
    assert(product(chunk) * es >= 0) by (nonlinear_arith)
        requires
            product(chunk) >= 0,
            es >= 0,
    ;
    let array = lemma_fixed_array(file, address, 0, 8, n, elements);
    assert forall|q: int| 0 <= q < n implies piece(elements, q, 8) == fixed_element(
        #[trigger] stored[q],
        false,
    ) by {
        assert(stored[q].address == addresses[q]);
    }
    lemma_fixed_records(file, array, elements, stored, false, shape, bytes, n);
    let records = kept(stored, place, n);
    assert(fixed_array_records(file, address as int, shape.len(), shape, bytes) == Ok::<
        Seq<RecordModel>,
        ErrorKind,
    >(records));
    law_fixed_array_positions(file, address as int, array, shape, bytes, records);
    assert forall|q: int| 0 <= q < records.len() implies {
        &&& (#[trigger] records[q]).offsets.len() >= dims.len()
        &&& records[q].size == product(chunk) * es
        &&& records[q].address + records[q].size <= file.len()
    } by {
        let from = lemma_kept_from(stored, place, n, q);
        assert(stored[from].address == addresses[from]);
    }
    assert forall|q: int| 0 <= q < records.len() implies on_grid(
        origin_of(#[trigger] records[q], chunk.len()),
        chunk,
    ) by {
        let origin = origin_of(records[q], chunk.len());
        assert forall|d: int| 0 <= d < origin.len() implies #[trigger] origin[d] % chunk[d]
            == 0 by {
            assert(records[q].offsets[d] as int % shape[d] as int == 0);
        }
    }
    assert forall|p: int, q: int| 0 <= p < q < records.len() implies origin_of(
        #[trigger] records[p],
        chunk.len(),
    ) != origin_of(#[trigger] records[q], chunk.len()) by {
        let x = records[p].offsets;
        let y = records[q].offsets;
        assert(crate::fa_index::comes_before(x, y));
        let d = choose|d: int|
            {
                &&& 0 <= d < x.len()
                &&& #[trigger] x[d] < y[d]
                &&& forall|j: int| 0 <= j < d ==> #[trigger] x[j] == y[j]
            };
        let from = lemma_kept_from(stored, place, n, p);
        assert(x.len() == shape.len());
        assert(origin_of(records[p], chunk.len())[d] != origin_of(records[q], chunk.len())[d]);
    }
    law_grid_chunks_are_disjoint(records, chunk);
    let k = lemma_kept_at(stored, place, n, i);
    assert(stored[i].address == addresses[i]);
    let origin = origin_of(records[k], dims.len());
    assert(origin =~= ints64(grid_offsets(n, shape, i)));
    law_unfiltered_element(
        file,
        LayoutModel::Chunked {
            data_address: address,
            dimensionality: rank_byte,
            chunk_dims: shape,
            index_type: 1,
        },
        dims,
        es,
        apply,
        pipeline,
        before,
        after,
        r,
        ChunkIndex::FixedArray,
        address,
        shape,
        records,
        k,
        c,
        b,
    );
}

/// The chunks of a dataset are those which its index lists: a version 1 or version 2 B-tree,
/// a fixed array or an extensible array, as its layout says.
pub proof fn law_chunks_come_from_index(
    cache: Map<(u64, usize), Seq<RecordModel>>,
    file: &[u8],
    index: ChunkIndex,
    address: u64,
    shape: &[u64],
    es: usize,
    bytes: usize,
    tree: Result<Vec<ChunkRecord>, OxiH5Error>,
    array: Result<Vec<ChunkRecord>, OxiH5Error>,
    growing: Result<Vec<ChunkRecord>, OxiH5Error>,
    late_tree: Result<Vec<ChunkRecord>, OxiH5Error>,
)
    requires
        !cache.contains_key((address, shape@.len() as usize)),
        bytes == product(ints64(shape@)) * es,
        call_ensures(
            crate::btree_v1_chunk::parse,
            (file, address, shape@.len() as usize),
            tree,
        ),
        call_ensures(
            crate::fa_index::parse_fixed_array_v4,
            (file, address, shape@.len() as usize, shape, bytes),
            array,
        ),
        call_ensures(
            crate::ea_index::parse_extensible_array,
            (file, address, shape@.len() as usize),
            growing,
        ),
        call_ensures(
            crate::btree_v2::parse_chunks,
            (file, address, shape@.len() as usize, shape, bytes),
            late_tree,
        ),
    ensures
        cached_records(cache, file@, index, address, shape@, es) == match index {
            ChunkIndex::BTreeV1 => outcomes(tree),
            ChunkIndex::FixedArray => outcomes(array),
            ChunkIndex::ExtensibleArray => outcomes(growing),
            ChunkIndex::BTreeV2 => outcomes(late_tree),
        },
{
    assert(shape.len() <= usize::MAX);
}

} // verus!
