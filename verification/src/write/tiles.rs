//! Chunks as they are stored: the elements of a dataset, cut up along a grid.
//!
//! Every chunk of the grid that holds an element is stored as a whole; what lies behind
//! the extents of the dataset is zero. A filter is applied to each chunk on its own.

use vstd::prelude::*;
use crate::bytes::{push_zeros, zeros};
use crate::chunk_record::{ChunkRecord, RecordModel};
use crate::chunked::{
    cell_counts, cell_origin, forward, lengths, minus, scatter_chunk_slice, scattered, starts,
};
use crate::dims::{
    exact_total, exact_total64, flat_to_coords, in_box, ints, ints64, law_strides_unrank,
    law_unrank_then_rank, lemma_product_non_negative, lemma_product_positive, lemma_product_zero,
    lemma_strides_fit, non_negative, product, row_major_strides, strides_of, unrank,
};
use crate::dtype::views;
use crate::error::{outcome, text, ErrorKind, OxiH5Error};
use crate::filters::{compress, compressed};
use crate::global_heap::align8;
use crate::write::attr::padded;
use crate::write::chunked::{records_of_rank, MAX_CHUNKS};
use crate::write::elem::byte_size_of;
use crate::write::messages::full_chunk_shape;
use crate::write::tree::{DatasetDesc, Filter};

verus! {

/// All of a dataset as one range per dimension.
pub open spec fn whole_ranges(shape: Seq<usize>) -> Seq<std::ops::Range<u64>> {
    Seq::new(shape.len(), |d: int| std::ops::Range { start: 0u64, end: shape[d] as u64 })
}

/// The extents of the chunks of a dataset.
pub open spec fn chunk_extents(ds: DatasetDesc) -> Seq<int> {
    Seq::new(full_chunk_shape(ds).len(), |d: int| full_chunk_shape(ds)[d] as int)
}

/// How many chunks of the grid hold elements, along each dimension.
pub open spec fn chunk_counts(ds: DatasetDesc) -> Seq<int> {
    cell_counts(whole_ranges(ds.shape@), chunk_extents(ds))
}

/// How many chunks a dataset has.
pub open spec fn chunk_count(ds: DatasetDesc) -> nat {
    product(chunk_counts(ds)) as nat
}

/// Where the chunk at place `k` starts.
pub open spec fn chunk_start(ds: DatasetDesc, k: int) -> Seq<int> {
    cell_origin(whole_ranges(ds.shape@), chunk_extents(ds), k)
}

/// The bytes of a chunk before any filter.
pub open spec fn tile_size(ds: DatasetDesc) -> nat {
    (product(chunk_extents(ds)) * byte_size_of(ds.elem_type)) as nat
}

/// The chunk at place `k` of a dataset with these elements: zeros, with what the dataset
/// has there copied over them.
pub open spec fn tile(ds: DatasetDesc, data: Seq<u8>, k: int) -> Seq<u8> {
    scattered(
        zeros(tile_size(ds)),
        Seq::new(ds.shape@.len(), |d: int| -chunk_start(ds, k)[d]),
        data,
        ints(ds.shape@),
        chunk_extents(ds),
        byte_size_of(ds.elem_type) as int,
    )
}

/// What is stored of the chunk at place `k`.
pub open spec fn stored_chunk(ds: DatasetDesc, data: Seq<u8>, k: int) -> Result<
    Seq<u8>,
    ErrorKind,
> {
    match ds.filter {
        None => Ok(tile(ds, data, k)),
        Some(Filter::Deflate { level }) => compressed(tile(ds, data, k), level),
    }
}

/// How many bytes are stored of the chunk at place `k`.
pub open spec fn stored_size(ds: DatasetDesc, k: int) -> nat {
    match ds.filter {
        None => tile_size(ds),
        Some(_) => stored_chunk(ds, ds.raw@, k)->Ok_0.len(),
    }
}

/// The bytes that the first `n` chunks take, each padded to a multiple of 8.
pub open spec fn chunks_size(ds: DatasetDesc, n: nat) -> nat
    decreases n,
{
    if n == 0 {
        0
    } else {
        (chunks_size(ds, (n - 1) as nat) + align8(stored_size(ds, n - 1) as int)) as nat
    }
}

/// The records of the chunks of a dataset that are stored from `from` on.
pub open spec fn chunk_records(ds: DatasetDesc, from: nat) -> Seq<RecordModel> {
    Seq::new(
        chunk_count(ds),
        |k: int|
            RecordModel {
                address: (from + chunks_size(ds, k as nat)) as u64,
                size: stored_size(ds, k) as u32,
                filter_mask: 0,
                offsets: Seq::new(ds.shape@.len(), |d: int| chunk_start(ds, k)[d] as u64),
            },
    )
}

/// What is stored of the first `n` chunks, each padded to a multiple of 8.
pub open spec fn chunks_image(ds: DatasetDesc, data: Seq<u8>, n: nat) -> Seq<u8>
    decreases n,
{
    if n == 0 {
        Seq::empty()
    } else {
        chunks_image(ds, data, (n - 1) as nat) + padded(stored_chunk(ds, data, n - 1)->Ok_0)
    }
}

/// Whether the chunks of a dataset form a grid that can be stored: every chunk has
/// elements and a size that its field can say, there are not too many of them, and the
/// elements fill the shape. References to strings are not filtered.
pub open spec fn grid_fits(ds: DatasetDesc) -> bool {
    &&& full_chunk_shape(ds).len() > 0
    &&& forall|d: int|
        0 <= d < full_chunk_shape(ds).len() ==> #[trigger] full_chunk_shape(ds)[d] != 0
    &&& ds.data_size() <= usize::MAX
    &&& ds.data_size() == product(ints(ds.shape@)) * byte_size_of(ds.elem_type)
    &&& tile_size(ds) <= u32::MAX
    &&& chunk_count(ds) <= MAX_CHUNKS
    &&& ds.filter is Some ==> ds.vlen_strings is None
}

/// Whether the chunk at place `k` passes the filter with a size that its field can say.
pub open spec fn chunk_fits(ds: DatasetDesc, k: int) -> bool {
    &&& stored_chunk(ds, ds.raw@, k) is Ok
    &&& stored_size(ds, k) <= u32::MAX
}

/// Whether the chunks of a dataset can be stored.
pub open spec fn chunks_fit(ds: DatasetDesc) -> bool {
    &&& grid_fits(ds)
    &&& forall|k: int| 0 <= k < chunk_count(ds) ==> #[trigger] chunk_fits(ds, k)
}

/// The grid of the chunks of a dataset.
pub struct Grid {
    /// The extents of the dataset.
    pub shape: Vec<u64>,
    /// The extents of a chunk.
    pub chunk: Vec<u64>,
    /// The strides of the places of chunks.
    pub strides: Vec<usize>,
    /// How many chunks there are.
    pub count: usize,
    /// The bytes of a chunk.
    pub tile_size: usize,
}

impl Grid {
    /// Whether this is the grid of `ds`.
    pub open spec fn of(self, ds: DatasetDesc) -> bool {
        &&& grid_fits(ds)
        &&& ds.shape@.len() == full_chunk_shape(ds).len()
        &&& ints64(self.shape@) == ints(ds.shape@)
        &&& ints64(self.chunk@) == chunk_extents(ds)
        &&& chunk_count(ds) > 0 ==> ints(self.strides@) == strides_of(chunk_counts(ds))
        &&& self.strides@.len() == ds.shape@.len()
        &&& self.count == chunk_count(ds)
        &&& self.tile_size == tile_size(ds)
    }
}

/// How many chunks lie along a dimension.
proof fn lemma_count_along(extent: int, chunk: int)
    requires
        0 <= extent,
        0 < chunk,
    ensures
        0int / chunk == 0,
        extent == 0 ==> (extent - 1) / chunk + 1 == 0,
        extent > 0 ==> 0 <= (extent - 1) / chunk < extent,
{
    assert(0int / chunk == 0) by (nonlinear_arith)
        requires
            0 < chunk,
    ;
    if extent == 0 {
        assert(-1int / chunk == -1) by (nonlinear_arith)
            requires
                0 < chunk,
        ;
    } else {
        assert(0 <= (extent - 1) / chunk <= extent - 1) by (nonlinear_arith)
            requires
                0 < extent,
                0 < chunk,
        ;
    }
}

/// The counts of chunks are not negative, and none is zero where there is a chunk.
pub proof fn lemma_counts(ds: DatasetDesc)
    requires
        grid_fits(ds),
        ds.shape@.len() == full_chunk_shape(ds).len(),
    ensures
        non_negative(chunk_counts(ds)),
        product(chunk_counts(ds)) >= 0,
        forall|d: int| 0 <= d < ds.shape@.len() ==> 0 < #[trigger] chunk_extents(ds)[d],
        chunk_count(ds) > 0 ==> forall|d: int|
            0 <= d < ds.shape@.len() ==> 0 < #[trigger] ints(ds.shape@)[d],
        chunk_count(ds) > 0 ==> forall|d: int|
            0 <= d < ds.shape@.len() ==> 0 < #[trigger] chunk_counts(ds)[d],
{
    let counts = chunk_counts(ds);
    let chunk = chunk_extents(ds);
    assert forall|d: int| 0 <= d < ds.shape@.len() implies 0 < #[trigger] chunk[d] by {
        assert(full_chunk_shape(ds)[d] != 0);
    }
    assert forall|d: int| 0 <= d < counts.len() implies 0 <= #[trigger] counts[d] by {
        assert(0 < chunk[d]);
        lemma_count_along(ds.shape@[d] as int, chunk[d]);
    }
    lemma_product_non_negative(counts);
    if chunk_count(ds) > 0 {
        assert forall|d: int| 0 <= d < ds.shape@.len() implies 0 < #[trigger] counts[d] by {
            if counts[d] == 0 {
                lemma_product_zero(counts, d);
            }
        }
        assert forall|d: int| 0 <= d < ds.shape@.len() implies 0 < #[trigger] ints(ds.shape@)[d] by {
            assert(0 < counts[d]);
            assert(0 < chunk[d]);
            lemma_count_along(ds.shape@[d] as int, chunk[d]);
        }
    }
}

fn refused(ds: &DatasetDesc, why: &str) -> (r: OxiH5Error)
    ensures
        r@ == ErrorKind::Format,
{
    OxiH5Error::Format(text(&["dataset '", ds.name.as_str(), "': ", why]))
}

/// The extents of the chunks of a dataset, and of the grid that they form.
fn grid_extents(ds: &DatasetDesc, chunk_shape: &[usize]) -> (r: Option<
    (Vec<u64>, Vec<u64>, Vec<u64>),
>)
    requires
        ds.storage is Chunked,
        ds.storage->chunk_shape@ == chunk_shape@,
    ensures
        match r {
            Some((shape, chunk, counts)) => {
                &&& forall|d: int|
                    0 <= d < full_chunk_shape(*ds).len() ==> #[trigger] full_chunk_shape(*ds)[d]
                        != 0
                &&& ints64(shape@) == ints(ds.shape@)
                &&& ints64(chunk@) == chunk_extents(*ds)
                &&& ints64(counts@) == chunk_counts(*ds)
            },
            None => exists|d: int|
                0 <= d < full_chunk_shape(*ds).len() && #[trigger] full_chunk_shape(*ds)[d] == 0,
        },
{
    let ghost full = full_chunk_shape(*ds);
    let n: usize = ds.shape.len();
    let mut shape: Vec<u64> = Vec::new();
    let mut chunk: Vec<u64> = Vec::new();
    let mut counts: Vec<u64> = Vec::new();
    for d in 0..n
        invariant
            n == ds.shape@.len(),
            ds.storage is Chunked,
            chunk_shape@ == ds.storage->chunk_shape@,
            full == full_chunk_shape(*ds),
            full.len() == n,
            shape@.len() == d,
            chunk@.len() == d,
            counts@.len() == d,
            forall|k: int| 0 <= k < d ==> #[trigger] full[k] != 0,
            forall|k: int| 0 <= k < d ==> #[trigger] shape@[k] == ds.shape@[k],
            forall|k: int| 0 <= k < d ==> #[trigger] chunk@[k] == full[k],
            forall|k: int| 0 <= k < d ==> #[trigger] counts@[k] == chunk_counts(*ds)[k],
    {
        let extent: usize = if d < chunk_shape.len() {
            chunk_shape[d]
        } else {
            ds.shape[d]
        };
        assert(full[d as int] == extent);
        if extent == 0 {
            return None;
        }
        let all: usize = ds.shape[d];
        proof {
            lemma_count_along(all as int, extent as int);
            assert(chunk_extents(*ds)[d as int] == extent);
            assert(whole_ranges(ds.shape@)[d as int].end == all);
        }
        let count: usize = if all == 0 {
            0
        } else {
            (all - 1) / extent + 1
        };
        shape.push(all as u64);
        chunk.push(extent as u64);
        counts.push(count as u64);
    }
    proof {
        assert(ints64(shape@) =~= ints(ds.shape@));
        assert(ints64(chunk@) =~= chunk_extents(*ds));
        assert(ints64(counts@) =~= chunk_counts(*ds));
    }
    Some((shape, chunk, counts))
}

/// Whether the number of elements that a shape asks for is there.
fn fills_shape(ds: &DatasetDesc) -> (r: bool)
    ensures
        r <==> ds.data_size() <= usize::MAX && ds.data_size() == product(ints(ds.shape@))
            * byte_size_of(ds.elem_type),
{
    let es: usize = ds.elem_type.byte_size();
    let found: Option<usize> = match &ds.vlen_strings {
        Some(strings) => strings.len().checked_mul(16),
        None => Some(ds.raw.len()),
    };
    let ghost p = product(ints(ds.shape@));
    proof {
        lemma_product_non_negative(ints(ds.shape@));
        assert(p <= p * es) by (nonlinear_arith)
            requires
                p >= 0,
                es >= 1,
        ;
    }
    match (found, exact_total(&ds.shape)) {
        (Some(found), Some(total)) => match total.checked_mul(es) {
            Some(wanted) => found == wanted,
            None => false,
        },
        _ => false,
    }
}

/// The grid of the chunks of a dataset, if they can be stored.
pub fn plan_grid(ds: &DatasetDesc) -> (r: Result<Grid, OxiH5Error>)
    requires
        ds.storage is Chunked,
    ensures
        match r {
            Ok(grid) => grid.of(*ds),
            Err(e) => !grid_fits(*ds) && e@ == ErrorKind::Format,
        },
{
    let chunk_shape: &[usize] = match ds.chunked() {
        Some((chunk_shape, _)) => chunk_shape,
        None => {
            return Err(refused(ds, "no chunks"));
        },
    };
    if ds.shape.len() == 0 {
        return Err(refused(ds, "a chunked dataset needs a dimension"));
    }
    let (shape, chunk, counts) = match grid_extents(ds, chunk_shape) {
        Some(extents) => extents,
        None => {
            return Err(refused(ds, "a chunk extent is zero"));
        },
    };
    if ds.filter.is_some() && ds.vlen_strings.is_some() {
        return Err(refused(ds, "references to strings are not compressed"));
    }
    if !fills_shape(ds) {
        return Err(refused(ds, "the elements do not fill the shape"));
    }
    let es: usize = ds.elem_type.byte_size();
    let ghost p = product(chunk_extents(*ds));
    proof {
        assert forall|d: int| 0 <= d < chunk@.len() implies 0 <= #[trigger] ints64(chunk@)[d] by {}
        lemma_product_non_negative(ints64(chunk@));
        assert(p <= p * es) by (nonlinear_arith)
            requires
                p >= 0,
                es >= 1,
        ;
    }
    let size: Option<usize> = match exact_total64(&chunk) {
        Some(total) => total.checked_mul(es),
        None => None,
    };
    let tile_size: usize = match size {
        Some(size) => size,
        None => {
            return Err(refused(ds, "the chunk is too large for its on-disk field"));
        },
    };
    if tile_size > 0xffff_ffff {
        return Err(refused(ds, "the chunk is too large for its on-disk field"));
    }
    proof {
        assert forall|d: int| 0 <= d < counts@.len() implies 0 <= #[trigger] ints64(counts@)[d] by {}
        lemma_product_non_negative(ints64(counts@));
    }
    let count: usize = match exact_total64(&counts) {
        Some(count) => count,
        None => {
            return Err(refused(ds, "too many chunks"));
        },
    };
    if count > MAX_CHUNKS {
        return Err(refused(ds, "too many chunks"));
    }
    if count == 0 {
        let mut strides: Vec<usize> = Vec::new();
        for d in 0..counts.len()
            invariant
                strides@.len() == d,
        {
            strides.push(1);
        }
        return Ok(Grid { shape, chunk, strides, count, tile_size });
    }
    proof {
        lemma_counts(*ds);
        lemma_strides_fit(ints64(counts@));
    }
    let strides: Vec<usize> = row_major_strides(&counts);
    Ok(Grid { shape, chunk, strides, count, tile_size })
}

/// No factor is greater than a product of positive ones.
proof fn lemma_factor(dims: Seq<int>, at: int)
    requires
        0 <= at < dims.len(),
        forall|d: int| 0 <= d < dims.len() ==> 0 < #[trigger] dims[d],
    ensures
        dims[at] <= product(dims),
    decreases dims.len(),
{
    let front = dims.drop_last();
    lemma_product_positive(front);
    if at < front.len() {
        lemma_factor(front, at);
        assert(front[at] == dims[at]);
    }
    assert(0 < dims[dims.len() - 1]);
    let a = product(front);
    let b = dims.last();
    assert(a <= a * b && b <= a * b) by (nonlinear_arith)
        requires
            a >= 1,
            b >= 1,
    ;
}

/// Where a chunk lies.
pub proof fn lemma_chunk_start(ds: DatasetDesc, k: int)
    requires
        grid_fits(ds),
        ds.shape@.len() == full_chunk_shape(ds).len(),
        0 <= k < chunk_count(ds),
    ensures
        chunk_start(ds, k).len() == ds.shape@.len(),
        in_box(chunk_counts(ds), unrank(chunk_counts(ds), k)),
        forall|d: int|
            0 <= d < ds.shape@.len() ==> {
                &&& #[trigger] chunk_start(ds, k)[d] == unrank(chunk_counts(ds), k)[d]
                    * chunk_extents(ds)[d]
                &&& 0 <= chunk_start(ds, k)[d] < ds.shape@[d]
                &&& chunk_start(ds, k)[d] + chunk_extents(ds)[d] <= u64::MAX
            },
{
    let counts = chunk_counts(ds);
    let rel = unrank(counts, k);
    let chunk = chunk_extents(ds);
    lemma_counts(ds);
    law_unrank_then_rank(counts, k);
    assert forall|d: int| 0 <= d < ds.shape@.len() implies {
        &&& #[trigger] chunk_start(ds, k)[d] == rel[d] * chunk[d]
        &&& 0 <= chunk_start(ds, k)[d] < ds.shape@[d]
        &&& chunk_start(ds, k)[d] + chunk[d] <= u64::MAX
    } by {
        assert(0 < chunk[d]);
        assert(0 < counts[d]);
        assert(0 < ints(ds.shape@)[d]);
        assert(0 <= rel[d] < counts[d]);
        let extent = ds.shape@[d] as int;
        lemma_count_along(extent, chunk[d]);
        assert(counts[d] == (extent - 1) / chunk[d] + 1);
        lemma_factor(counts, d);
        lemma_factor(chunk, d);
        let p = product(chunk);
        let es = byte_size_of(ds.elem_type) as int;
        lemma_product_positive(chunk);
        assert(p <= p * es) by (nonlinear_arith)
            requires
                p >= 0,
                es >= 1,
        ;
        let m = chunk[d];
        let x = rel[d];
        vstd::arithmetic::div_mod::lemma_fundamental_div_mod(extent - 1, m);
        assert(0 <= x * m <= extent - 1) by (nonlinear_arith)
            requires
                0 <= x <= (extent - 1) / m,
                extent - 1 == m * ((extent - 1) / m) + (extent - 1) % m,
                0 <= (extent - 1) % m,
                0 < m,
        ;
        assert(x * m <= MAX_CHUNKS * 0xffff_ffff) by (nonlinear_arith)
            requires
                0 <= x <= MAX_CHUNKS,
                0 < m <= 0xffff_ffff,
        ;
        assert((0 + x) * m == x * m);
    }
}

/// The chunk at place `k` of a dataset with these elements.
pub fn cut_tile(ds: &DatasetDesc, grid: &Grid, data: &[u8], k: usize) -> (r: Vec<u8>)
    requires
        grid.of(*ds),
        k < grid.count,
    ensures
        r@ == tile(*ds, data@, k as int),
{
    let es: usize = ds.elem_type.byte_size();
    let n: usize = grid.shape.len();
    let ghost chunk = chunk_extents(*ds);
    let ghost at = chunk_start(*ds, k as int);
    proof {
        assert(ints64(grid.shape@).len() == n);
        assert(ints64(grid.chunk@).len() == grid.chunk@.len());
        lemma_counts(*ds);
        lemma_chunk_start(*ds, k as int);
    }
    let begin: Vec<u64> = start_of(ds, grid, k);
    let mut origin: Vec<u64> = Vec::new();
    let mut ranges: Vec<std::ops::Range<u64>> = Vec::new();
    for d in 0..n
        invariant
            n == ds.shape@.len(),
            n == grid.chunk@.len(),
            n == begin@.len(),
            at == chunk_start(*ds, k as int),
            at == ints64(begin@),
            chunk == chunk_extents(*ds),
            chunk == ints64(grid.chunk@),
            forall|i: int|
                0 <= i < n ==> {
                    &&& #[trigger] at[i] == unrank(chunk_counts(*ds), k as int)[i] * chunk[i]
                    &&& 0 <= at[i] < ds.shape@[i]
                    &&& at[i] + chunk[i] <= u64::MAX
                },
            origin@.len() == d,
            ranges@.len() == d,
            forall|i: int| 0 <= i < d ==> #[trigger] origin@[i] == 0,
            forall|i: int| 0 <= i < d ==> (#[trigger] ranges@[i]).start == at[i],
            forall|i: int| 0 <= i < d ==> (#[trigger] ranges@[i]).end == at[i] + chunk[i],
    {
        let start: u64 = begin[d];
        proof {
            assert(at[d as int] == start);
            assert(chunk[d as int] == grid.chunk@[d as int]);
        }
        ranges.push(start..start + grid.chunk[d]);
        origin.push(0);
    }
    let mut out: Vec<u8> = Vec::new();
    push_zeros(&mut out, grid.tile_size);
    proof {
        assert(out@ =~= zeros(tile_size(*ds)));
        assert(lengths(ranges@) =~= chunk);
        assert(minus(ints64(origin@).take(n as int), starts(ranges@)) =~= Seq::new(
            ds.shape@.len(),
            |d: int| -at[d],
        ));
        assert(forward(ranges@)) by {
            assert forall|d: int| 0 <= d < ranges@.len() implies (#[trigger] ranges@[d]).start
                <= ranges@[d].end by {
                assert(0 < chunk[d]);
            }
        }
        lemma_sizes(*ds);
    }
    match scatter_chunk_slice(&mut out, &origin, data, &grid.shape, &ranges, es) {
        Ok(_) => {},
        Err(_) => {},
    }
    out
}

/// The sizes of a dataset with a chunk are machine numbers.
pub proof fn lemma_sizes(ds: DatasetDesc)
    requires
        grid_fits(ds),
        ds.shape@.len() == full_chunk_shape(ds).len(),
        chunk_count(ds) > 0,
    ensures
        crate::dims::strides_fit(ints(ds.shape@)),
        product(ints(ds.shape@)) <= usize::MAX,
        crate::dims::strides_fit(chunk_extents(ds)),
        product(chunk_extents(ds)) <= u32::MAX,
        product(chunk_extents(ds)) * byte_size_of(ds.elem_type) == tile_size(ds),
{
    let all = ints(ds.shape@);
    let chunk = chunk_extents(ds);
    let es = byte_size_of(ds.elem_type) as int;
    lemma_counts(ds);
    lemma_product_positive(all);
    lemma_product_positive(chunk);
    let p = product(all);
    let q = product(chunk);
    assert(p <= p * es && q <= q * es) by (nonlinear_arith)
        requires
            p >= 0,
            q >= 0,
            es >= 1,
    ;
    lemma_strides_fit(all);
    lemma_strides_fit(chunk);
}

/// What is stored of the chunk at place `k`.
pub fn store_chunk(ds: &DatasetDesc, grid: &Grid, data: &[u8], k: usize) -> (r: Result<
    Vec<u8>,
    OxiH5Error,
>)
    requires
        grid.of(*ds),
        k < grid.count,
    ensures
        outcome(r) == stored_chunk(*ds, data@, k as int),
{
    let part: Vec<u8> = cut_tile(ds, grid, data, k);
    match &ds.filter {
        None => Ok(part),
        Some(Filter::Deflate { level }) => compress(&part, *level),
    }
}

/// How many bytes are stored of each chunk of a dataset, if its chunks can be stored.
pub fn chunk_sizes(ds: &DatasetDesc) -> (r: Result<Vec<usize>, OxiH5Error>)
    requires
        ds.storage is Chunked,
    ensures
        match r {
            Ok(sizes) => {
                &&& chunks_fit(*ds)
                &&& sizes@.len() == chunk_count(*ds)
                &&& forall|k: int|
                    0 <= k < sizes@.len() ==> #[trigger] sizes@[k] == stored_size(*ds, k)
            },
            Err(e) => !chunks_fit(*ds) && e@ == ErrorKind::Format,
        },
{
    let grid: Grid = plan_grid(ds)?;
    let mut sizes: Vec<usize> = Vec::new();
    for k in 0..grid.count
        invariant
            grid.of(*ds),
            sizes@.len() == k,
            forall|i: int| 0 <= i < k ==> #[trigger] chunk_fits(*ds, i),
            forall|i: int| 0 <= i < k ==> #[trigger] sizes@[i] == stored_size(*ds, i),
    {
        let size: usize = match &ds.filter {
            None => grid.tile_size,
            Some(_) => match store_chunk(ds, &grid, &ds.raw, k) {
                Ok(stored) => stored.len(),
                Err(e) => {
                    assert(!chunk_fits(*ds, k as int));
                    return Err(e);
                },
            },
        };
        if size > 0xffff_ffff {
            assert(!chunk_fits(*ds, k as int));
            return Err(refused(ds, "a chunk is too large for its on-disk field"));
        }
        assert(chunk_fits(*ds, k as int));
        sizes.push(size);
    }
    Ok(sizes)
}

/// What is stored of a chunk has the size that is set aside for it.
pub proof fn lemma_stored_size(ds: DatasetDesc, data: Seq<u8>, k: int)
    requires
        chunks_fit(ds),
        0 <= k < chunk_count(ds),
        ds.vlen_strings is None ==> data == ds.raw@,
    ensures
        stored_chunk(ds, data, k) is Ok,
        stored_chunk(ds, data, k)->Ok_0.len() == stored_size(ds, k),
        stored_size(ds, k) <= u32::MAX,
{
    assert(chunk_fits(ds, k));
}

/// The chunks take as many bytes as are set aside for them.
pub proof fn lemma_chunks_len(ds: DatasetDesc, data: Seq<u8>, n: nat)
    requires
        chunks_fit(ds),
        n <= chunk_count(ds),
        ds.vlen_strings is None ==> data == ds.raw@,
    ensures
        chunks_image(ds, data, n).len() == chunks_size(ds, n),
    decreases n,
{
    if n > 0 {
        lemma_chunks_len(ds, data, (n - 1) as nat);
        lemma_stored_size(ds, data, n - 1);
    }
}

pub proof fn lemma_chunks_size(ds: DatasetDesc, k: nat, n: nat)
    requires
        k <= n,
    ensures
        chunks_size(ds, k) <= chunks_size(ds, n),
        k < n ==> chunks_size(ds, k) + stored_size(ds, k as int) <= chunks_size(ds, n),
    decreases n,
{
    if k < n {
        lemma_chunks_size(ds, k, (n - 1) as nat);
    }
}

/// The positions of the chunks have one coordinate per dimension.
pub proof fn lemma_records_rank(ds: DatasetDesc, from: nat)
    ensures
        records_of_rank(chunk_records(ds, from), ds.shape@.len()),
{
}

/// Where the chunk at place `k` starts.
fn start_of(ds: &DatasetDesc, grid: &Grid, k: usize) -> (r: Vec<u64>)
    requires
        grid.of(*ds),
        k < grid.count,
    ensures
        r@.len() == ds.shape@.len(),
        ints64(r@) == chunk_start(*ds, k as int),
{
    let n: usize = grid.shape.len();
    let ghost chunk = chunk_extents(*ds);
    let ghost counts = chunk_counts(*ds);
    let ghost at = chunk_start(*ds, k as int);
    proof {
        assert(ints64(grid.shape@).len() == n);
        assert(ints64(grid.chunk@).len() == grid.chunk@.len());
        lemma_counts(*ds);
        law_strides_unrank(counts, k as int);
        lemma_chunk_start(*ds, k as int);
    }
    let rel: Vec<u64> = flat_to_coords(k, &grid.strides, n);
    assert(ints64(rel@) == unrank(counts, k as int));
    assert(rel@.len() == ints64(rel@).len());
    let mut start: Vec<u64> = Vec::new();
    for d in 0..n
        invariant
            n == ds.shape@.len(),
            n == grid.chunk@.len(),
            n == rel@.len(),
            at == chunk_start(*ds, k as int),
            chunk == chunk_extents(*ds),
            chunk == ints64(grid.chunk@),
            ints64(rel@) == unrank(chunk_counts(*ds), k as int),
            forall|i: int|
                0 <= i < n ==> {
                    &&& #[trigger] at[i] == unrank(chunk_counts(*ds), k as int)[i] * chunk[i]
                    &&& 0 <= at[i] < ds.shape@[i]
                    &&& at[i] + chunk[i] <= u64::MAX
                },
            start@.len() == d,
            forall|i: int| 0 <= i < d ==> #[trigger] start@[i] == at[i],
    {
        proof {
            assert(at[d as int] >= 0);
            assert(ints64(rel@)[d as int] == rel@[d as int]);
            assert(chunk[d as int] == grid.chunk@[d as int]);
        }
        start.push(rel[d] * grid.chunk[d]);
    }
    proof {
        assert(ints64(start@) =~= at);
    }
    start
}

/// The records of the chunks of a dataset, of these sizes and at these addresses.
pub(crate) fn list_chunks(
    ds: &DatasetDesc,
    grid: &Grid,
    sizes: &[usize],
    addresses: &[usize],
    Ghost(from): Ghost<nat>,
) -> (r: Vec<ChunkRecord>)
    requires
        grid.of(*ds),
        chunks_fit(*ds),
        sizes@.len() == chunk_count(*ds),
        forall|k: int| 0 <= k < sizes@.len() ==> #[trigger] sizes@[k] == stored_size(*ds, k),
        addresses@.len() == chunk_count(*ds),
        forall|k: int|
            0 <= k < addresses@.len() ==> #[trigger] addresses@[k] == from + chunks_size(
                *ds,
                k as nat,
            ),
    ensures
        views(r@) == chunk_records(*ds, from),
{
    let mut records: Vec<ChunkRecord> = Vec::new();
    for k in 0..grid.count
        invariant
            grid.of(*ds),
            chunks_fit(*ds),
            sizes@.len() == chunk_count(*ds),
            forall|i: int| 0 <= i < sizes@.len() ==> #[trigger] sizes@[i] == stored_size(*ds, i),
            addresses@.len() == chunk_count(*ds),
            forall|i: int|
                0 <= i < addresses@.len() ==> #[trigger] addresses@[i] == from + chunks_size(
                    *ds,
                    i as nat,
                ),
            records@.len() == k,
            forall|i: int| 0 <= i < k ==> (#[trigger] records@[i])@ == chunk_records(*ds, from)[i],
    {
        let offsets: Vec<u64> = start_of(ds, grid, k);
        proof {
            assert(chunk_fits(*ds, k as int));
            let found = chunk_records(*ds, from)[k as int].offsets;
            assert forall|d: int| 0 <= d < offsets@.len() implies #[trigger] offsets@[d]
                == found[d] by {
                assert(ints64(offsets@)[d] == chunk_start(*ds, k as int)[d]);
            }
            assert(offsets@ =~= found);
        }
        records.push(
            ChunkRecord {
                address: addresses[k] as u64,
                size: sizes[k] as u32,
                filter_mask: 0,
                offsets,
            },
        );
    }
    proof {
        assert(views(records@) =~= chunk_records(*ds, from));
    }
    records
}

} // verus!
