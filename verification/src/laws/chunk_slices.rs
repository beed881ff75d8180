//! Slices of chunked datasets: what they have of a chunk, and what they have where there is
//! none.

use vstd::prelude::*;
use crate::chunk_record::{ChunkRecord, RecordModel};
use crate::chunked::{
    assemble_chunks_slice_filled, can_slice, cell_counts, cell_of, cell_origin, cells_decode,
    filtering_of, forward, last_at, lemma_cell_of, lemma_cell_on_grid, lemma_cells_positive,
    lemma_covers, lemma_element_byte_bounds, lemma_last_at_bounds, lemma_sliced_len, lengths, minus,
    on_grid, origin_of, sliced, starts, stored_bytes, supplied, supplies,
};
use crate::dims::{in_box, ints64, law_rank_then_unrank, product, rank};
use crate::dtype::views;
use crate::error::OxiH5Error;

verus! {

/// Where the byte of an element lies in the buffer of the ranges.
pub open spec fn slice_byte(
    ranges: Seq<std::ops::Range<u64>>,
    c: Seq<int>,
    es: int,
    b: int,
) -> int {
    rank(lengths(ranges), minus(c, starts(ranges))) * es + b
}

/// An element of no chunk stays as it was.
proof fn lemma_gap(
    records: Seq<RecordModel>,
    decoded: Seq<Seq<u8>>,
    k: nat,
    chunk: Seq<int>,
    ranges: Seq<std::ops::Range<u64>>,
    es: int,
    fill: Seq<u8>,
    c: Seq<int>,
    b: int,
)
    requires
        es > 0,
        forward(ranges),
        chunk.len() == ranges.len() == c.len(),
        in_box(lengths(ranges), minus(c, starts(ranges))),
        forall|i: int|
            0 <= i < records.len() ==> !in_box(
                chunk,
                minus(c, origin_of(#[trigger] records[i], chunk.len())),
            ),
        0 <= b < es,
    ensures
        sliced(records, decoded, k, chunk, ranges, es, fill)[slice_byte(ranges, c, es, b)]
            == if fill.len() == es {
            fill[b]
        } else {
            0
        },
    decreases k,
{
    let dims = lengths(ranges);
    let o = minus(c, starts(ranges));
    law_rank_then_unrank(dims, o);
    lemma_element_byte_bounds(rank(dims, o), product(dims), es, b);
    if k > 0 {
        let q = k - 1;
        lemma_gap(records, decoded, q as nat, chunk, ranges, es, fill, c, b);
        lemma_sliced_len(records, decoded, q as nat, chunk, ranges, es, fill);
        let origin = cell_origin(ranges, chunk, q);
        let from = minus(origin, starts(ranges));
        assert(minus(o, from) =~= minus(c, origin));
        lemma_last_at_bounds(records, origin);
        if last_at(records, origin) is Some {
            let i = last_at(records, origin)->0;
            assert(origin_of(records[i], chunk.len()) == origin);
        }
    }
}

/// The element of a chunk that is there.
proof fn lemma_cell_element(
    records: Seq<RecordModel>,
    decoded: Seq<Seq<u8>>,
    k: nat,
    chunk: Seq<int>,
    ranges: Seq<std::ops::Range<u64>>,
    es: int,
    fill: Seq<u8>,
    c: Seq<int>,
    b: int,
    q: int,
)
    requires
        es > 0,
        forward(ranges),
        chunk.len() == ranges.len() == c.len(),
        forall|d: int| 0 <= d < chunk.len() ==> 0 < #[trigger] chunk[d],
        in_box(lengths(ranges), minus(c, starts(ranges))),
        0 <= q < k <= product(cell_counts(ranges, chunk)),
        last_at(records, cell_origin(ranges, chunk, q)) is Some,
        supplies(c, cell_origin(ranges, chunk, q), decoded[q], chunk, es),
        0 <= b < es,
    ensures
        sliced(records, decoded, k, chunk, ranges, es, fill)[slice_byte(ranges, c, es, b)]
            == supplied(c, b, cell_origin(ranges, chunk, q), decoded[q], chunk, es),
    decreases k,
{
    let dims = lengths(ranges);
    let o = minus(c, starts(ranges));
    law_rank_then_unrank(dims, o);
    lemma_element_byte_bounds(rank(dims, o), product(dims), es, b);
    let p = k - 1;
    lemma_sliced_len(records, decoded, p as nat, chunk, ranges, es, fill);
    let origin = cell_origin(ranges, chunk, p);
    let from = minus(origin, starts(ranges));
    assert(minus(o, from) =~= minus(c, origin));
    if p > q {
        lemma_cell_element(records, decoded, p as nat, chunk, ranges, es, fill, c, b, q);
        lemma_cell_on_grid(ranges, chunk, p);
        lemma_cell_on_grid(ranges, chunk, q);
        lemma_covers(c, origin, chunk);
        lemma_covers(c, cell_origin(ranges, chunk, q), chunk);
        lemma_cell_of(ranges, chunk, c, p);
        lemma_cell_of(ranges, chunk, c, q);
    }
}

/// An element of a slice that lies in no chunk is the fill value, or zero where there is no
/// fill value of the size of an element.
pub proof fn law_gap_holds_fill_value<F: Fn(&[u8], u32) -> Result<Vec<u8>, OxiH5Error>>(
    chunks: &[ChunkRecord],
    file: &[u8],
    chunk_dims: &[u64],
    dataset_dims: &[u64],
    es: usize,
    fill: &[u8],
    ranges: &[std::ops::Range<u64>],
    apply_filters: F,
    r: Result<Vec<u8>, OxiH5Error>,
    c: Seq<int>,
    b: int,
)
    requires
        call_ensures(
            assemble_chunks_slice_filled::<F>,
            (chunks, file, chunk_dims, dataset_dims, es, fill, ranges, apply_filters),
            r,
        ),
        r is Ok,
        can_slice(ints64(chunk_dims@), ranges@, es as int),
        in_box(lengths(ranges@), minus(c, starts(ranges@))),
        c.len() == ranges@.len(),
        forall|i: int|
            0 <= i < chunks@.len() ==> !in_box(
                ints64(chunk_dims@),
                minus(c, origin_of((#[trigger] chunks@[i])@, chunk_dims@.len())),
            ),
        0 <= b < es,
    ensures
        r->Ok_0@.len() == product(lengths(ranges@)) * es,
        r->Ok_0@[slice_byte(ranges@, c, es as int, b)] == if fill@.len() == es {
            fill@[b]
        } else {
            0
        },
{
    let records = views(chunks@);
    let chunk = ints64(chunk_dims@);
    let dims = lengths(ranges@);
    let cells = product(cell_counts(ranges@, chunk)) as nat;
    law_rank_then_unrank(dims, minus(c, starts(ranges@)));
    let decoded = choose|decoded: Seq<Seq<u8>>|
        {
            &&& #[trigger] cells_decode(
                filtering_of(apply_filters),
                file@,
                records,
                decoded,
                cells,
                chunk,
                ranges@,
            )
            &&& r->Ok_0@ == sliced(records, decoded, cells, chunk, ranges@, es as int, fill@)
        };
    assert forall|i: int| 0 <= i < records.len() implies !in_box(
        chunk,
        minus(c, origin_of(#[trigger] records[i], chunk.len())),
    ) by {
        assert(records[i] == chunks@[i]@);
    }
    lemma_gap(records, decoded, cells, chunk, ranges@, es as int, fill@, c, b);
    lemma_sliced_len(records, decoded, cells, chunk, ranges@, es as int, fill@);
    lemma_room_is_positive(product(dims), es as int);
}

proof fn lemma_room_is_positive(n: int, es: int)
    requires
        n >= 0,
        es >= 0,
    ensures
        n * es >= 0,
{
    assert(n * es >= 0) by (nonlinear_arith)
        requires
            n >= 0,
            es >= 0,
    ;
}

/// The last of the records of chunks at one place is the one that is found there.
proof fn lemma_last_at(records: Seq<RecordModel>, origin: Seq<int>, i: int)
    requires
        0 <= i < records.len(),
        records[i].offsets.len() >= origin.len(),
        origin_of(records[i], origin.len()) == origin,
        forall|j: int|
            i < j < records.len() ==> origin_of(#[trigger] records[j], origin.len()) != origin,
    ensures
        last_at(records, origin) == Some(i),
    decreases records.len(),
{
    if i < records.len() - 1 {
        assert(origin_of(records[records.len() - 1], origin.len()) != origin);
        lemma_last_at(records.drop_last(), origin, i);
    }
}

/// An element of a slice that lies in a chunk on the grid is that element of what the
/// stored bytes of the chunk decode to; of several chunks at one place the last counts.
pub proof fn law_slice_holds_chunk<F: Fn(&[u8], u32) -> Result<Vec<u8>, OxiH5Error>>(
    chunks: &[ChunkRecord],
    file: &[u8],
    chunk_dims: &[u64],
    dataset_dims: &[u64],
    es: usize,
    fill: &[u8],
    ranges: &[std::ops::Range<u64>],
    apply_filters: F,
    r: Result<Vec<u8>, OxiH5Error>,
    i: int,
    data: Seq<u8>,
    c: Seq<int>,
    b: int,
)
    requires
        call_ensures(
            assemble_chunks_slice_filled::<F>,
            (chunks, file, chunk_dims, dataset_dims, es, fill, ranges, apply_filters),
            r,
        ),
        r is Ok,
        can_slice(ints64(chunk_dims@), ranges@, es as int),
        in_box(lengths(ranges@), minus(c, starts(ranges@))),
        c.len() == ranges@.len(),
        0 <= i < chunks@.len(),
        chunks@[i]@.offsets.len() >= chunk_dims@.len(),
        on_grid(origin_of(chunks@[i]@, chunk_dims@.len()), ints64(chunk_dims@)),
        in_box(ints64(chunk_dims@), minus(c, origin_of(chunks@[i]@, chunk_dims@.len()))),
        forall|j: int|
            i < j < chunks@.len() ==> origin_of((#[trigger] chunks@[j])@, chunk_dims@.len())
                != origin_of(chunks@[i]@, chunk_dims@.len()),
        forall|raw: &[u8], out: Result<Vec<u8>, OxiH5Error>|
            stored_bytes(file@, chunks@[i]@) == Ok::<Seq<u8>, crate::error::ErrorKind>(raw@)
                && #[trigger] apply_filters.ensures((raw, chunks@[i]@.filter_mask), out)
                && out is Ok ==> out->Ok_0@ == data,
        data.len() == product(ints64(chunk_dims@)) * es,
        0 <= b < es,
    ensures
        r->Ok_0@[slice_byte(ranges@, c, es as int, b)] == data[rank(
            ints64(chunk_dims@),
            minus(c, origin_of(chunks@[i]@, chunk_dims@.len())),
        ) * es + b],
{
    let records = views(chunks@);
    let chunk = ints64(chunk_dims@);
    let dims = lengths(ranges@);
    let cells = product(cell_counts(ranges@, chunk)) as nat;
    let filter = filtering_of(apply_filters);
    law_rank_then_unrank(dims, minus(c, starts(ranges@)));
    let decoded = choose|decoded: Seq<Seq<u8>>|
        {
            &&& #[trigger] cells_decode(
                filter,
                file@,
                records,
                decoded,
                cells,
                chunk,
                ranges@,
            )
            &&& r->Ok_0@ == sliced(records, decoded, cells, chunk, ranges@, es as int, fill@)
        };
    let origin = origin_of(chunks@[i]@, chunk.len());
    assert(records[i] == chunks@[i]@);
    lemma_covers(c, origin, chunk);
    lemma_cells_positive(ranges@, chunk, c);
    let q = cell_of(ranges@, chunk, c);
    lemma_cell_of(ranges@, chunk, c, 0);
    lemma_cell_of(ranges@, chunk, c, q);
    assert(cell_origin(ranges@, chunk, q) == origin);
    assert forall|j: int| i < j < records.len() implies origin_of(
        #[trigger] records[j],
        origin.len(),
    ) != origin by {
        assert(records[j] == chunks@[j]@);
    }
    lemma_last_at(records, origin, i);
    assert(decoded[q] == data);
    let local = minus(c, origin);
    law_rank_then_unrank(chunk, local);
    lemma_element_byte_bounds(rank(chunk, local), product(chunk), es as int, b);
    lemma_cell_element(records, decoded, cells, chunk, ranges@, es as int, fill@, c, b, q);
}

} // verus!
