//! Chunks as they are written and read: the index lists them, and together they are the
//! dataset.

use vstd::prelude::*;
use crate::btree_v1_chunk::{
    entry_pos, entry_records, key_size, leaf_record, node_records, tree_records,
};
use crate::bytes::{le_at, le_bytes, lemma_le_bytes_len, lemma_pow256_values, tag_at, zeros};
use crate::chunk_record::RecordModel;
use crate::chunked::{
    assembled, cell_of, element_byte, grid_base, last_at, law_assembled_element,
    lemma_assembled_len, lemma_byte, lemma_cell_of, lemma_cell_on_grid, lengths, minus, on_grid,
    origin_of, starts, tiled,
};
use crate::dims::{
    in_box, ints, law_rank_then_unrank, law_unrank_then_rank, lemma_product_non_negative, product,
    rank, unrank,
};
use crate::error::ErrorKind;
use crate::roundtrip::held::{
    held, lemma_held_bytes, lemma_held_number, lemma_held_parts,
};
use crate::roundtrip::messages::lemma_words_back;
use crate::write::attr::{lemma_words_len, words_image};
use crate::write::chunked::{
    before_last, below_image, below_nodes, chunk_entries_image, chunk_entry_image,
    chunk_index_image, chunk_index_root, chunk_node_room, entry_width, index_level,
    index_node_image, lemma_before_last, lemma_below_len, lemma_chunk_entries_len,
    lemma_entry_widths, lemma_index_node_len, lemma_rank_parts, lemma_tree_links, records_of_rank,
    tree_image, tree_links, tree_root, MAX_CHUNKS,
};
use crate::write::elem::byte_size_of;
use crate::write::messages::full_chunk_shape;
use crate::write::tiles::{
    chunk_count, chunk_counts, chunk_extents, chunk_start, grid_fits, lemma_counts, tile,
    whole_ranges,
};
use crate::write::tree::DatasetDesc;

verus! {

/// A file that holds the entries of a leaf holds each of them.
proof fn lemma_entry_held(file: Seq<u8>, pos: int, records: Seq<RecordModel>, ndims: nat, i: int)
    requires
        held(file, pos, chunk_entries_image(records)),
        records_of_rank(records, ndims),
        0 <= i < records.len(),
    ensures
        held(file, pos + i * (key_size(ndims) + 8), chunk_entry_image(records[i])),
    decreases records.len(),
{
    let front = records.drop_last();
    assert forall|j: int| 0 <= j < front.len() implies (#[trigger] front[j]).offsets.len()
        == ndims by {
        assert(front[j] == records[j]);
    }
    lemma_held_parts(
        file,
        pos,
        chunk_entries_image(front),
        chunk_entry_image(records.last()),
    );
    lemma_chunk_entries_len(front, ndims);
    if i < front.len() {
        lemma_entry_held(file, pos, front, ndims, i);
        assert(front[i] == records[i]);
    }
}

/// An entry reads back as its chunk.
proof fn lemma_entry_back(file: Seq<u8>, addr: int, ndims: nat, i: int, record: RecordModel)
    requires
        held(file, entry_pos(addr, ndims, i), chunk_entry_image(record)),
        record.offsets.len() == ndims,
    ensures
        leaf_record(file, addr, ndims, i) == record,
{
    let pos = entry_pos(addr, ndims, i);
    let a = le_bytes(record.size as nat, 4);
    let b = le_bytes(record.filter_mask as nat, 4);
    let words = Seq::new(record.offsets.len(), |d: int| record.offsets[d] as nat);
    let c = words_image(words);
    let e = le_bytes(record.address as nat, 8);
    lemma_le_bytes_len(record.size as nat, 4);
    lemma_le_bytes_len(record.filter_mask as nat, 4);
    lemma_words_len(words);
    lemma_pow256_values();
    lemma_held_parts(file, pos, a + b + c + zeros(8), e);
    lemma_held_parts(file, pos, a + b + c, zeros(8));
    lemma_held_parts(file, pos, a + b, c);
    lemma_held_parts(file, pos, a, b);
    lemma_held_number(file, pos, record.size as nat, 4);
    lemma_held_number(file, pos + 4, record.filter_mask as nat, 4);
    lemma_held_number(file, pos + key_size(ndims), record.address as nat, 8);
    lemma_words_back(file, pos + 8, words);
    let found = leaf_record(file, addr, ndims, i);
    let read = crate::message::numbers_at(file, pos + 8, ndims);
    assert forall|d: int| 0 <= d < ndims implies #[trigger] found.offsets[d]
        == record.offsets[d] by {
        assert(read[d] == crate::roundtrip::messages::words_of(words)[d]);
    }
    assert(found.offsets =~= record.offsets);
}

/// The first entries of a leaf.
proof fn lemma_leaf_entries(file: Seq<u8>, b: int, ndims: nat, records: Seq<RecordModel>, k: nat)
    requires
        held(file, b + 24, chunk_entries_image(records)),
        records_of_rank(records, ndims),
        k <= records.len(),
    ensures
        entry_records(file, b, ndims, 0, k) == Ok::<Seq<RecordModel>, ErrorKind>(
            records.take(k as int),
        ),
    decreases k,
{
    if k > 0 {
        let i = k - 1;
        lemma_leaf_entries(file, b, ndims, records, i as nat);
        lemma_entry_held(file, b + 24, records, ndims, i);
        assert(records[i].offsets.len() == ndims);
        lemma_entry_back(file, b, ndims, i, records[i]);
        assert(records.take(i).push(records[i]) =~= records.take(k as int));
    } else {
        assert(records.take(0) =~= Seq::<RecordModel>::empty());
    }
}

/// What the first bytes of a node say, and where its entries are.
proof fn lemma_node_held(file: Seq<u8>, b: int, ndims: nat, level: nat, entries: Seq<RecordModel>)
    requires
        held(file, b, index_node_image(ndims, level, entries)),
        records_of_rank(entries, ndims),
        entries.len() <= 64,
        level <= 3,
    ensures
        b + 24 <= file.len(),
        tag_at(file, b, 'T', 'R', 'E', 'E'),
        file[b + 4] == 1,
        file[b + 5] == level,
        le_at(file, b + 6, 2) == entries.len(),
        entry_pos(b, ndims, entries.len() as int) <= file.len(),
        held(file, b + 24, chunk_entries_image(entries)),
{
    let n = entries.len();
    let tag = seq!['T' as u8, 'R' as u8, 'E' as u8, 'E' as u8, 1u8, level as u8];
    let count = le_bytes(n, 2);
    let side = le_bytes(u64::MAX as nat, 8);
    let image = chunk_entries_image(entries);
    let rest = zeros(((64 - n) * (key_size(ndims) + 8) + key_size(ndims)) as nat);
    lemma_le_bytes_len(n, 2);
    lemma_le_bytes_len(u64::MAX as nat, 8);
    lemma_index_node_len(ndims, level, entries);
    lemma_chunk_entries_len(entries, ndims);
    lemma_pow256_values();
    lemma_held_parts(file, b, tag + count + side + side + image, rest);
    lemma_held_parts(file, b, tag + count + side + side, image);
    lemma_held_parts(file, b, tag + count + side, side);
    lemma_held_parts(file, b, tag + count, side);
    lemma_held_parts(file, b, tag, count);
    lemma_held_bytes(file, b, tag);
    assert(tag[0] == file[b] && tag[1] == file[b + 1] && tag[2] == file[b + 2] && tag[3] == file[b
        + 3] && tag[4] == file[b + 4] && tag[5] == file[b + 5]);
    lemma_held_number(file, b + 6, n, 2);
}

/// Wherever a file holds a tree at its place, the records under its root are those of the
/// chunks.
proof fn lemma_tree_back(
    file: Seq<u8>,
    ndims: nat,
    level: nat,
    records: Seq<RecordModel>,
    at: nat,
    limit: nat,
)
    requires
        file.len() <= usize::MAX,
        held(file, at as int, tree_image(ndims, level, records, at)),
        records_of_rank(records, ndims),
        records.len() <= 64 * entry_width(level),
        level <= 3,
        level < limit,
    ensures
        node_records(file, tree_root(ndims, level, records.len(), at) as int, ndims, limit)
            == Ok::<Seq<RecordModel>, ErrorKind>(records),
        tree_root(ndims, level, records.len(), at) < file.len(),
    decreases level, records.len() + 1,
{
    let n = records.len();
    let room = chunk_node_room(ndims);
    let root = tree_root(ndims, level, n, at) as int;
    if level == 0 {
        assert(0 * room == 0);
        lemma_node_held(file, root, ndims, 0, records);
        lemma_leaf_entries(file, root, ndims, records, n);
        assert(records.take(n as int) =~= records);
    } else {
        let links = tree_links(ndims, level, records, at);
        let below = below_image(ndims, level, records, at);
        lemma_tree_links(ndims, level, records, at);
        lemma_below_len(ndims, level, records, at);
        lemma_held_parts(file, at as int, below, index_node_image(ndims, level, links));
        lemma_node_held(file, root, ndims, level, links);
        assert(links.take(links.len() as int) =~= links);
        lemma_below_back(file, ndims, level, records, at, root, links);
    }
}

/// The records under the entries of a node above level 0, of which these are the first.
proof fn lemma_below_back(
    file: Seq<u8>,
    ndims: nat,
    level: nat,
    records: Seq<RecordModel>,
    at: nat,
    root: int,
    entries: Seq<RecordModel>,
)
    requires
        file.len() <= usize::MAX,
        1 <= level <= 3,
        held(file, at as int, below_image(ndims, level, records, at)),
        records_of_rank(records, ndims),
        held(file, root + 24, chunk_entries_image(entries)),
        records_of_rank(entries, ndims),
        tree_links(ndims, level, records, at).len() <= entries.len(),
        tree_links(ndims, level, records, at) == entries.take(
            tree_links(ndims, level, records, at).len() as int,
        ),
    ensures
        entry_records(
            file,
            root,
            ndims,
            level,
            tree_links(ndims, level, records, at).len(),
        ) == Ok::<Seq<RecordModel>, ErrorKind>(records),
    decreases level, records.len(),
{
    let n = records.len();
    let links = tree_links(ndims, level, records, at);
    if n == 0 {
        assert(records =~= Seq::<RecordModel>::empty());
    } else {
        let room = chunk_node_room(ndims);
        let cut = before_last(level, n);
        let front = records.take(cut as int);
        let rest = records.skip(cut as int);
        lemma_before_last(level, n);
        lemma_rank_parts(records, ndims, cut as int);
        let place = at + below_nodes(level, cut) * room;
        let lower = (level - 1) as nat;
        lemma_below_len(ndims, level, front, at);
        lemma_held_parts(
            file,
            at as int,
            below_image(ndims, level, front, at),
            tree_image(ndims, lower, rest, place),
        );
        lemma_tree_back(file, ndims, lower, rest, place, level);
        let earlier = tree_links(ndims, level, front, at);
        let k = earlier.len() as int;
        assert(links.drop_last() =~= earlier);
        assert(earlier =~= entries.take(k));
        lemma_below_back(file, ndims, level, front, at, root, entries);
        assert(links[k] == entries.take(links.len() as int)[k]);
        assert(entries[k] == links[k]);
        assert(entries[k].offsets.len() == ndims);
        lemma_entry_held(file, root + 24, entries, ndims, k);
        lemma_entry_back(file, root, ndims, k, entries[k]);
        assert(leaf_record(file, root, ndims, k).address == links[k].address);
        assert(front + rest =~= records);
    }
}

/// Reading gives back what was written: wherever a file holds an index of chunks at its
/// place, the records under its root are those of the chunks.
pub proof fn law_chunk_index_reads_back(
    file: Seq<u8>,
    ndims: nat,
    records: Seq<RecordModel>,
    at: nat,
)
    requires
        file.len() <= usize::MAX,
        held(file, at as int, chunk_index_image(ndims, records, at)),
        records_of_rank(records, ndims),
        records.len() <= MAX_CHUNKS,
    ensures
        tree_records(file, chunk_index_root(ndims, records.len(), at) as u64, ndims) == Ok::<
            Seq<RecordModel>,
            ErrorKind,
        >(records),
        chunk_index_root(ndims, records.len(), at) < file.len(),
{
    lemma_entry_widths();
    lemma_tree_back(file, ndims, index_level(records.len()), records, at, 256);
}

/// Whether records place the chunks of a dataset on their grid.
pub open spec fn places_chunks(ds: DatasetDesc, records: Seq<RecordModel>) -> bool {
    &&& records.len() == chunk_count(ds)
    &&& forall|k: int|
        0 <= k < records.len() ==> {
            &&& (#[trigger] records[k]).offsets.len() == ds.shape@.len()
            &&& origin_of(records[k], ds.shape@.len()) == chunk_start(ds, k)
        }
}

/// The chunks of a dataset with these elements.
pub open spec fn tiles(ds: DatasetDesc, data: Seq<u8>) -> Seq<Seq<u8>> {
    Seq::new(chunk_count(ds), |k: int| tile(ds, data, k))
}

/// The chunks of a dataset lie on a grid.
pub proof fn lemma_tiled(ds: DatasetDesc, data: Seq<u8>, records: Seq<RecordModel>)
    requires
        grid_fits(ds),
        ds.shape@.len() == full_chunk_shape(ds).len(),
        places_chunks(ds, records),
    ensures
        tiled(records, tiles(ds, data), chunk_extents(ds), byte_size_of(ds.elem_type) as int),
{
    let chunk = chunk_extents(ds);
    lemma_counts(ds);
    crate::dims::lemma_product_positive(chunk);
    let p = product(chunk);
    let es = byte_size_of(ds.elem_type) as int;
    assert(p * es >= 0) by (nonlinear_arith)
        requires
            p >= 0,
            es >= 0,
    ;
    assert forall|k: int| 0 <= k < records.len() implies {
        &&& (#[trigger] records[k]).offsets.len() >= chunk.len()
        &&& on_grid(origin_of(records[k], chunk.len()), chunk)
    } by {
        lemma_cell_on_grid(whole_ranges(ds.shape@), chunk, k);
    }
}

/// A position within the extents lies in a chunk.
proof fn lemma_position_in_chunk(ds: DatasetDesc, c: Seq<int>)
    requires
        grid_fits(ds),
        ds.shape@.len() == full_chunk_shape(ds).len(),
        in_box(ints(ds.shape@), c),
    ensures
        0 <= cell_of(whole_ranges(ds.shape@), chunk_extents(ds), c) < chunk_count(ds),
{
    let ranges = whole_ranges(ds.shape@);
    let chunk = chunk_extents(ds);
    let counts = chunk_counts(ds);
    let rel = Seq::new(
        ranges.len(),
        |d: int| c[d] / chunk[d] - ranges[d].start as int / chunk[d],
    );
    lemma_counts(ds);
    assert(in_box(counts, rel)) by {
        assert forall|d: int| 0 <= d < rel.len() implies 0 <= #[trigger] rel[d] < counts[d] by {
            assert(0 <= c[d] < ints(ds.shape@)[d]);
            assert(0 < chunk[d]);
            vstd::arithmetic::div_mod::lemma_div_is_ordered(0, c[d], chunk[d]);
            vstd::arithmetic::div_mod::lemma_div_is_ordered(c[d], ranges[d].end - 1, chunk[d]);
        }
    }
    law_rank_then_unrank(counts, rel);
}

/// The last of the first `n` records at the start of the chunk that covers `c`.
proof fn lemma_found(ds: DatasetDesc, records: Seq<RecordModel>, c: Seq<int>, n: nat)
    requires
        grid_fits(ds),
        ds.shape@.len() == full_chunk_shape(ds).len(),
        places_chunks(ds, records),
        in_box(ints(ds.shape@), c),
        n <= records.len(),
    ensures
        ({
            let k = cell_of(whole_ranges(ds.shape@), chunk_extents(ds), c);
            last_at(records.take(n as int), grid_base(c, chunk_extents(ds))) == if k < n {
                Some(k)
            } else {
                None
            }
        }),
        chunk_start(ds, cell_of(whole_ranges(ds.shape@), chunk_extents(ds), c)) == grid_base(
            c,
            chunk_extents(ds),
        ),
    decreases n,
{
    let ranges = whole_ranges(ds.shape@);
    let chunk = chunk_extents(ds);
    let base = grid_base(c, chunk);
    let k = cell_of(ranges, chunk, c);
    lemma_counts(ds);
    assert(lengths(ranges) =~= ints(ds.shape@));
    assert(minus(c, starts(ranges)) =~= c);
    let first = records.take(n as int);
    lemma_position_in_chunk(ds, c);
    lemma_cell_of(ranges, chunk, c, k);
    if n > 0 {
        let q = n - 1;
        lemma_cell_of(ranges, chunk, c, q);
        lemma_found(ds, records, c, q as nat);
        assert(first.drop_last() =~= records.take(q));
        assert(first.last() == records[q]);
        assert(base.len() == ds.shape@.len());
    }
}

/// The chunks of a dataset put together are its elements.
pub proof fn law_tiles_are_the_dataset(ds: DatasetDesc, data: Seq<u8>, records: Seq<RecordModel>)
    requires
        grid_fits(ds),
        ds.shape@.len() == full_chunk_shape(ds).len(),
        places_chunks(ds, records),
        data.len() == ds.data_size(),
    ensures
        assembled(
            records,
            tiles(ds, data),
            records.len(),
            chunk_extents(ds),
            ints(ds.shape@),
            byte_size_of(ds.elem_type) as int,
        ) == data,
{
    let chunk = chunk_extents(ds);
    let all = ints(ds.shape@);
    let es = byte_size_of(ds.elem_type) as int;
    let parts = tiles(ds, data);
    let got = assembled(records, parts, records.len(), chunk, all, es);
    lemma_counts(ds);
    lemma_tiled(ds, data, records);
    lemma_product_non_negative(all);
    assert(product(all) * es >= 0) by (nonlinear_arith)
        requires
            product(all) >= 0,
            es > 0,
    ;
    lemma_assembled_len(records, parts, records.len(), chunk, all, es);
    assert forall|b: int| 0 <= b < data.len() implies #[trigger] got[b] == data[b] by {
        lemma_byte(b, es);
        let e = b / es;
        assert(0 <= e < product(all)) by (nonlinear_arith)
            requires
                e == b / es,
                e * es <= b,
                0 <= b < product(all) * es,
                es > 0,
        ;
        law_unrank_then_rank(all, e);
        let c = unrank(all, e);
        law_assembled_element(records, parts, chunk, all, es, c, b % es);
        lemma_tile_element(ds, data, records, c, b % es);
    }
    assert(got =~= data);
}

/// An element of a dataset in its chunk.
proof fn lemma_tile_element(
    ds: DatasetDesc,
    data: Seq<u8>,
    records: Seq<RecordModel>,
    c: Seq<int>,
    r: int,
)
    requires
        grid_fits(ds),
        ds.shape@.len() == full_chunk_shape(ds).len(),
        places_chunks(ds, records),
        data.len() == ds.data_size(),
        in_box(ints(ds.shape@), c),
        0 <= r < byte_size_of(ds.elem_type),
    ensures
        element_byte(
            records,
            tiles(ds, data),
            chunk_extents(ds),
            c,
            byte_size_of(ds.elem_type) as int,
            r,
        ) == data[rank(ints(ds.shape@), c) * byte_size_of(ds.elem_type) + r],
{
    let ranges = whole_ranges(ds.shape@);
    let chunk = chunk_extents(ds);
    let all = ints(ds.shape@);
    let es = byte_size_of(ds.elem_type) as int;
    let parts = tiles(ds, data);
    let k = cell_of(ranges, chunk, c);
    let base = grid_base(c, chunk);
    lemma_counts(ds);
    law_rank_then_unrank(all, c);
    assert(lengths(ranges) =~= all);
    assert(minus(c, starts(ranges)) =~= c);
    lemma_found(ds, records, c, records.len());
    assert(records.take(records.len() as int) =~= records);
    lemma_position_in_chunk(ds, c);
    let local = minus(c, base);
    assert(in_box(chunk, local)) by {
        assert forall|d: int| 0 <= d < local.len() implies 0 <= #[trigger] local[d] < chunk[d] by {
            assert(0 < chunk[d]);
            vstd::arithmetic::div_mod::lemma_fundamental_div_mod(c[d], chunk[d]);
            let m = chunk[d];
            let x = c[d] / m;
            assert(m * x == x * m) by (nonlinear_arith);
        }
    }
    law_rank_then_unrank(chunk, local);
    let e = rank(chunk, local);
    let p = product(chunk);
    let f = rank(all, c);
    let t = product(all);
    assert((e + 1) * es <= p * es && e * es >= 0 && (e + 1) * es == e * es + es && (f + 1) * es
        <= t * es && (f + 1) * es == f * es + es) by (nonlinear_arith)
        requires
            0 <= e < p,
            0 <= f < t,
            es > 0,
    ;
    let b = e * es + r;
    crate::chunked::lemma_byte_of(b, e, es);
    let start = chunk_start(ds, k);
    let back = Seq::new(ds.shape@.len(), |d: int| -start[d]);
    assert(minus(local, back) =~= c);
    assert(parts[k] == tile(ds, data, k));
    assert(tile(ds, data, k)[b] == data[f * es + r]);
}

} // verus!
