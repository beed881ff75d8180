//! The index of a dataset that is stored in chunks.

use vstd::prelude::*;
use vstd::slice::slice_subrange;
use crate::btree_v1_chunk::{entry_pos, entry_records, key_size, leaf_record, tree_records};
use crate::bytes::{
    le_at, le_bytes, lemma_le_bytes_len, lemma_le_round_trip, lemma_pow256_values, push_all, push_le,
    push_zeros, put, put_bytes, zeros,
};
use crate::chunk_record::{ChunkRecord, RecordModel};
use crate::dtype::views;
use crate::error::ErrorKind;
use crate::write::attr::{lemma_words_len, push_words, words_image};

verus! {

/// Size of a B-tree node for one chunk.
pub open spec fn chunk_node_len(ndims: nat) -> nat {
    24 + 2 * key_size(ndims) + 8
}

/// Size of a B-tree node for one chunk of a dataset of rank `ndims`.
pub fn chunk_btree_size(ndims: usize) -> (r: usize)
    requires
        chunk_node_len(ndims as nat) <= usize::MAX,
    ensures
        r == chunk_node_len(ndims as nat),
{
    let key: usize = 8 + (ndims + 1) * 8;
    24 + 2 * key + 8
}

/// A leaf for one chunk at the origin: `TREE`, type 1, level 0, one entry, no
/// siblings; the key with the chunk's size; the chunk's address; a closing key.
pub open spec fn chunk_node_image(ndims: nat, data_addr: nat, data_size: nat) -> Seq<u8> {
    seq!['T' as u8, 'R' as u8, 'E' as u8, 'E' as u8, 1u8, 0u8] + le_bytes(1, 2) + le_bytes(
        u64::MAX as nat,
        8,
    ) + le_bytes(u64::MAX as nat, 8) + le_bytes(data_size, 4) + zeros(4 + (ndims + 1) * 8)
        + le_bytes(data_addr, 8) + zeros(key_size(ndims))
}

pub proof fn lemma_chunk_node_len(ndims: nat, data_addr: nat, data_size: nat)
    ensures
        chunk_node_image(ndims, data_addr, data_size).len() == chunk_node_len(ndims),
{
    lemma_le_bytes_len(1, 2);
    lemma_le_bytes_len(u64::MAX as nat, 8);
    lemma_le_bytes_len(data_size, 4);
    lemma_le_bytes_len(data_addr, 8);
}

/// A leaf for one chunk at the origin.
pub fn chunk_node_bytes(ndims: usize, data_addr: u64, data_byte_size: u32) -> (r: Vec<u8>)
    requires
        chunk_node_len(ndims as nat) <= usize::MAX,
    ensures
        r@ == chunk_node_image(ndims as nat, data_addr as nat, data_byte_size as nat),
        r@.len() == chunk_node_len(ndims as nat),
{
    let mut out: Vec<u8> = vec![0x54u8, 0x52, 0x45, 0x45, 1, 0];
    proof {
        assert('T' as u8 == 0x54 && 'R' as u8 == 0x52 && 'E' as u8 == 0x45);
        assert(out@ =~= seq!['T' as u8, 'R' as u8, 'E' as u8, 'E' as u8, 1u8, 0u8]);
        lemma_chunk_node_len(ndims as nat, data_addr as nat, data_byte_size as nat);
    }
    push_le(&mut out, 1, 2);
    push_le(&mut out, u64::MAX, 8);
    push_le(&mut out, u64::MAX, 8);
    push_le(&mut out, data_byte_size as u64, 4);
    push_zeros(&mut out, 4 + (ndims + 1) * 8);
    push_le(&mut out, data_addr, 8);
    push_zeros(&mut out, 8 + (ndims + 1) * 8);
    out
}

/// Write a leaf for one chunk at `base`.
pub fn write_chunk_btree(
    buf: &mut Vec<u8>,
    base: usize,
    ndims: usize,
    data_addr: u64,
    data_byte_size: u32,
)
    requires
        base + chunk_node_len(ndims as nat) <= old(buf)@.len(),
    ensures
        final(buf)@ == put(
            old(buf)@,
            base as int,
            chunk_node_image(ndims as nat, data_addr as nat, data_byte_size as nat),
        ),
{
    assert(buf.len() <= usize::MAX);
    let image: Vec<u8> = chunk_node_bytes(ndims, data_addr, data_byte_size);
    put_bytes(buf, base, &image);
}

/// An entry of a leaf: the size of a chunk, its filter mask, its position, an unused
/// coordinate, its address.
pub open spec fn chunk_entry_image(record: RecordModel) -> Seq<u8> {
    le_bytes(record.size as nat, 4) + le_bytes(record.filter_mask as nat, 4) + words_image(
        Seq::new(record.offsets.len(), |d: int| record.offsets[d] as nat),
    ) + zeros(8) + le_bytes(record.address as nat, 8)
}

/// The entries of a leaf.
pub open spec fn chunk_entries_image(records: Seq<RecordModel>) -> Seq<u8>
    decreases records.len(),
{
    if records.len() == 0 {
        Seq::empty()
    } else {
        chunk_entries_image(records.drop_last()) + chunk_entry_image(records.last())
    }
}

/// The most entries of a node.
pub const NODE_WIDTH: usize = 64;

/// The most chunks that an index lists: those of a tree of four levels.
pub const MAX_CHUNKS: usize = 16777216;

/// Size of a node: it has room for as many entries as a node may have.
pub open spec fn chunk_node_room(ndims: nat) -> nat {
    24 + 64 * (key_size(ndims) + 8) + key_size(ndims)
}

/// A node: `TREE`, type 1, its level, the number of entries, no siblings; the entries;
/// zeros for a closing key and for the entries that are not there.
pub open spec fn index_node_image(ndims: nat, level: nat, entries: Seq<RecordModel>) -> Seq<u8> {
    seq!['T' as u8, 'R' as u8, 'E' as u8, 'E' as u8, 1u8, level as u8] + le_bytes(entries.len(), 2)
        + le_bytes(u64::MAX as nat, 8) + le_bytes(u64::MAX as nat, 8) + chunk_entries_image(entries)
        + zeros(((64 - entries.len()) * (key_size(ndims) + 8) + key_size(ndims)) as nat)
}

/// How many chunks an entry of a node of that level stands for at most.
pub open spec fn entry_width(level: nat) -> nat
    decreases level,
{
    if level == 0 {
        1
    } else {
        64 * entry_width((level - 1) as nat)
    }
}

/// How many of `n` chunks come before those that the last entry of a node of that level
/// stands for.
pub open spec fn before_last(level: nat, n: nat) -> nat {
    if n == 0 {
        0
    } else {
        ((n - 1) / entry_width(level) as int * entry_width(level)) as nat
    }
}

/// How many nodes a tree of that level has for `n` chunks.
pub open spec fn tree_nodes(level: nat, n: nat) -> nat
    decreases level, n + 1,
{
    if level == 0 {
        1
    } else {
        below_nodes(level, n) + 1
    }
}

/// How many nodes are below a node of that level for `n` chunks.
pub open spec fn below_nodes(level: nat, n: nat) -> nat
    decreases level, n,
{
    if n == 0 || level == 0 || before_last(level, n) >= n {
        0
    } else {
        below_nodes(level, before_last(level, n)) + tree_nodes(
            (level - 1) as nat,
            (n - before_last(level, n)) as nat,
        )
    }
}

/// The address of the root of a tree that starts at `at`: the root comes last.
pub open spec fn tree_root(ndims: nat, level: nat, n: nat, at: nat) -> nat {
    (at + (tree_nodes(level, n) - 1) * chunk_node_room(ndims)) as nat
}

/// The entries of a node of that level above 0: each is the key of its first chunk and
/// the address of a node.
pub open spec fn tree_links(
    ndims: nat,
    level: nat,
    records: Seq<RecordModel>,
    at: nat,
) -> Seq<RecordModel>
    decreases records.len(),
{
    let cut = before_last(level, records.len());
    if records.len() == 0 || level == 0 || cut >= records.len() {
        Seq::empty()
    } else {
        tree_links(ndims, level, records.take(cut as int), at).push(
            RecordModel {
                address: tree_root(
                    ndims,
                    (level - 1) as nat,
                    (records.len() - cut) as nat,
                    at + below_nodes(level, cut) * chunk_node_room(ndims),
                ) as u64,
                ..records[cut as int]
            },
        )
    }
}

/// A tree of that level over chunks, placed at `at`: the trees below, one after the
/// other, and then its root.
pub open spec fn tree_image(
    ndims: nat,
    level: nat,
    records: Seq<RecordModel>,
    at: nat,
) -> Seq<u8>
    decreases level, records.len() + 1,
{
    if level == 0 {
        index_node_image(ndims, 0, records)
    } else {
        below_image(ndims, level, records, at) + index_node_image(
            ndims,
            level,
            tree_links(ndims, level, records, at),
        )
    }
}

/// The trees below a node of that level, one after the other.
pub open spec fn below_image(
    ndims: nat,
    level: nat,
    records: Seq<RecordModel>,
    at: nat,
) -> Seq<u8>
    decreases level, records.len(),
{
    let cut = before_last(level, records.len());
    if records.len() == 0 || level == 0 || cut >= records.len() {
        Seq::empty()
    } else {
        below_image(ndims, level, records.take(cut as int), at) + tree_image(
            ndims,
            (level - 1) as nat,
            records.skip(cut as int),
            at + below_nodes(level, cut) * chunk_node_room(ndims),
        )
    }
}

/// The level of the index of `n` chunks.
pub open spec fn index_level(n: nat) -> nat {
    if n <= 64 {
        0
    } else if n <= 4096 {
        1
    } else if n <= 262144 {
        2
    } else {
        3
    }
}

/// The bytes of the index of `n` chunks.
pub open spec fn chunk_index_len(ndims: nat, n: nat) -> nat {
    tree_nodes(index_level(n), n) * chunk_node_room(ndims)
}

/// The address of the root of the index of `n` chunks placed at `at`.
pub open spec fn chunk_index_root(ndims: nat, n: nat, at: nat) -> nat {
    tree_root(ndims, index_level(n), n, at)
}

/// The index of chunks, placed at `at`.
pub open spec fn chunk_index_image(ndims: nat, records: Seq<RecordModel>, at: nat) -> Seq<u8> {
    tree_image(ndims, index_level(records.len()), records, at)
}

/// Whether the positions of chunks have one coordinate per dimension.
pub open spec fn records_of_rank(records: Seq<RecordModel>, ndims: nat) -> bool {
    forall|i: int| 0 <= i < records.len() ==> (#[trigger] records[i]).offsets.len() == ndims
}

pub proof fn lemma_chunk_entries_len(records: Seq<RecordModel>, ndims: nat)
    requires
        records_of_rank(records, ndims),
    ensures
        chunk_entries_image(records).len() == records.len() * (key_size(ndims) + 8),
    decreases records.len(),
{
    if records.len() > 0 {
        let front = records.drop_last();
        assert forall|i: int| 0 <= i < front.len() implies (#[trigger] front[i]).offsets.len()
            == ndims by {
            assert(front[i] == records[i]);
        }
        lemma_chunk_entries_len(front, ndims);
        lemma_chunk_entry_len(records.last());
        assert(records[records.len() - 1].offsets.len() == ndims);
        let step = key_size(ndims) + 8;
        let n = front.len();
        assert((n + 1) * step == n * step + step) by (nonlinear_arith);
    }
}

pub proof fn lemma_chunk_entry_len(record: RecordModel)
    ensures
        chunk_entry_image(record).len() == key_size(record.offsets.len()) + 8,
{
    lemma_le_bytes_len(record.size as nat, 4);
    lemma_le_bytes_len(record.filter_mask as nat, 4);
    lemma_words_len(Seq::new(record.offsets.len(), |d: int| record.offsets[d] as nat));
    lemma_le_bytes_len(record.address as nat, 8);
}

pub proof fn lemma_entry_widths()
    ensures
        entry_width(0) == 1,
        entry_width(1) == 64,
        entry_width(2) == 4096,
        entry_width(3) == 262144,
        entry_width(4) == MAX_CHUNKS,
{
    reveal_with_fuel(entry_width, 5);
}

pub proof fn lemma_entry_width_positive(level: nat)
    ensures
        entry_width(level) > 0,
    decreases level,
{
    if level > 0 {
        lemma_entry_width_positive((level - 1) as nat);
    }
}

/// The last entry of a node stands for at least one chunk, and for no more than a full
/// share.
pub proof fn lemma_before_last(level: nat, n: nat)
    requires
        n > 0,
    ensures
        before_last(level, n) < n,
        n - before_last(level, n) <= entry_width(level),
{
    lemma_entry_width_positive(level);
    let w = entry_width(level) as int;
    let q = (n - 1) / w;
    vstd::arithmetic::div_mod::lemma_fundamental_div_mod(n - 1, w);
    vstd::arithmetic::div_mod::lemma_div_pos_is_pos(n - 1, w);
    assert(w * q == q * w) by (nonlinear_arith);
}

/// How many entries a node of that level has.
pub proof fn lemma_tree_links(ndims: nat, level: nat, records: Seq<RecordModel>, at: nat)
    requires
        level > 0,
        records_of_rank(records, ndims),
    ensures
        records_of_rank(tree_links(ndims, level, records, at), ndims),
        records.len() == 0 ==> tree_links(ndims, level, records, at).len() == 0,
        records.len() > 0 ==> tree_links(ndims, level, records, at).len() == (records.len() - 1)
            / entry_width(level) as int + 1,
        records.len() <= 64 * entry_width(level) ==> tree_links(ndims, level, records, at).len()
            <= 64,
    decreases records.len(),
{
    let n = records.len();
    if n > 0 {
        let w = entry_width(level) as int;
        let cut = before_last(level, n);
        let front = records.take(cut as int);
        lemma_before_last(level, n);
        lemma_entry_width_positive(level);
        assert(records_of_rank(front, ndims)) by {
            assert forall|i: int| 0 <= i < front.len() implies (#[trigger] front[i]).offsets.len()
                == ndims by {
                assert(front[i] == records[i]);
            }
        }
        lemma_tree_links(ndims, level, front, at);
        assert(records[cut as int].offsets.len() == ndims);
        let q = (n - 1) / w;
        vstd::arithmetic::div_mod::lemma_fundamental_div_mod(n - 1, w);
        vstd::arithmetic::div_mod::lemma_div_pos_is_pos(n - 1, w);
        if cut > 0 {
            // The shares before the last one are full.
            assert((cut - 1) / w == q - 1) by {
                assert(cut == q * w);
                assert(q * w - 1 == w * (q - 1) + (w - 1)) by (nonlinear_arith);
                vstd::arithmetic::div_mod::lemma_fundamental_div_mod_converse(
                    cut - 1,
                    w,
                    q - 1,
                    w - 1,
                );
            }
        } else {
            assert(q == 0) by (nonlinear_arith)
                requires
                    q * w == 0,
                    w > 0,
            ;
        }
        if n <= 64 * w {
            assert(q <= 63) by (nonlinear_arith)
                requires
                    n - 1 == w * q + (n - 1) % w,
                    0 <= (n - 1) % w,
                    n - 1 < 64 * w,
                    w > 0,
            ;
        }
    }
}

pub proof fn lemma_index_node_len(ndims: nat, level: nat, entries: Seq<RecordModel>)
    requires
        records_of_rank(entries, ndims),
        entries.len() <= 64,
    ensures
        index_node_image(ndims, level, entries).len() == chunk_node_room(ndims),
{
    lemma_chunk_entries_len(entries, ndims);
    lemma_le_bytes_len(entries.len(), 2);
    lemma_le_bytes_len(u64::MAX as nat, 8);
    let step = key_size(ndims) as int + 8;
    let n = entries.len() as int;
    assert(n * step + (64 - n) * step == 64 * step && (64 - n) * step >= 0) by (nonlinear_arith)
        requires
            0 <= n <= 64,
            step >= 0,
    ;
}

/// A tree takes as many bytes as its nodes.
pub proof fn lemma_tree_len(ndims: nat, level: nat, records: Seq<RecordModel>, at: nat)
    requires
        records_of_rank(records, ndims),
        records.len() <= 64 * entry_width(level),
    ensures
        tree_image(ndims, level, records, at).len() == tree_nodes(level, records.len())
            * chunk_node_room(ndims),
    decreases level, records.len() + 1,
{
    let room = chunk_node_room(ndims);
    if level == 0 {
        lemma_index_node_len(ndims, 0, records);
        assert(1 * room == room);
    } else {
        let links = tree_links(ndims, level, records, at);
        lemma_tree_links(ndims, level, records, at);
        lemma_index_node_len(ndims, level, links);
        lemma_below_len(ndims, level, records, at);
        let k = below_nodes(level, records.len());
        assert((k + 1) * room == k * room + room) by (nonlinear_arith);
    }
}

pub proof fn lemma_below_len(ndims: nat, level: nat, records: Seq<RecordModel>, at: nat)
    requires
        level > 0,
        records_of_rank(records, ndims),
    ensures
        below_image(ndims, level, records, at).len() == below_nodes(level, records.len())
            * chunk_node_room(ndims),
    decreases level, records.len(),
{
    let n = records.len();
    let room = chunk_node_room(ndims);
    if n > 0 {
        let cut = before_last(level, n);
        let front = records.take(cut as int);
        let rest = records.skip(cut as int);
        lemma_before_last(level, n);
        lemma_rank_parts(records, ndims, cut as int);
        lemma_below_len(ndims, level, front, at);
        lemma_tree_len(
            ndims,
            (level - 1) as nat,
            rest,
            at + below_nodes(level, cut) * room,
        );
        let a = below_nodes(level, cut);
        let b = tree_nodes((level - 1) as nat, rest.len());
        assert((a + b) * room == a * room + b * room) by (nonlinear_arith);
    } else {
        assert(0 * room == 0);
    }
}

pub proof fn lemma_rank_parts(records: Seq<RecordModel>, ndims: nat, cut: int)
    requires
        records_of_rank(records, ndims),
        0 <= cut <= records.len(),
    ensures
        records_of_rank(records.take(cut), ndims),
        records_of_rank(records.skip(cut), ndims),
{
    let front = records.take(cut);
    let rest = records.skip(cut);
    assert forall|i: int| 0 <= i < front.len() implies (#[trigger] front[i]).offsets.len()
        == ndims by {
        assert(front[i] == records[i]);
    }
    assert forall|i: int| 0 <= i < rest.len() implies (#[trigger] rest[i]).offsets.len()
        == ndims by {
        assert(rest[i] == records[cut + i]);
    }
}

/// The index of chunks takes as many bytes as are set aside for it.
pub proof fn law_chunk_index_len(ndims: nat, records: Seq<RecordModel>, at: nat)
    requires
        records_of_rank(records, ndims),
        records.len() <= MAX_CHUNKS,
    ensures
        chunk_index_image(ndims, records, at).len() == chunk_index_len(ndims, records.len()),
{
    lemma_entry_widths();
    lemma_tree_len(ndims, index_level(records.len()), records, at);
}

/// A tree has not many more nodes than chunks.
pub proof fn lemma_tree_nodes(level: nat, n: nat)
    ensures
        1 <= tree_nodes(level, n) <= level * n + 1,
    decreases level, n + 1,
{
    if level > 0 {
        lemma_below_nodes(level, n);
    }
}

proof fn lemma_below_nodes(level: nat, n: nat)
    requires
        level > 0,
    ensures
        below_nodes(level, n) <= level * n,
    decreases level, n,
{
    assert(level * n >= 0) by (nonlinear_arith);
    if n > 0 {
        let cut = before_last(level, n);
        lemma_before_last(level, n);
        lemma_below_nodes(level, cut);
        lemma_tree_nodes((level - 1) as nat, (n - cut) as nat);
        assert(level * cut + (level - 1) * (n - cut) + 1 <= level * n) by (nonlinear_arith)
            requires
                cut < n,
        ;
    }
}

/// How many chunks an entry of a node of that level stands for at most.
fn width_at(level: usize) -> (r: usize)
    requires
        level <= 3,
    ensures
        r == entry_width(level as nat),
{
    proof {
        lemma_entry_widths();
    }
    if level == 0 {
        1
    } else if level == 1 {
        64
    } else if level == 2 {
        4096
    } else {
        262144
    }
}

/// How many of `n` chunks come before those of the last entry.
fn cut_before_last(level: usize, n: usize) -> (r: usize)
    requires
        level <= 3,
        n > 0,
    ensures
        r == before_last(level as nat, n as nat),
        r < n,
{
    let w: usize = width_at(level);
    proof {
        lemma_entry_width_positive(level as nat);
        lemma_before_last(level as nat, n as nat);
        vstd::arithmetic::div_mod::lemma_div_pos_is_pos(n - 1, w as int);
    }
    (n - 1) / w * w
}

/// How many nodes a tree of that level has for `n` chunks.
fn count_nodes(level: usize, n: usize) -> (r: usize)
    requires
        level <= 3,
        n <= MAX_CHUNKS,
    ensures
        r == tree_nodes(level as nat, n as nat),
    decreases level, n + 1,
{
    proof {
        lemma_tree_nodes(level as nat, n as nat);
        assert(level * n <= 3 * n) by (nonlinear_arith)
            requires
                level <= 3,
        ;
    }
    if level == 0 {
        1
    } else {
        count_below(level, n) + 1
    }
}

fn count_below(level: usize, n: usize) -> (r: usize)
    requires
        1 <= level <= 3,
        n <= MAX_CHUNKS,
    ensures
        r == below_nodes(level as nat, n as nat),
    decreases level, n,
{
    if n == 0 {
        return 0;
    }
    let cut: usize = cut_before_last(level, n);
    proof {
        lemma_below_nodes(level as nat, n as nat);
        assert(level * n <= 3 * n) by (nonlinear_arith)
            requires
                level <= 3,
        ;
    }
    count_below(level, cut) + count_nodes(level - 1, n - cut)
}

/// The level of the index of `n` chunks.
fn level_for(n: usize) -> (r: usize)
    ensures
        r == index_level(n as nat),
{
    if n <= 64 {
        0
    } else if n <= 4096 {
        1
    } else if n <= 262144 {
        2
    } else {
        3
    }
}

/// Size of a node of the index of a dataset of rank `ndims`.
pub fn chunk_node_size(ndims: usize) -> (r: usize)
    requires
        chunk_node_room(ndims as nat) <= usize::MAX,
    ensures
        r == chunk_node_room(ndims as nat),
{
    let key: usize = 8 + (ndims + 1) * 8;
    24 + 64 * (key + 8) + key
}

/// How many nodes the index of `n` chunks has.
pub fn index_nodes(n: usize) -> (r: usize)
    requires
        n <= MAX_CHUNKS,
    ensures
        r == tree_nodes(index_level(n as nat), n as nat),
        r >= 1,
{
    proof {
        lemma_tree_nodes(index_level(n as nat), n as nat);
    }
    count_nodes(level_for(n), n)
}

/// Append a node.
fn push_node(out: &mut Vec<u8>, ndims: usize, level: usize, entries: &[ChunkRecord])
    requires
        level <= 3,
        entries@.len() <= 64,
        records_of_rank(views(entries@), ndims as nat),
        chunk_node_room(ndims as nat) <= usize::MAX,
    ensures
        final(out)@ == old(out)@ + index_node_image(ndims as nat, level as nat, views(entries@)),
{
    let ghost before = out@;
    let ghost all = views(entries@);
    let tag: Vec<u8> = vec![0x54u8, 0x52, 0x45, 0x45, 1, level as u8];
    proof {
        assert('T' as u8 == 0x54 && 'R' as u8 == 0x52 && 'E' as u8 == 0x45);
        assert(tag@ =~= seq!['T' as u8, 'R' as u8, 'E' as u8, 'E' as u8, 1u8, level as u8]);
    }
    push_all(out, &tag);
    push_le(out, entries.len() as u64, 2);
    push_le(out, u64::MAX, 8);
    push_le(out, u64::MAX, 8);
    let ghost head = out@;
    proof {
        assert(all.take(0) =~= Seq::<RecordModel>::empty());
        assert(out@ =~= head + chunk_entries_image(all.take(0)));
    }
    for i in 0..entries.len()
        invariant
            all == views(entries@),
            out@ == head + chunk_entries_image(all.take(i as int)),
    {
        let record: &ChunkRecord = &entries[i];
        let ghost before = out@;
        push_le(out, record.size as u64, 4);
        push_le(out, record.filter_mask as u64, 4);
        push_words(out, &record.offsets);
        push_zeros(out, 8);
        push_le(out, record.address, 8);
        proof {
            assert(all[i as int] == record@);
            assert(all.take(i + 1).drop_last() =~= all.take(i as int));
            assert(out@ =~= before + chunk_entry_image(record@));
            assert(out@ =~= head + chunk_entries_image(all.take(i + 1)));
        }
    }
    let key: usize = 8 + (ndims + 1) * 8;
    proof {
        let n = entries@.len() as int;
        let step = key as int + 8;
        assert(0 <= (64 - n) * step <= 64 * step) by (nonlinear_arith)
            requires
                0 <= n <= 64,
                step >= 0,
        ;
    }
    push_zeros(out, (64 - entries.len()) * (key + 8) + key);
    proof {
        assert(all.take(entries@.len() as int) =~= all);
        assert(out@ =~= before + index_node_image(ndims as nat, level as nat, all));
    }
}

/// Append a tree of that level, placed at `at`.
fn push_tree(out: &mut Vec<u8>, ndims: usize, level: usize, records: &[ChunkRecord], at: u64)
    requires
        level <= 3,
        records@.len() <= 64 * entry_width(level as nat),
        records@.len() <= MAX_CHUNKS,
        records_of_rank(views(records@), ndims as nat),
        at + tree_nodes(level as nat, records@.len()) * chunk_node_room(ndims as nat)
            <= usize::MAX,
    ensures
        final(out)@ == old(out)@ + tree_image(
            ndims as nat,
            level as nat,
            views(records@),
            at as nat,
        ),
    decreases level, records@.len() + 1,
{
    let ghost room = chunk_node_room(ndims as nat);
    let ghost all = views(records@);
    let ghost before = out@;
    proof {
        lemma_tree_nodes(level as nat, all.len());
        let n = tree_nodes(level as nat, all.len());
        assert(room <= n * room && (n - 1) * room == n * room - room) by (nonlinear_arith)
            requires
                n >= 1,
        ;
    }
    if level == 0 {
        proof {
            lemma_entry_widths();
        }
        push_node(out, ndims, 0, records);
    } else {
        let mut links: Vec<ChunkRecord> = Vec::new();
        push_below(out, &mut links, ndims, level, records, at);
        proof {
            assert(views(links@) =~= tree_links(ndims as nat, level as nat, all, at as nat));
            lemma_tree_links(ndims as nat, level as nat, all, at as nat);
        }
        push_node(out, ndims, level, &links);
        proof {
            assert(out@ =~= before + tree_image(ndims as nat, level as nat, all, at as nat));
        }
    }
}

/// Append the trees below a node of that level, and their entries to `links`.
fn push_below(
    out: &mut Vec<u8>,
    links: &mut Vec<ChunkRecord>,
    ndims: usize,
    level: usize,
    records: &[ChunkRecord],
    at: u64,
)
    requires
        1 <= level <= 3,
        records@.len() <= MAX_CHUNKS,
        records_of_rank(views(records@), ndims as nat),
        at + below_nodes(level as nat, records@.len()) * chunk_node_room(ndims as nat)
            <= usize::MAX,
        chunk_node_room(ndims as nat) <= usize::MAX,
    ensures
        final(out)@ == old(out)@ + below_image(
            ndims as nat,
            level as nat,
            views(records@),
            at as nat,
        ),
        views(final(links)@) == views(old(links)@) + tree_links(
            ndims as nat,
            level as nat,
            views(records@),
            at as nat,
        ),
    decreases level, records@.len(),
{
    let ghost room = chunk_node_room(ndims as nat);
    let ghost all = views(records@);
    let ghost before = out@;
    let ghost first = views(links@);
    let n: usize = records.len();
    if n == 0 {
        proof {
            assert(out@ =~= before + Seq::<u8>::empty());
            assert(views(links@) =~= first + Seq::<RecordModel>::empty());
        }
        return;
    }
    let cut: usize = cut_before_last(level, n);
    let front: &[ChunkRecord] = slice_subrange(records, 0, cut);
    let rest: &[ChunkRecord] = slice_subrange(records, cut, n);
    let ghost a = below_nodes(level as nat, cut as nat);
    let ghost b = tree_nodes((level - 1) as nat, (n - cut) as nat);
    proof {
        lemma_before_last(level as nat, n as nat);
        lemma_rank_parts(all, ndims as nat, cut as int);
        assert(views(front@) =~= all.take(cut as int));
        assert(views(rest@) =~= all.skip(cut as int));
        lemma_tree_nodes((level - 1) as nat, (n - cut) as nat);
        assert((a + b) * room == a * room + b * room && b * room >= room && (b - 1) * room == b
            * room - room && a * room >= 0) by (nonlinear_arith)
            requires
                b >= 1,
        ;
    }
    push_below(out, links, ndims, level, front, at);
    let nodes: usize = count_below(level, cut);
    let below: usize = count_nodes(level - 1, n - cut);
    let size: usize = chunk_node_size(ndims);
    let start: u64 = at + (nodes * size) as u64;
    push_tree(out, ndims, level - 1, rest, start);
    let root: u64 = start + ((below - 1) * size) as u64;
    let key: &ChunkRecord = &records[cut];
    let offsets: Vec<u64> = vstd::slice::slice_to_vec(key.offsets.as_slice());
    let ghost listed = views(links@);
    links.push(
        ChunkRecord { address: root, size: key.size, filter_mask: key.filter_mask, offsets },
    );
    proof {
        let last = links@[links@.len() - 1]@;
        assert(all[cut as int] == key@);
        assert(offsets@ =~= key.offsets@);
        assert(views(links@) =~= listed.push(last));
        assert(views(links@) =~= first + tree_links(ndims as nat, level as nat, all, at as nat));
        assert(out@ =~= before + below_image(ndims as nat, level as nat, all, at as nat));
    }
}

/// The index of chunks, placed at `at`.
pub fn chunk_index_bytes(ndims: usize, records: &[ChunkRecord], at: u64) -> (r: Vec<u8>)
    requires
        records_of_rank(views(records@), ndims as nat),
        records@.len() <= MAX_CHUNKS,
        at + chunk_index_len(ndims as nat, records@.len()) <= usize::MAX,
    ensures
        r@ == chunk_index_image(ndims as nat, views(records@), at as nat),
{
    proof {
        lemma_entry_widths();
    }
    let mut out: Vec<u8> = Vec::new();
    push_tree(&mut out, ndims, level_for(records.len()), records, at);
    proof {
        assert(out@ =~= chunk_index_image(ndims as nat, views(records@), at as nat));
    }
    out
}

/// Reading gives back what was written: wherever a file holds such a leaf, its one
/// record is that of the chunk at the origin.
pub proof fn law_chunk_node_reads_back(
    file: Seq<u8>,
    base: u64,
    ndims: nat,
    data_addr: u64,
    data_size: u32,
)
    requires
        base != u64::MAX,
        base + chunk_node_len(ndims) <= file.len(),
        file.subrange(base as int, base + chunk_node_len(ndims)) == chunk_node_image(
            ndims,
            data_addr as nat,
            data_size as nat,
        ),
    ensures
        tree_records(file, base, ndims) == Ok::<Seq<RecordModel>, ErrorKind>(
            seq![
                RecordModel {
                    address: data_addr,
                    size: data_size,
                    filter_mask: 0,
                    offsets: Seq::new(ndims, |d: int| 0u64),
                },
            ],
        ),
{
    let image = chunk_node_image(ndims, data_addr as nat, data_size as nat);
    let b = base as int;
    lemma_chunk_node_len(ndims, data_addr as nat, data_size as nat);
    lemma_le_bytes_len(1, 2);
    lemma_le_bytes_len(u64::MAX as nat, 8);
    lemma_le_bytes_len(data_size as nat, 4);
    lemma_le_bytes_len(data_addr as nat, 8);
    lemma_pow256_values();
    let key = key_size(ndims) as int;
    assert forall|k: int| 0 <= k < image.len() implies #[trigger] file[b + k] == image[k] by {
        assert(file.subrange(b, b + image.len())[k] == image[k]);
    }
    assert(file[b + 0] == image[0] && file[b + 1] == image[1] && file[b + 2] == image[2] && file[b
        + 3] == image[3] && file[b + 4] == image[4] && file[b + 5] == image[5]);
    assert(file.subrange(b + 6, b + 8) =~= le_bytes(1, 2)) by {
        assert forall|k: int| 0 <= k < 2 implies file[b + 6 + k] == #[trigger] le_bytes(1, 2)[k] by {
            assert(file[b + (6 + k)] == image[6 + k]);
        }
    }
    lemma_le_round_trip(1, 2, file, b + 6);
    assert(file.subrange(b + 24, b + 28) =~= le_bytes(data_size as nat, 4)) by {
        assert forall|k: int| 0 <= k < 4 implies file[b + 24 + k] == #[trigger] le_bytes(
            data_size as nat,
            4,
        )[k] by {
            assert(file[b + (24 + k)] == image[24 + k]);
        }
    }
    lemma_le_round_trip(data_size as nat, 4, file, b + 24);
    assert(file.subrange(b + 24 + key, b + 32 + key) =~= le_bytes(data_addr as nat, 8)) by {
        assert forall|k: int| 0 <= k < 8 implies file[b + 24 + key + k] == #[trigger] le_bytes(
            data_addr as nat,
            8,
        )[k] by {
            assert(file[b + (24 + key + k)] == image[24 + key + k]);
        }
    }
    lemma_le_round_trip(data_addr as nat, 8, file, b + 24 + key);
    assert forall|k: int| 28 <= k < 24 + key implies #[trigger] file[b + k] == 0 by {
        assert(image[k] == 0);
    }
    assert forall|k: int| 0 <= k < 4 implies #[trigger] file[b + 28 + k] == 0 by {
        assert(file[b + (28 + k)] == 0);
    }
    lemma_zero_at(file, b + 28, 4);
    assert(leaf_record(file, b, ndims, 0).offsets =~= Seq::new(ndims, |d: int| 0u64)) by {
        assert forall|d: int| 0 <= d < ndims implies #[trigger] leaf_record(
            file,
            b,
            ndims,
            0,
        ).offsets[d] == 0u64 by {
            assert forall|k: int| 0 <= k < 8 implies #[trigger] file[b + 32 + d * 8 + k] == 0 by {
                assert(file[b + (32 + d * 8 + k)] == 0);
            }
            lemma_zero_at(file, b + 32 + d * 8, 8);
            assert(entry_pos(b, ndims, 0) == b + 24);
        }
    }
    assert(0 * (key + 8) == 0 && 1 * (key + 8) == key + 8);
    assert(entry_pos(b, ndims, 0) == b + 24);
    assert(entry_pos(b, ndims, 1) == b + 32 + key);
    reveal_with_fuel(entry_records, 2);
    assert(entry_records(file, b, ndims, 0, 1)->Ok_0 =~= seq![leaf_record(file, b, ndims, 0)]);
}

/// Zero bytes spell zero.
pub proof fn lemma_zero_at(file: Seq<u8>, pos: int, n: nat)
    requires
        forall|k: int| 0 <= k < n ==> #[trigger] file[pos + k] == 0,
    ensures
        le_at(file, pos, n) == 0,
    decreases n,
{
    if n > 0 {
        assert(file[pos + 0] == 0);
        assert forall|k: int| 0 <= k < n - 1 implies #[trigger] file[pos + 1 + k] == 0 by {
            assert(file[pos + (1 + k)] == 0);
        }
        lemma_zero_at(file, pos + 1, (n - 1) as nat);
    }
}

} // verus!
