//! Version 1 B-trees over chunks, however wide their nodes are.

use vstd::prelude::*;
use crate::btree_v1_chunk::{
    entry_pos, entry_records, key_size, leaf_record, node_records,
};
use crate::bytes::{le_at, le_bytes, lemma_le_bytes_len, lemma_pow256_values, tag_at};
use crate::chunk_record::{ChunkRecord, RecordModel};
use crate::dtype::views;
use crate::error::{outcomes, ErrorKind, OxiH5Error};
use crate::laws::virtual_datasets::{lemma_number, lemma_numbers_len, numbers_image};
use crate::roundtrip::held::{held, lemma_held_bytes, lemma_held_number, lemma_held_parts};

verus! {

/// The position of a chunk as numbers.
pub open spec fn positions(offsets: Seq<u64>) -> Seq<nat> {
    Seq::new(offsets.len(), |d: int| offsets[d] as nat)
}

/// The bytes of an entry: the stored size of a chunk, its filter mask, its position, one
/// more coordinate, and the address of the child.
pub open spec fn entry_image(record: RecordModel, extra: u64) -> Seq<u8> {
    le_bytes(record.size as nat, 4) + le_bytes(record.filter_mask as nat, 4) + numbers_image(
        positions(record.offsets),
        8,
    ) + le_bytes(extra as nat, 8) + le_bytes(record.address as nat, 8)
}

/// The bytes of entries, one after the other.
pub open spec fn entries_image(records: Seq<RecordModel>, extras: Seq<u64>) -> Seq<u8>
    decreases records.len(),
{
    if records.len() == 0 {
        Seq::empty()
    } else {
        entries_image(records.drop_last(), extras.drop_last()) + entry_image(
            records.last(),
            extras.last(),
        )
    }
}

/// Whether all positions have one coordinate for each dimension.
pub open spec fn of_rank(records: Seq<RecordModel>, ndims: nat) -> bool {
    forall|i: int| 0 <= i < records.len() ==> (#[trigger] records[i]).offsets.len() == ndims
}

proof fn lemma_entry_len(record: RecordModel, extra: u64)
    ensures
        entry_image(record, extra).len() == key_size(record.offsets.len()) + 8,
{
    lemma_le_bytes_len(record.size as nat, 4);
    lemma_le_bytes_len(record.filter_mask as nat, 4);
    lemma_le_bytes_len(extra as nat, 8);
    lemma_le_bytes_len(record.address as nat, 8);
    lemma_numbers_len(positions(record.offsets), 8);
}

proof fn lemma_entries_len(records: Seq<RecordModel>, extras: Seq<u64>, ndims: nat)
    requires
        of_rank(records, ndims),
    ensures
        entries_image(records, extras).len() == records.len() * (key_size(ndims) + 8),
    decreases records.len(),
{
    let n = records.len() as int;
    let w = key_size(ndims) as int + 8;
    if n > 0 {
        lemma_entries_len(records.drop_last(), extras.drop_last(), ndims);
        lemma_entry_len(records.last(), extras.last());
        assert(records[n - 1].offsets.len() == ndims);
        assert(n * w == (n - 1) * w + w) by (nonlinear_arith);
    } else {
        assert(0 * w == 0) by (nonlinear_arith);
    }
}

proof fn lemma_entry_held(
    f: Seq<u8>,
    pos: int,
    records: Seq<RecordModel>,
    extras: Seq<u64>,
    ndims: nat,
    i: int,
)
    requires
        of_rank(records, ndims),
        extras.len() == records.len(),
        held(f, pos, entries_image(records, extras)),
        0 <= i < records.len(),
    ensures
        held(f, pos + i * (key_size(ndims) + 8), entry_image(records[i], extras[i])),
    decreases records.len(),
{
    let front = entries_image(records.drop_last(), extras.drop_last());
    lemma_entries_len(records.drop_last(), extras.drop_last(), ndims);
    lemma_held_parts(f, pos, front, entry_image(records.last(), extras.last()));
    if i < records.len() - 1 {
        lemma_entry_held(f, pos, records.drop_last(), extras.drop_last(), ndims, i);
    }
}

/// An entry reads back.
proof fn lemma_record(
    f: Seq<u8>,
    addr: int,
    records: Seq<RecordModel>,
    extras: Seq<u64>,
    ndims: nat,
    i: int,
)
    requires
        of_rank(records, ndims),
        extras.len() == records.len(),
        held(f, addr + 24, entries_image(records, extras)),
        0 <= i < records.len(),
    ensures
        leaf_record(f, addr, ndims, i) == records[i],
        le_at(f, entry_pos(addr, ndims, i) + key_size(ndims), 8) == records[i].address,
{
    let record = records[i];
    let pos = entry_pos(addr, ndims, i);
    assert(record.offsets.len() == ndims);
    lemma_entry_held(f, addr + 24, records, extras, ndims, i);
    lemma_pow256_values();
    let a = le_bytes(record.size as nat, 4);
    let b = le_bytes(record.filter_mask as nat, 4);
    let c = numbers_image(positions(record.offsets), 8);
    let d = le_bytes(extras[i] as nat, 8);
    let e = le_bytes(record.address as nat, 8);
    lemma_le_bytes_len(record.size as nat, 4);
    lemma_le_bytes_len(record.filter_mask as nat, 4);
    lemma_le_bytes_len(extras[i] as nat, 8);
    lemma_numbers_len(positions(record.offsets), 8);
    lemma_held_parts(f, pos, a + b + c + d, e);
    lemma_held_parts(f, pos, a + b + c, d);
    lemma_held_parts(f, pos, a + b, c);
    lemma_held_parts(f, pos, a, b);
    lemma_held_number(f, pos, record.size as nat, 4);
    lemma_held_number(f, pos + 4, record.filter_mask as nat, 4);
    lemma_held_number(f, pos + key_size(ndims), record.address as nat, 8);
    let read = leaf_record(f, addr, ndims, i);
    assert forall|k: int| 0 <= k < ndims implies #[trigger] read.offsets[k]
        == record.offsets[k] by {
        lemma_number(f, pos + 8, positions(record.offsets), 8, k);
        assert(positions(record.offsets)[k] == record.offsets[k]);
    }
    assert(read.offsets =~= record.offsets);
}

/// The bytes of a node: its level, the number of its entries, the addresses of its siblings
/// and the entries.
pub open spec fn node_image(
    level: u8,
    siblings: Seq<u8>,
    records: Seq<RecordModel>,
    extras: Seq<u64>,
) -> Seq<u8> {
    seq!['T' as u8, 'R' as u8, 'E' as u8, 'E' as u8, 1u8, level] + le_bytes(records.len(), 2)
        + siblings + entries_image(records, extras)
}

proof fn lemma_node(
    f: Seq<u8>,
    p: int,
    level: u8,
    siblings: Seq<u8>,
    records: Seq<RecordModel>,
    extras: Seq<u64>,
    ndims: nat,
)
    requires
        of_rank(records, ndims),
        siblings.len() == 16,
        records.len() <= u16::MAX,
        held(f, p, node_image(level, siblings, records, extras)),
    ensures
        entry_pos(p, ndims, records.len() as int) <= f.len(),
        p + 24 <= f.len(),
        tag_at(f, p, 'T', 'R', 'E', 'E'),
        f[p + 4] == 1,
        f[p + 5] == level,
        le_at(f, p + 6, 2) == records.len(),
        held(f, p + 24, entries_image(records, extras)),
{
    let a = seq!['T' as u8, 'R' as u8, 'E' as u8, 'E' as u8, 1u8, level];
    let b = le_bytes(records.len(), 2);
    let d = entries_image(records, extras);
    lemma_pow256_values();
    lemma_le_bytes_len(records.len(), 2);
    lemma_entries_len(records, extras, ndims);
    lemma_held_parts(f, p, a + b + siblings, d);
    lemma_held_parts(f, p, a + b, siblings);
    lemma_held_parts(f, p, a, b);
    lemma_held_bytes(f, p, a);
    assert(a[0] == f[p + 0] && a[1] == f[p + 1] && a[2] == f[p + 2] && a[3] == f[p + 3] && a[4]
        == f[p + 4] && a[5] == f[p + 5]);
    lemma_held_number(f, p + 6, records.len(), 2);
}

proof fn lemma_leaf(
    f: Seq<u8>,
    p: int,
    records: Seq<RecordModel>,
    extras: Seq<u64>,
    ndims: nat,
    k: nat,
)
    requires
        of_rank(records, ndims),
        extras.len() == records.len(),
        held(f, p + 24, entries_image(records, extras)),
        k <= records.len(),
    ensures
        entry_records(f, p, ndims, 0, k) == Ok::<Seq<RecordModel>, ErrorKind>(
            records.take(k as int),
        ),
    decreases k,
{
    if k > 0 {
        lemma_leaf(f, p, records, extras, ndims, (k - 1) as nat);
        lemma_record(f, p, records, extras, ndims, k - 1);
        assert(records.take(k - 1).push(records[k - 1]) =~= records.take(k as int));
    } else {
        assert(records.take(0) =~= Seq::<RecordModel>::empty());
    }
}

/// The chunks under the first `k` children.
pub open spec fn chunks_under(below: Seq<Seq<RecordModel>>, k: nat) -> Seq<RecordModel>
    decreases k,
{
    if k == 0 {
        Seq::empty()
    } else {
        chunks_under(below, (k - 1) as nat) + below[k - 1]
    }
}

proof fn lemma_branch(
    f: Seq<u8>,
    p: int,
    level: u8,
    records: Seq<RecordModel>,
    extras: Seq<u64>,
    ndims: nat,
    below: Seq<Seq<RecordModel>>,
    k: nat,
)
    requires
        level > 0,
        of_rank(records, ndims),
        extras.len() == records.len(),
        held(f, p + 24, entries_image(records, extras)),
        k <= records.len(),
        forall|j: int|
            0 <= j < records.len() ==> {
                &&& node_records(f, (#[trigger] records[j]).address as int, ndims, 256) == Ok::<
                    Seq<RecordModel>,
                    ErrorKind,
                >(below[j])
                &&& f[records[j].address as int + 5] < level
            },
    ensures
        entry_records(f, p, ndims, level as nat, k) == Ok::<Seq<RecordModel>, ErrorKind>(
            chunks_under(below, k),
        ),
    decreases k,
{
    if k > 0 {
        lemma_branch(f, p, level, records, extras, ndims, below, (k - 1) as nat);
        lemma_record(f, p, records, extras, ndims, k - 1);
        let child = records[k - 1].address as int;
        assert(f[child + 5] < level);
        assert(node_records(f, child, ndims, level as nat) == node_records(f, child, ndims, 256));
    }
}

/// The chunks of a version 1 B-tree are those in the entries of its leaf nodes, in order:
/// those of the root where it is one, and else those under its children, one after the
/// other. There are none where no root is.
pub proof fn law_chunk_btree(
    file: &[u8],
    address: u64,
    ndims: usize,
    level: u8,
    siblings: Seq<u8>,
    records: Seq<RecordModel>,
    extras: Seq<u64>,
    below: Seq<Result<Vec<ChunkRecord>, OxiH5Error>>,
    r: Result<Vec<ChunkRecord>, OxiH5Error>,
)
    requires
        address != u64::MAX ==> {
            &&& of_rank(records, ndims as nat)
            &&& siblings.len() == 16
            &&& records.len() <= u16::MAX
            &&& extras.len() == records.len() == below.len()
            &&& held(file@, address as int, node_image(level, siblings, records, extras))
            &&& level > 0 ==> forall|j: int|
                0 <= j < records.len() ==> {
                    &&& records[j].address != u64::MAX
                    &&& call_ensures(
                        crate::btree_v1_chunk::parse,
                        (file, records[j].address, ndims),
                        #[trigger] below[j],
                    )
                    &&& below[j] is Ok
                    &&& file@[records[j].address as int + 5] < level
                }
        },
        call_ensures(crate::btree_v1_chunk::parse, (file, address, ndims), r),
    ensures
        outcomes(r) == Ok::<Seq<RecordModel>, ErrorKind>(
            if address == u64::MAX {
                Seq::empty()
            } else if level == 0 {
                records
            } else {
                chunks_under(
                    Seq::new(below.len(), |j: int| views(below[j]->Ok_0@)),
                    records.len(),
                )
            },
        ),
{
    let f = file@;
    let p = address as int;
    if address != u64::MAX {
        lemma_node(f, p, level, siblings, records, extras, ndims as nat);
        if level == 0 {
            lemma_leaf(f, p, records, extras, ndims as nat, records.len());
            assert(records.take(records.len() as int) =~= records);
        } else {
            let chunks = Seq::new(below.len(), |j: int| views(below[j]->Ok_0@));
            assert forall|j: int| 0 <= j < records.len() implies node_records(
                f,
                (#[trigger] records[j]).address as int,
                ndims as nat,
                256,
            ) == Ok::<Seq<RecordModel>, ErrorKind>(chunks[j]) && f[records[j].address as int + 5]
                < level by {
                assert(call_ensures(
                    crate::btree_v1_chunk::parse,
                    (file, records[j].address, ndims),
                    below[j],
                ));
            }
            lemma_branch(
                f,
                p,
                level,
                records,
                extras,
                ndims as nat,
                chunks,
                records.len(),
            );
        }
    }
}

} // verus!
