//! Version 2 B-trees: a tree over records is read as these records, in order.

use vstd::prelude::*;
use crate::btree_v2::{
    child_records, chunk_in, contents, leaf_room, node_records, parse_chunks, parse_tree,
    pointer_size, read_records, record_at, record_pos, room_below, scaled_position, tree_at,
    tree_chunks, width_for, Tree,
};
use crate::bytes::{le_at, le_bytes, lemma_le_bytes_len, lemma_pow256_values, pow256};
use crate::chunk_record::{ChunkRecord, RecordModel};
use crate::error::{outcomes, try_each, ErrorKind, OxiH5Error};
use crate::laws::messages::{lemma_wide, wide};
use crate::laws::spelling::{lemma_piece, piece, runs};
use crate::roundtrip::held::{
    held, lemma_held_bytes, lemma_held_number, lemma_held_part, lemma_held_parts,
};
use crate::roundtrip::values::lemma_try_each_is;
use crate::write::attr::words_image;

verus! {

/// The header of a tree: `BTHD`, version 0, the type of its records, the size of a node,
/// the size of a record, its depth, two percentages, the address and the number of records
/// of its root, the number of all records, a checksum.
pub open spec fn tree_header(tree: Tree, a: u8, b: u8, total: nat, checksum: nat) -> Seq<u8> {
    seq!['B' as u8, 'T' as u8, 'H' as u8, 'D' as u8, 0u8, tree.record_type] + le_bytes(
        tree.node_size as nat,
        4,
    ) + le_bytes(tree.record_size as nat, 2) + le_bytes(tree.depth as nat, 2) + seq![a, b]
        + le_bytes(tree.root as nat, 8) + le_bytes(tree.root_count as nat, 2) + le_bytes(total, 8)
        + le_bytes(checksum, 4)
}

/// The header of a tree is read as what it says.
pub proof fn law_tree_header(
    file: &[u8],
    addr: u64,
    tree: Tree,
    a: u8,
    b: u8,
    total: nat,
    checksum: nat,
    r: Result<Tree, OxiH5Error>,
)
    requires
        tree.record_size > 0,
        tree.node_size >= 10,
        held(file@, addr as int, tree_header(tree, a, b, total, checksum)),
        call_ensures(parse_tree, (file, addr), r),
    ensures
        r == Ok::<Tree, OxiH5Error>(tree),
{
    lemma_tree_header(file@, addr as int, tree, a, b, total, checksum);
}

proof fn lemma_tree_header(
    s: Seq<u8>,
    p: int,
    tree: Tree,
    a: u8,
    b: u8,
    total: nat,
    checksum: nat,
)
    requires
        tree.record_size > 0,
        tree.node_size >= 10,
        held(s, p, tree_header(tree, a, b, total, checksum)),
    ensures
        tree_at(s, p) == Ok::<Tree, ErrorKind>(tree),
{
    lemma_pow256_values();
    let head = seq!['B' as u8, 'T' as u8, 'H' as u8, 'D' as u8, 0u8, tree.record_type];
    let c = le_bytes(tree.node_size as nat, 4);
    let d = le_bytes(tree.record_size as nat, 2);
    let e = le_bytes(tree.depth as nat, 2);
    let f = seq![a, b];
    let g = le_bytes(tree.root as nat, 8);
    let h = le_bytes(tree.root_count as nat, 2);
    let i = le_bytes(total, 8);
    let j = le_bytes(checksum, 4);
    lemma_le_bytes_len(tree.node_size as nat, 4);
    lemma_le_bytes_len(tree.record_size as nat, 2);
    lemma_le_bytes_len(tree.depth as nat, 2);
    lemma_le_bytes_len(tree.root as nat, 8);
    lemma_le_bytes_len(tree.root_count as nat, 2);
    lemma_le_bytes_len(total, 8);
    lemma_le_bytes_len(checksum, 4);
    lemma_held_parts(s, p, head + c + d + e + f + g + h + i, j);
    lemma_held_parts(s, p, head + c + d + e + f + g + h, i);
    lemma_held_parts(s, p, head + c + d + e + f + g, h);
    lemma_held_parts(s, p, head + c + d + e + f, g);
    lemma_held_parts(s, p, head + c + d + e, f);
    lemma_held_parts(s, p, head + c + d, e);
    lemma_held_parts(s, p, head + c, d);
    lemma_held_parts(s, p, head, c);
    lemma_held_bytes(s, p, head);
    assert(head[0] == s[p + 0] && head[1] == s[p + 1] && head[2] == s[p + 2] && head[3] == s[p + 3]
        && head[4] == s[p + 4] && head[5] == s[p + 5]);
    lemma_held_number(s, p + 6, tree.node_size as nat, 4);
    lemma_held_number(s, p + 10, tree.record_size as nat, 2);
    lemma_held_number(s, p + 12, tree.depth as nat, 2);
    lemma_held_number(s, p + 16, tree.root as nat, 8);
    lemma_held_number(s, p + 24, tree.root_count as nat, 2);
}

/// Whether bytes are these records, one after the other.
pub open spec fn records_in(data: Seq<u8>, records: Seq<Seq<u8>>, size: nat) -> bool {
    &&& runs(data, records.len(), size)
    &&& forall|i: int| 0 <= i < records.len() ==> piece(data, i, size) == #[trigger] records[i]
}

/// Whether a file holds a leaf with these records: `BTLF`, version 0, their type, the
/// records.
pub open spec fn holds_leaf(
    file: Seq<u8>,
    tree: Tree,
    addr: int,
    records: Seq<Seq<u8>>,
) -> bool {
    exists|data: Seq<u8>|
        {
            &&& #[trigger] records_in(data, records, tree.record_size as nat)
            &&& held(
                file,
                addr,
                seq!['B' as u8, 'T' as u8, 'L' as u8, 'F' as u8, 0u8, tree.record_type] + data,
            )
        }
}

/// The records of a node.
proof fn lemma_own_records(
    file: Seq<u8>,
    tree: Tree,
    addr: int,
    data: Seq<u8>,
    records: Seq<Seq<u8>>,
)
    requires
        records_in(data, records, tree.record_size as nat),
        held(file, addr + 6, data),
    ensures
        record_pos(tree, addr, records.len() as int) == addr + 6 + data.len(),
        addr + 6 + data.len() <= file.len(),
        forall|i: int|
            0 <= i < records.len() ==> record_at(file, tree, addr, i) == #[trigger] records[i],
{
    let size = tree.record_size as nat;
    assert forall|i: int| 0 <= i < records.len() implies record_at(file, tree, addr, i)
        == #[trigger] records[i] by {
        lemma_piece(data, records.len(), size, i);
        assert(piece(data, i, size) == records[i]);
        assert(held(data, i * size, records[i]));
        lemma_held_part(file, addr + 6, data, i * size, records[i]);
    }
}

proof fn lemma_leaf(file: Seq<u8>, tree: Tree, addr: int, records: Seq<Seq<u8>>)
    requires
        holds_leaf(file, tree, addr, records),
    ensures
        node_records(file, tree, addr, records.len(), 0) == Ok::<Seq<Seq<u8>>, ErrorKind>(records),
{
    let head = seq!['B' as u8, 'T' as u8, 'L' as u8, 'F' as u8, 0u8, tree.record_type];
    let data = choose|data: Seq<u8>|
        {
            &&& #[trigger] records_in(data, records, tree.record_size as nat)
            &&& held(
                file,
                addr,
                seq!['B' as u8, 'T' as u8, 'L' as u8, 'F' as u8, 0u8, tree.record_type] + data,
            )
        };
    lemma_held_parts(file, addr, head, data);
    lemma_held_bytes(file, addr, head);
    assert(head[0] == file[addr + 0] && head[1] == file[addr + 1] && head[2] == file[addr + 2]
        && head[3] == file[addr + 3] && head[4] == file[addr + 4] && head[5] == file[addr + 5]);
    lemma_own_records(file, tree, addr, data, records);
    let found = Seq::new(records.len(), |i: int| record_at(file, tree, addr, i));
    assert forall|i: int| 0 <= i < records.len() implies #[trigger] found[i] == records[i] by {
        assert(record_at(file, tree, addr, i) == records[i]);
    }
    assert(found =~= records);
}

/// A tree that is a leaf is read as the records of the leaf.
pub proof fn law_single_leaf(
    file: &[u8],
    tree: &Tree,
    records: Seq<Seq<u8>>,
    r: Result<Vec<Vec<u8>>, OxiH5Error>,
)
    requires
        tree.depth == 0,
        tree.root != u64::MAX,
        records.len() == tree.root_count,
        holds_leaf(file@, *tree, tree.root as int, records),
        call_ensures(read_records, (file, tree), r),
    ensures
        r is Ok,
        contents(r->Ok_0@) == records,
{
    lemma_leaf(file@, *tree, tree.root as int, records);
    if records.len() == 0 {
        assert(records =~= Seq::<Seq<u8>>::empty());
    }
}

/// The records of the first `k` children, each child's followed by the record behind it.
pub open spec fn woven(children: Seq<Seq<Seq<u8>>>, records: Seq<Seq<u8>>, k: nat) -> Seq<Seq<u8>>
    decreases k,
{
    if k == 0 {
        Seq::empty()
    } else {
        let front = woven(children, records, (k - 1) as nat) + children[k - 1];
        if k - 1 < records.len() {
            front.push(records[k - 1])
        } else {
            front
        }
    }
}

/// A pointer to a leaf: its address and the number of its records.
pub open spec fn leaf_pointer(address: u64, count: nat, width: nat) -> Seq<u8> {
    le_bytes(address as nat, 8) + le_bytes(count, width)
}

/// Whether a number of bytes is what numbers up to `n` take, and no more than that.
pub open spec fn is_width_of(width: nat, n: nat) -> bool {
    &&& 1 <= width <= 8
    &&& n < pow256(width)
    &&& width == 1 || pow256((width - 1) as nat) <= n
}

/// Numbers take as many bytes as they need.
pub proof fn law_width(n: nat)
    requires
        n <= u64::MAX,
    ensures
        is_width_of(width_for(n), n),
        forall|w: nat| #[trigger] is_width_of(w, n) ==> w == width_for(n),
{
    reveal_with_fuel(pow256, 9);
    assert forall|w: nat| #[trigger] is_width_of(w, n) implies w == width_for(n) by {
        assert(w == 1 || w == 2 || w == 3 || w == 4 || w == 5 || w == 6 || w == 7 || w == 8);
    }
}

/// Whether a file holds a node over leaves: `BTIN`, version 0, the type of records, the
/// node's own records, and the pointers to the leaves, one more than there are records.
/// The number of a leaf's records takes as many bytes as the most that a leaf has room for.
pub open spec fn holds_branch(
    file: Seq<u8>,
    tree: Tree,
    addr: int,
    records: Seq<Seq<u8>>,
    places: Seq<u64>,
    children: Seq<Seq<Seq<u8>>>,
    width: nat,
    data: Seq<u8>,
    pointers: Seq<u8>,
) -> bool {
    &&& is_width_of(width, ((tree.node_size - 10) / tree.record_size as int) as nat)
    &&& children.len() == records.len() + 1
    &&& places.len() == children.len()
    &&& records_in(data, records, tree.record_size as nat)
    &&& runs(pointers, children.len(), 8 + width)
    &&& forall|i: int|
        0 <= i < children.len() ==> {
            &&& (#[trigger] children[i]).len() < pow256(width)
            &&& piece(pointers, i, 8 + width) == leaf_pointer(places[i], children[i].len(), width)
            &&& holds_leaf(file, tree, places[i] as int, children[i])
        }
    &&& held(
        file,
        addr,
        seq!['B' as u8, 'T' as u8, 'I' as u8, 'N' as u8, 0u8, tree.record_type] + data + pointers,
    )
}

proof fn lemma_children(
    file: Seq<u8>,
    tree: Tree,
    addr: int,
    records: Seq<Seq<u8>>,
    places: Seq<u64>,
    children: Seq<Seq<Seq<u8>>>,
    width: nat,
    data: Seq<u8>,
    pointers: Seq<u8>,
    k: nat,
)
    requires
        tree.record_size > 0,
        tree.node_size >= 10,
        holds_branch(file, tree, addr, records, places, children, width, data, pointers),
        k <= children.len(),
        width == width_for(leaf_room(tree)),
        held(file, addr + 6, data),
        held(file, addr + 6 + data.len(), pointers),
    ensures
        child_records(file, tree, addr, records.len(), 1, 8 + width, k) == Ok::<
            Seq<Seq<u8>>,
            ErrorKind,
        >(woven(children, records, k)),
    decreases k,
{
    if k > 0 {
        let i = k - 1;
        lemma_children(
            file,
            tree,
            addr,
            records,
            places,
            children,
            width,
            data,
            pointers,
            i as nat,
        );
        lemma_own_records(file, tree, addr, data, records);
        lemma_pow256_values();
        let size = 8 + width;
        let from = addr + 6 + data.len();
        let part = leaf_pointer(places[i], children[i].len(), width);
        assert(children[i].len() < pow256(width));
        lemma_piece(pointers, children.len(), size, i);
        assert(held(pointers, i * size, part));
        lemma_held_part(file, from, pointers, i * size, part);
        let pos = from + i * size;
        lemma_le_bytes_len(places[i] as nat, 8);
        lemma_held_parts(
            file,
            pos,
            le_bytes(places[i] as nat, 8),
            le_bytes(children[i].len(), width),
        );
        lemma_held_number(file, pos, places[i] as nat, 8);
        lemma_held_number(file, pos + 8, children[i].len(), width);
        lemma_leaf(file, tree, places[i] as int, children[i]);
        if i < records.len() {
            assert(record_at(file, tree, addr, i) == records[i]);
        }
    }
}

/// A tree of two levels is read as the records of its leaves with those of its root
/// between them, in order.
pub proof fn law_two_levels(
    file: &[u8],
    tree: &Tree,
    records: Seq<Seq<u8>>,
    places: Seq<u64>,
    children: Seq<Seq<Seq<u8>>>,
    width: nat,
    data: Seq<u8>,
    pointers: Seq<u8>,
    r: Result<Vec<Vec<u8>>, OxiH5Error>,
)
    requires
        tree.depth == 1,
        tree.root != u64::MAX,
        tree.record_size > 0,
        tree.node_size >= 10,
        records.len() == tree.root_count,
        records.len() > 0,
        holds_branch(
            file@,
            *tree,
            tree.root as int,
            records,
            places,
            children,
            width,
            data,
            pointers,
        ),
        call_ensures(read_records, (file, tree), r),
    ensures
        r is Ok,
        contents(r->Ok_0@) == woven(children, records, children.len()),
{
    let s = file@;
    let addr = tree.root as int;
    let t = *tree;
    vstd::arithmetic::div_mod::lemma_div_pos_is_pos(t.node_size - 10, t.record_size as int);
    assert((t.node_size - 10) / t.record_size as int <= t.node_size - 10) by (nonlinear_arith)
        requires
            t.node_size - 10 >= 0,
            t.record_size >= 1,
    ;
    law_width(leaf_room(t));
    assert(is_width_of(width, leaf_room(t)));
    let head = seq!['B' as u8, 'T' as u8, 'I' as u8, 'N' as u8, 0u8, t.record_type];
    lemma_held_parts(s, addr, head + data, pointers);
    lemma_held_parts(s, addr, head, data);
    lemma_held_bytes(s, addr, head);
    assert(head[0] == s[addr + 0] && head[1] == s[addr + 1] && head[2] == s[addr + 2] && head[3]
        == s[addr + 3] && head[4] == s[addr + 4] && head[5] == s[addr + 5]);
    lemma_own_records(s, t, addr, data, records);
    assert(room_below(t, 0) == Some(leaf_room(t)));
    assert(pointer_size(t, 0, leaf_room(t)) == 8 + width);
    lemma_children(s, t, addr, records, places, children, width, data, pointers, children.len());
    let n = (records.len() + 1) as nat;
    assert(n * (8 + width) == pointers.len());
    assert(node_records(s, t, addr, records.len(), 1) == child_records(
        s,
        t,
        addr,
        records.len(),
        1,
        8 + width,
        n,
    ));
}

/// A record on a chunk: its address; with filters its stored size and its filter mask; its
/// coordinates in units of chunks.
pub open spec fn chunk_record_image(
    filtered: bool,
    width: nat,
    address: u64,
    size: u32,
    mask: u32,
    cell: Seq<u64>,
) -> Seq<u8> {
    if filtered {
        le_bytes(address as nat, 8) + le_bytes(size as nat, width) + le_bytes(mask as nat, 4)
            + words_image(wide(cell))
    } else {
        le_bytes(address as nat, 8) + words_image(wide(cell))
    }
}

/// The type of records on chunks.
pub open spec fn chunk_record_type(filtered: bool) -> u8 {
    if filtered {
        11
    } else {
        10
    }
}

/// A record on a chunk says where the chunk is stored, in how many bytes and through which
/// filters, and that it starts at its coordinates times the chunk shape. Without filters
/// it is as large as a chunk is.
pub proof fn law_chunk_record(
    filtered: bool,
    width: nat,
    address: u64,
    size: u32,
    mask: u32,
    cell: Seq<u64>,
    chunk_dims: Seq<u64>,
    chunk_bytes: usize,
)
    requires
        1 <= width <= 8,
        size < pow256(width),
        chunk_dims.len() == cell.len(),
        chunk_bytes <= u32::MAX,
        !filtered ==> size == chunk_bytes && mask == 0,
        forall|d: int| 0 <= d < cell.len() ==> #[trigger] cell[d] * chunk_dims[d] <= u64::MAX,
    ensures
        chunk_in(
            chunk_record_type(filtered),
            chunk_record_image(filtered, width, address, size, mask, cell),
            cell.len(),
            chunk_dims,
            chunk_bytes,
        ) == Ok::<RecordModel, ErrorKind>(
            RecordModel {
                address,
                size,
                filter_mask: mask,
                offsets: Seq::new(cell.len(), |d: int| (cell[d] * chunk_dims[d]) as u64),
            },
        ),
{
    let s = chunk_record_image(filtered, width, address, size, mask, cell);
    lemma_pow256_values();
    assert(held(s, 0, s)) by {
        assert(s.subrange(0, s.len() as int) =~= s);
    }
    let a = le_bytes(address as nat, 8);
    let d = words_image(wide(cell));
    lemma_le_bytes_len(address as nat, 8);
    let at = if filtered {
        let b = le_bytes(size as nat, width);
        let c = le_bytes(mask as nat, 4);
        lemma_le_bytes_len(size as nat, width);
        lemma_le_bytes_len(mask as nat, 4);
        lemma_held_parts(s, 0, a + b + c, d);
        lemma_held_parts(s, 0, a + b, c);
        lemma_held_parts(s, 0, a, b);
        lemma_held_number(s, 8, size as nat, width);
        lemma_held_number(s, 8 + width as int, mask as nat, 4);
        12 + width as int
    } else {
        lemma_held_parts(s, 0, a, d);
        8int
    };
    lemma_held_number(s, 0, address as nat, 8);
    lemma_wide(s, at, cell);
    let numbers = crate::message::numbers_at(s, at, cell.len());
    assert forall|e: int| 0 <= e < cell.len() implies #[trigger] le_at(s, at + e * 8, 8)
        == cell[e] by {
        assert(numbers[e] == cell[e]);
        crate::bytes::lemma_le_at_bound(s, at + e * 8, 8);
    }
    assert forall|e: int| 0 <= e < cell.len() implies #[trigger] le_at(s, at + e * 8, 8)
        * chunk_dims[e] <= u64::MAX by {
        assert(cell[e] * chunk_dims[e] <= u64::MAX);
    }
    let found = scaled_position(s, at, cell.len(), chunk_dims)->Ok_0;
    let goal = Seq::new(cell.len(), |e: int| (cell[e] * chunk_dims[e]) as u64);
    assert(found =~= goal);
}

/// A tree over chunks is read as these chunks, in order.
pub proof fn law_tree_of_chunks(
    file: &[u8],
    addr: u64,
    tree: Tree,
    a: u8,
    b: u8,
    total: nat,
    checksum: nat,
    chunk_dims: &[u64],
    chunk_bytes: usize,
    filtered: bool,
    width: nat,
    images: Seq<Seq<u8>>,
    chunks: Seq<RecordModel>,
    cells: Seq<Seq<u64>>,
    found: Result<Vec<Vec<u8>>, OxiH5Error>,
    r: Result<Vec<ChunkRecord>, OxiH5Error>,
)
    requires
        tree.record_size > 0,
        tree.node_size >= 10,
        tree.record_type == chunk_record_type(filtered),
        held(file@, addr as int, tree_header(tree, a, b, total, checksum)),
        call_ensures(read_records, (file, &tree), found),
        found is Ok,
        contents(found->Ok_0@) == images,
        images.len() == chunks.len(),
        cells.len() == chunks.len(),
        1 <= width <= 8,
        chunk_bytes <= u32::MAX,
        forall|i: int|
            0 <= i < chunks.len() ==> {
                &&& images[i] == chunk_record_image(
                    filtered,
                    width,
                    (#[trigger] chunks[i]).address,
                    chunks[i].size,
                    chunks[i].filter_mask,
                    cells[i],
                )
                &&& chunks[i].size < pow256(width)
                &&& !filtered ==> chunks[i].size == chunk_bytes && chunks[i].filter_mask == 0
                &&& cells[i].len() == chunk_dims@.len()
                &&& chunks[i].offsets.len() == chunk_dims@.len()
                &&& forall|d: int|
                    0 <= d < chunk_dims@.len() ==> #[trigger] chunks[i].offsets[d] == cells[i][d]
                        * chunk_dims@[d]
            },
        call_ensures(
            parse_chunks,
            (file, addr, chunk_dims@.len() as usize, chunk_dims, chunk_bytes),
            r,
        ),
    ensures
        outcomes(r) == Ok::<Seq<RecordModel>, ErrorKind>(chunks),
{
    assert(chunk_dims.len() <= usize::MAX);
    let n = chunk_dims@.len();
    lemma_tree_header(file@, addr as int, tree, a, b, total, checksum);
    let f = |i: int| chunk_in(tree.record_type, images[i], n, chunk_dims@, chunk_bytes);
    assert forall|i: int| 0 <= i < chunks.len() implies #[trigger] f(i) == Ok::<
        RecordModel,
        ErrorKind,
    >(chunks[i]) by {
        let c = chunks[i];
        assert forall|d: int| 0 <= d < cells[i].len() implies #[trigger] cells[i][d]
            * chunk_dims@[d] <= u64::MAX by {
            assert(c.offsets[d] == cells[i][d] * chunk_dims@[d]);
        }
        law_chunk_record(
            filtered,
            width,
            c.address,
            c.size,
            c.filter_mask,
            cells[i],
            chunk_dims@,
            chunk_bytes,
        );
        let goal = Seq::new(n, |d: int| (cells[i][d] * chunk_dims@[d]) as u64);
        assert forall|d: int| 0 <= d < n implies #[trigger] goal[d] == c.offsets[d] by {
            assert(c.offsets[d] == cells[i][d] * chunk_dims@[d]);
        }
        assert(goal =~= c.offsets);
    }
    lemma_try_each_is(chunks.len(), f, chunks);
    assert(chunks.take(chunks.len() as int) =~= chunks);
    assert(tree_chunks(file@, addr as int, n, chunk_dims@, chunk_bytes) == try_each(
        chunks.len(),
        f,
    ));
}

} // verus!
