//! Groups with a B-tree and a local heap, however wide their nodes are.

use vstd::prelude::*;
use vstd::utf8::encode_utf8;
use crate::btree::{child_at, entry_leaves, node_leaves, GroupBTree};
use crate::bytes::{le_at, le_bytes, lemma_le_bytes_len, lemma_pow256_values, tag_at};
use crate::error::{outcome, ErrorKind, OxiH5Error};
use crate::heap::LocalHeap;
use crate::roundtrip::held::{held, lemma_held_bytes, lemma_held_number, lemma_held_parts};
use crate::snod::{entry_at, SymTabEntry};
use crate::utf8::{lemma_text_at, nul_free};

verus! {

/// The bytes of the entries of a symbol table node; each has 24 more that say what is kept
/// of the object.
pub open spec fn entries_image(entries: Seq<SymTabEntry>, kept: Seq<Seq<u8>>) -> Seq<u8>
    decreases entries.len(),
{
    if entries.len() == 0 {
        Seq::empty()
    } else {
        entries_image(entries.drop_last(), kept.drop_last()) + le_bytes(
            entries.last().name_offset as nat,
            8,
        ) + le_bytes(entries.last().object_header_address as nat, 8) + kept.last()
    }
}

proof fn lemma_entries_len(entries: Seq<SymTabEntry>, kept: Seq<Seq<u8>>)
    requires
        kept.len() == entries.len(),
        forall|i: int| 0 <= i < kept.len() ==> (#[trigger] kept[i]).len() == 24,
    ensures
        entries_image(entries, kept).len() == 40 * entries.len(),
    decreases entries.len(),
{
    if entries.len() > 0 {
        lemma_entries_len(entries.drop_last(), kept.drop_last());
        lemma_le_bytes_len(entries.last().name_offset as nat, 8);
        lemma_le_bytes_len(entries.last().object_header_address as nat, 8);
        assert(kept[kept.len() - 1].len() == 24);
    }
}

proof fn lemma_entry_back(
    f: Seq<u8>,
    pos: int,
    entries: Seq<SymTabEntry>,
    kept: Seq<Seq<u8>>,
    i: int,
)
    requires
        held(f, pos, entries_image(entries, kept)),
        kept.len() == entries.len(),
        forall|k: int| 0 <= k < kept.len() ==> (#[trigger] kept[k]).len() == 24,
        0 <= i < entries.len(),
    ensures
        entry_at(f, pos + i * 40) == entries[i],
    decreases entries.len(),
{
    let front = entries_image(entries.drop_last(), kept.drop_last());
    let last = entries.last();
    let a = le_bytes(last.name_offset as nat, 8);
    let b = le_bytes(last.object_header_address as nat, 8);
    lemma_entries_len(entries.drop_last(), kept.drop_last());
    lemma_le_bytes_len(last.name_offset as nat, 8);
    lemma_pow256_values();
    lemma_held_parts(f, pos, front + a + b, kept.last());
    lemma_held_parts(f, pos, front + a, b);
    lemma_held_parts(f, pos, front, a);
    if i < entries.len() - 1 {
        lemma_entry_back(f, pos, entries.drop_last(), kept.drop_last(), i);
    } else {
        lemma_held_number(f, pos + i * 40, last.name_offset as nat, 8);
        lemma_held_number(f, pos + i * 40 + 8, last.object_header_address as nat, 8);
    }
}

/// A symbol table node is read as the entries in it, in their order, as many as it says.
pub proof fn law_symbol_table_node(
    file: &[u8],
    address: u64,
    entries: Seq<SymTabEntry>,
    kept: Seq<Seq<u8>>,
    unused: u8,
    r: Result<Vec<SymTabEntry>, OxiH5Error>,
)
    requires
        entries.len() <= u16::MAX,
        kept.len() == entries.len(),
        forall|k: int| 0 <= k < kept.len() ==> (#[trigger] kept[k]).len() == 24,
        held(
            file@,
            address as int,
            seq!['S' as u8, 'N' as u8, 'O' as u8, 'D' as u8, 1u8, unused] + le_bytes(
                entries.len(),
                2,
            ) + entries_image(entries, kept),
        ),
        call_ensures(crate::snod::parse, (file, address), r),
    ensures
        r is Ok,
        r->Ok_0@ == entries,
{
    let f = file@;
    let p = address as int;
    let a = seq!['S' as u8, 'N' as u8, 'O' as u8, 'D' as u8, 1u8, unused];
    let b = le_bytes(entries.len(), 2);
    let c = entries_image(entries, kept);
    assert(file.len() <= usize::MAX);
    lemma_pow256_values();
    lemma_le_bytes_len(entries.len(), 2);
    lemma_entries_len(entries, kept);
    lemma_held_parts(f, p, a + b, c);
    lemma_held_parts(f, p, a, b);
    lemma_held_bytes(f, p, a);
    assert(a[0] == f[p + 0] && a[1] == f[p + 1] && a[2] == f[p + 2] && a[3] == f[p + 3] && a[4]
        == f[p + 4]);
    lemma_held_number(f, p + 6, entries.len(), 2);
    assert forall|i: int| 0 <= i < entries.len() implies #[trigger] entry_at(f, p + 8 + i * 40)
        == entries[i] by {
        lemma_entry_back(f, p + 8, entries, kept, i);
    }
    assert(r->Ok_0@ =~= entries);
}

/// The local heap of a group is the bytes at the address in its header, as many as the
/// header says; and a name in it is read from its offset up to a zero byte.
pub proof fn law_local_heap(
    file: &[u8],
    address: u64,
    unused: Seq<u8>,
    free: u64,
    place: u64,
    data: Seq<u8>,
    heap: Result<LocalHeap, OxiH5Error>,
    offset: usize,
    name: Seq<char>,
    r: Result<&str, OxiH5Error>,
)
    requires
        unused.len() == 3,
        held(
            file@,
            address as int,
            seq!['H' as u8, 'E' as u8, 'A' as u8, 'P' as u8, 0u8] + unused + le_bytes(data.len(), 8)
                + le_bytes(free as nat, 8) + le_bytes(place as nat, 8),
        ),
        held(file@, place as int, data),
        call_ensures(crate::heap::parse, (file, address), heap),
        nul_free(name),
        held(data, offset as int, encode_utf8(name).push(0u8)),
        heap is Ok ==> call_ensures(LocalHeap::name_at, (&heap->Ok_0, offset), r),
    ensures
        heap is Ok,
        heap->Ok_0.data@ == data,
        outcome(r) == Ok::<Seq<char>, ErrorKind>(name),
{
    let f = file@;
    let p = address as int;
    let a = seq!['H' as u8, 'E' as u8, 'A' as u8, 'P' as u8, 0u8];
    let b = le_bytes(data.len(), 8);
    let c = le_bytes(free as nat, 8);
    let d = le_bytes(place as nat, 8);
    assert(file.len() <= usize::MAX);
    lemma_pow256_values();
    lemma_le_bytes_len(data.len(), 8);
    lemma_le_bytes_len(free as nat, 8);
    lemma_le_bytes_len(place as nat, 8);
    lemma_held_parts(f, p, a + unused + b + c, d);
    lemma_held_parts(f, p, a + unused + b, c);
    lemma_held_parts(f, p, a + unused, b);
    lemma_held_parts(f, p, a, unused);
    lemma_held_bytes(f, p, a);
    assert(a[0] == f[p + 0] && a[1] == f[p + 1] && a[2] == f[p + 2] && a[3] == f[p + 3] && a[4]
        == f[p + 4]);
    lemma_held_number(f, p + 8, data.len(), 8);
    lemma_held_number(f, p + 24, place as nat, 8);
    let e = encode_utf8(name);
    assert(e.push(0u8) =~= e + seq![0u8]);
    lemma_held_parts(data, offset as int, e, seq![0u8]);
    lemma_held_bytes(data, offset + e.len(), seq![0u8]);
    assert(seq![0u8][0] == data[offset + e.len() + 0]);
    lemma_text_at(data, offset as int, name);
}

/// The children of a B-tree node, each followed by a key.
pub open spec fn children_image(children: Seq<u64>, keys: Seq<u64>) -> Seq<u8>
    decreases children.len(),
{
    if children.len() == 0 {
        Seq::empty()
    } else {
        children_image(children.drop_last(), keys.drop_last()) + le_bytes(
            children.last() as nat,
            8,
        ) + le_bytes(keys.last() as nat, 8)
    }
}

proof fn lemma_children_len(children: Seq<u64>, keys: Seq<u64>)
    ensures
        children_image(children, keys).len() == 16 * children.len(),
    decreases children.len(),
{
    if children.len() > 0 {
        lemma_children_len(children.drop_last(), keys.drop_last());
        lemma_le_bytes_len(children.last() as nat, 8);
        lemma_le_bytes_len(keys.last() as nat, 8);
    }
}

proof fn lemma_child(f: Seq<u8>, addr: int, children: Seq<u64>, keys: Seq<u64>, i: int)
    requires
        held(f, addr + 32, children_image(children, keys)),
        0 <= i < children.len(),
    ensures
        child_at(f, addr, i) == children[i],
    decreases children.len(),
{
    let front = children_image(children.drop_last(), keys.drop_last());
    let a = le_bytes(children.last() as nat, 8);
    let b = le_bytes(keys.last() as nat, 8);
    lemma_children_len(children.drop_last(), keys.drop_last());
    lemma_pow256_values();
    lemma_held_parts(f, addr + 32, front + a, b);
    lemma_held_parts(f, addr + 32, front, a);
    if i < children.len() - 1 {
        lemma_child(f, addr, children.drop_last(), keys.drop_last(), i);
    } else {
        lemma_held_number(f, addr + 32 + i * 16, children.last() as nat, 8);
    }
}

/// The leaves under the first `k` children.
pub open spec fn leaves_under(below: Seq<Seq<u64>>, k: nat) -> Seq<u64>
    decreases k,
{
    if k == 0 {
        Seq::empty()
    } else {
        leaves_under(below, (k - 1) as nat) + below[k - 1]
    }
}

/// The bytes of a node of a group's B-tree: its level, the addresses of its siblings, a
/// key, and its children, each followed by a key.
pub open spec fn node_image(
    level: u8,
    siblings: Seq<u8>,
    first: u64,
    children: Seq<u64>,
    keys: Seq<u64>,
) -> Seq<u8> {
    seq!['T' as u8, 'R' as u8, 'E' as u8, 'E' as u8, 0u8, level] + le_bytes(children.len(), 2)
        + siblings + le_bytes(first as nat, 8) + children_image(children, keys)
}

proof fn lemma_node(
    f: Seq<u8>,
    p: int,
    level: u8,
    siblings: Seq<u8>,
    first: u64,
    children: Seq<u64>,
    keys: Seq<u64>,
)
    requires
        siblings.len() == 16,
        children.len() <= u16::MAX,
        held(f, p, node_image(level, siblings, first, children, keys)),
    ensures
        p + 32 + 16 * children.len() <= f.len(),
        tag_at(f, p, 'T', 'R', 'E', 'E'),
        f[p + 4] == 0,
        f[p + 5] == level,
        le_at(f, p + 6, 2) == children.len(),
        held(f, p + 32, children_image(children, keys)),
{
    let a = seq!['T' as u8, 'R' as u8, 'E' as u8, 'E' as u8, 0u8, level];
    let b = le_bytes(children.len(), 2);
    let c = le_bytes(first as nat, 8);
    let d = children_image(children, keys);
    lemma_pow256_values();
    lemma_le_bytes_len(children.len(), 2);
    lemma_le_bytes_len(first as nat, 8);
    lemma_children_len(children, keys);
    lemma_held_parts(f, p, a + b + siblings + c, d);
    lemma_held_parts(f, p, a + b + siblings, c);
    lemma_held_parts(f, p, a + b, siblings);
    lemma_held_parts(f, p, a, b);
    lemma_held_bytes(f, p, a);
    assert(a[0] == f[p + 0] && a[1] == f[p + 1] && a[2] == f[p + 2] && a[3] == f[p + 3] && a[4]
        == f[p + 4] && a[5] == f[p + 5]);
    lemma_held_number(f, p + 6, children.len(), 2);
}

proof fn lemma_leaf_entries(f: Seq<u8>, p: int, children: Seq<u64>, keys: Seq<u64>, k: nat)
    requires
        held(f, p + 32, children_image(children, keys)),
        k <= children.len(),
    ensures
        entry_leaves(f, p, 0, k) == Ok::<Seq<u64>, ErrorKind>(children.take(k as int)),
    decreases k,
{
    if k > 0 {
        lemma_leaf_entries(f, p, children, keys, (k - 1) as nat);
        lemma_child(f, p, children, keys, k - 1);
        assert(children.take(k - 1).push(children[k - 1]) =~= children.take(k as int));
    } else {
        assert(children.take(0) =~= Seq::<u64>::empty());
    }
}

proof fn lemma_branch_entries(
    f: Seq<u8>,
    p: int,
    level: u8,
    children: Seq<u64>,
    keys: Seq<u64>,
    below: Seq<Seq<u64>>,
    k: nat,
)
    requires
        level > 0,
        held(f, p + 32, children_image(children, keys)),
        k <= children.len(),
        forall|j: int|
            0 <= j < children.len() ==> {
                &&& node_leaves(f, #[trigger] children[j] as int, 256) == Ok::<
                    Seq<u64>,
                    ErrorKind,
                >(below[j])
                &&& f[children[j] as int + 5] < level
            },
    ensures
        entry_leaves(f, p, level as nat, k) == Ok::<Seq<u64>, ErrorKind>(leaves_under(below, k)),
    decreases k,
{
    if k > 0 {
        lemma_branch_entries(f, p, level, children, keys, below, (k - 1) as nat);
        lemma_child(f, p, children, keys, k - 1);
        let child = children[k - 1] as int;
        assert(f[child + 5] < level);
        assert(node_leaves(f, child, level as nat) == node_leaves(f, child, 256));
    }
}

/// The leaves of a group's B-tree are the children of its leaf nodes, in order: those of
/// the root where it is one, and else those under its children, one after the other.
pub proof fn law_group_btree(
    file: &[u8],
    address: u64,
    level: u8,
    siblings: Seq<u8>,
    first: u64,
    children: Seq<u64>,
    keys: Seq<u64>,
    below: Seq<Result<GroupBTree, OxiH5Error>>,
    leaves: Seq<Seq<u64>>,
    r: Result<GroupBTree, OxiH5Error>,
)
    requires
        siblings.len() == 16,
        children.len() <= u16::MAX,
        held(file@, address as int, node_image(level, siblings, first, children, keys)),
        below.len() == children.len() == leaves.len(),
        level > 0 ==> forall|j: int|
            0 <= j < children.len() ==> {
                &&& call_ensures(crate::btree::parse, (file, children[j]), #[trigger] below[j])
                &&& below[j] is Ok
                &&& leaves[j] == below[j]->Ok_0.leaf_addresses@
                &&& file@[children[j] as int + 5] < level
            },
        call_ensures(crate::btree::parse, (file, address), r),
    ensures
        r is Ok,
        r->Ok_0.leaf_addresses@ == if level == 0 {
            children
        } else {
            leaves_under(leaves, children.len())
        },
{
    let f = file@;
    let p = address as int;
    lemma_node(f, p, level, siblings, first, children, keys);
    if level == 0 {
        lemma_leaf_entries(f, p, children, keys, children.len());
        assert(children.take(children.len() as int) =~= children);
    } else {
        assert forall|j: int| 0 <= j < children.len() implies node_leaves(
            f,
            #[trigger] children[j] as int,
            256,
        ) == Ok::<Seq<u64>, ErrorKind>(leaves[j]) && f[children[j] as int + 5] < level by {
            assert(call_ensures(crate::btree::parse, (file, children[j]), below[j]));
        }
        lemma_branch_entries(f, p, level, children, keys, leaves, children.len());
    }
}

} // verus!
