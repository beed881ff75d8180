//! The members of a written group are found by their names.

use vstd::prelude::*;
use vstd::utf8::encode_utf8;
use crate::btree::{child_at, entry_leaves, leaves_at, node_leaves};
use crate::bytes::{le_at, le_bytes, lemma_le_bytes_len, lemma_pow256_values, tag_at, zeros};
use crate::error::ErrorKind;
use crate::global_heap::align8;
use crate::group::{member_at, member_in, named_entry};
use crate::heap::{local_heap_at, name_in};
use crate::roundtrip::held::{
    held, lemma_held_bytes, lemma_held_number, lemma_held_part, lemma_held_parts,
};
use crate::snod::{entry_at, symbols_at, SymTabEntry};
use crate::utf8::{lemma_text_at, nul_free};
use crate::write::attr::padded;
use crate::write::emit::{lemma_link_target, node_keys, symbol_entries, table_image};
use crate::write::format::{
    children_image, heap_header_image, leaf_node_image, lemma_children_len, lemma_snods_len,
    lemma_symbol_len, lemma_symbols_len, node_entries, snod_image, snods_image, symbol_image,
    symbols_image, SymbolEntry, MAX_LINKS,
};
use crate::write::group_tree::{
    ahead, below_image, below_len, branch_image, branches, branches_image, entry_count,
    group_tree_image, law_group_tree_len, lemma_ahead, lemma_below_image_len, lemma_branch_len,
    lemma_branches, lemma_branches_len, lemma_shares, lemma_tree_image_len, level_of, share,
    tree_image, MAX_NODES,
};
use crate::write::layout::{
    btree_len, btree_place, dataset_place, datasets_place, group_place, heap_data_place, heap_names,
    heap_place, lemma_nodes_len, link_count, node_count, snod_place, snods_len,
};
use crate::write::links::{
    declared_links, heap_image, heap_size, heap_used, in_order, law_order_adds_no_links,
    lemma_heap_lens, lemma_heap_prefix, lemma_in_order_len, lemma_slot_bounds, links_of,
    name_offset, slot_for, LinkModel, LinkTarget,
};
use crate::write::tree::GroupModel;

verus! {

/// A name in a written local heap reads back.
pub proof fn law_heap_name_reads_back(names: Seq<Seq<u8>>, i: int, chars: Seq<char>)
    requires
        0 <= i < names.len(),
        names[i] == encode_utf8(chars),
        nul_free(chars),
    ensures
        name_in(heap_image(names), name_offset(names, i) as int) == Ok::<Seq<char>, ErrorKind>(
            chars,
        ),
{
    let used = heap_used(names);
    let data = heap_image(names);
    let at = name_offset(names, i) as int;
    lemma_heap_lens(names);
    lemma_heap_prefix(names, i);
    let part = names[i].push(0u8);
    let stored = padded(part);
    assert(stored.len() == align8(part.len() as int));
    assert forall|k: int| 0 <= k < stored.len() implies data[at + k] == #[trigger] stored[k] by {
        assert(used.subrange(at, at + stored.len())[k] == stored[k]);
        assert(data[at + k] == used[at + k]);
    }
    assert(data.subrange(at, at + names[i].len()) =~= names[i]) by {
        assert forall|k: int| 0 <= k < names[i].len() implies data[at + k] == #[trigger] names[i][k] by {
            assert(stored[k] == part[k]);
        }
    }
    assert(data[at + names[i].len()] == 0) by {
        assert(stored[names[i].len() as int] == part[names[i].len() as int]);
    }
    lemma_text_at(data, at, chars);
}

/// The data segment of a written local heap reads back.
proof fn lemma_heap_back(file: Seq<u8>, at: int, data_at: nat, names: Seq<Seq<u8>>)
    requires
        file.len() <= usize::MAX,
        held(
            file,
            at,
            heap_header_image(data_at, heap_size(names), heap_used(names).len()),
        ),
        held(file, data_at as int, heap_image(names)),
    ensures
        local_heap_at(file, at) == Ok::<Seq<u8>, ErrorKind>(heap_image(names)),
{
    lemma_heap_lens(names);
    let size = heap_size(names);
    let used = heap_used(names).len();
    let a = seq!['H' as u8, 'E' as u8, 'A' as u8, 'P' as u8, 0u8, 0u8, 0u8, 0u8];
    let b = le_bytes(size, 8);
    let c = le_bytes(used, 8);
    let d = le_bytes(data_at, 8);
    lemma_le_bytes_len(size, 8);
    lemma_le_bytes_len(used, 8);
    lemma_le_bytes_len(data_at, 8);
    lemma_pow256_values();
    lemma_held_parts(file, at, a + b + c, d);
    lemma_held_parts(file, at, a + b, c);
    lemma_held_parts(file, at, a, b);
    lemma_held_number(file, at + 8, size, 8);
    lemma_held_number(file, at + 24, data_at, 8);
    lemma_held_bytes(file, at, a);
    assert(a[0] == file[at + 0] && a[1] == file[at + 1] && a[2] == file[at + 2] && a[3] == file[at
        + 3] && a[4] == file[at + 4]);
}

/// A symbol table entry as it is read.
pub open spec fn read_entry(entry: SymbolEntry) -> SymTabEntry {
    SymTabEntry { name_offset: entry.name_offset, object_header_address: entry.oh_addr }
}

/// Symbol table entries as they are read.
pub open spec fn read_entries(entries: Seq<SymbolEntry>) -> Seq<SymTabEntry> {
    Seq::new(entries.len(), |i: int| read_entry(entries[i]))
}

proof fn lemma_entry_back(file: Seq<u8>, pos: int, entry: SymbolEntry)
    requires
        held(file, pos, symbol_image(entry)),
    ensures
        entry_at(file, pos) == read_entry(entry),
{
    lemma_symbol_len(entry);
    let a = le_bytes(entry.name_offset as nat, 8);
    let b = le_bytes(entry.oh_addr as nat, 8);
    lemma_le_bytes_len(entry.name_offset as nat, 8);
    lemma_le_bytes_len(entry.oh_addr as nat, 8);
    lemma_pow256_values();
    let image = symbol_image(entry);
    assert(image.subrange(0, 8) =~= a);
    assert(image.subrange(8, 16) =~= b);
    lemma_held_part(file, pos, image, 0, a);
    lemma_held_part(file, pos, image, 8, b);
    lemma_held_number(file, pos, entry.name_offset as nat, 8);
    lemma_held_number(file, pos + 8, entry.oh_addr as nat, 8);
}

proof fn lemma_entries_back(file: Seq<u8>, pos: int, entries: Seq<SymbolEntry>, i: int)
    requires
        held(file, pos, symbols_image(entries)),
        0 <= i < entries.len(),
    ensures
        entry_at(file, pos + i * 40) == read_entry(entries[i]),
    decreases entries.len(),
{
    let front = entries.drop_last();
    lemma_symbols_len(front);
    lemma_held_parts(file, pos, symbols_image(front), symbol_image(entries.last()));
    if i == entries.len() - 1 {
        lemma_entry_back(file, pos + i * 40, entries[i]);
    } else {
        lemma_entries_back(file, pos, front, i);
    }
}

/// A written symbol table node reads back.
pub proof fn law_symbol_table_reads_back(file: Seq<u8>, at: int, entries: Seq<SymbolEntry>)
    requires
        file.len() <= usize::MAX,
        entries.len() <= 8,
        held(file, at, snod_image(entries)),
    ensures
        symbols_at(file, at) == Ok::<Seq<SymTabEntry>, ErrorKind>(read_entries(entries)),
{
    let a = seq!['S' as u8, 'N' as u8, 'O' as u8, 'D' as u8, 1u8, 0u8];
    let b = le_bytes(entries.len(), 2);
    let c = symbols_image(entries);
    let d = zeros((320 - entries.len() * 40) as nat);
    lemma_le_bytes_len(entries.len(), 2);
    lemma_symbols_len(entries);
    lemma_pow256_values();
    lemma_held_parts(file, at, a + b + c, d);
    lemma_held_parts(file, at, a + b, c);
    lemma_held_parts(file, at, a, b);
    lemma_held_number(file, at + 6, entries.len(), 2);
    lemma_held_bytes(file, at, a);
    assert(a[0] == file[at + 0] && a[1] == file[at + 1] && a[2] == file[at + 2] && a[3] == file[at
        + 3] && a[4] == file[at + 4]);
    let found = Seq::new(entries.len(), |i: int| entry_at(file, at + 8 + i * 40));
    assert forall|i: int| 0 <= i < entries.len() implies #[trigger] found[i] == read_entries(
        entries,
    )[i] by {
        lemma_entries_back(file, at + 8, entries, i);
    }
    assert(found =~= read_entries(entries));
}

/// The addresses of symbol table nodes, one behind the other.
pub open spec fn node_places(snod: nat, n: nat) -> Seq<u64> {
    Seq::new(n, |i: int| (snod + 328 * i) as u64)
}

/// The children of a written B-tree leaf read back.
pub proof fn lemma_children_back(file: Seq<u8>, at: int, snod: nat, keys: Seq<nat>, i: int)
    requires
        snod + 328 * keys.len() <= u64::MAX,
        held(file, at + 32, children_image(snod, keys)),
        0 <= i < keys.len(),
    ensures
        child_at(file, at, i) == (snod + 328 * i) as u64,
    decreases keys.len(),
{
    let front = keys.drop_last();
    let place = snod + 328 * (keys.len() - 1) as nat;
    let a = children_image(snod, front);
    let b = le_bytes(place, 8);
    let c = le_bytes(keys.last(), 8);
    lemma_children_len(snod, front);
    lemma_le_bytes_len(place, 8);
    lemma_pow256_values();
    lemma_held_parts(file, at + 32, a + b, c);
    lemma_held_parts(file, at + 32, a, b);
    if i == keys.len() - 1 {
        lemma_held_number(file, at + 32 + i * 16, place, 8);
    } else {
        lemma_children_back(file, at, snod, front, i);
    }
}

proof fn lemma_leaves_of_node(file: Seq<u8>, at: int, snod: nat, k: nat)
    requires
        forall|i: int| 0 <= i < k ==> #[trigger] child_at(file, at, i) == (snod + 328 * i) as u64,
    ensures
        entry_leaves(file, at, 0, k) == Ok::<Seq<u64>, ErrorKind>(node_places(snod, k)),
    decreases k,
{
    if k > 0 {
        lemma_leaves_of_node(file, at, snod, (k - 1) as nat);
        assert(child_at(file, at, k - 1) == (snod + 328 * (k - 1)) as u64);
        assert(node_places(snod, (k - 1) as nat).push((snod + 328 * (k - 1)) as u64)
            =~= node_places(snod, k));
    } else {
        assert(node_places(snod, 0) =~= Seq::empty());
    }
}

/// A written B-tree leaf reads back.
proof fn lemma_leaf_back(file: Seq<u8>, p: int, snod: nat, keys: Seq<nat>, limit: nat)
    requires
        snod + 328 * keys.len() <= u64::MAX,
        keys.len() <= u16::MAX,
        held(file, p, leaf_node_image(snod, keys)),
        limit > 0,
    ensures
        node_leaves(file, p, limit) == Ok::<Seq<u64>, ErrorKind>(node_places(snod, keys.len())),
{
    let n = keys.len();
    let a = seq!['T' as u8, 'R' as u8, 'E' as u8, 'E' as u8, 0u8, 0u8];
    let b = le_bytes(n, 2);
    let c = le_bytes(u64::MAX as nat, 8);
    let e = le_bytes(0, 8);
    let f = children_image(snod, keys);
    lemma_le_bytes_len(n, 2);
    lemma_le_bytes_len(u64::MAX as nat, 8);
    lemma_le_bytes_len(0, 8);
    lemma_children_len(snod, keys);
    lemma_pow256_values();
    lemma_held_parts(file, p, a + b + c + c + e, f);
    lemma_held_parts(file, p, a + b + c + c, e);
    lemma_held_parts(file, p, a + b + c, c);
    lemma_held_parts(file, p, a + b, c);
    lemma_held_parts(file, p, a, b);
    lemma_held_number(file, p + 6, n, 2);
    lemma_held_bytes(file, p, a);
    assert(a[0] == file[p + 0] && a[1] == file[p + 1] && a[2] == file[p + 2] && a[3] == file[p + 3]
        && a[4] == file[p + 4] && a[5] == file[p + 5]);
    assert(tag_at(file, p, 'T', 'R', 'E', 'E'));
    assert forall|i: int| 0 <= i < n implies #[trigger] child_at(file, p, i) == (snod + 328
        * i) as u64 by {
        lemma_children_back(file, p, snod, keys, i);
    }
    lemma_leaves_of_node(file, p, snod, n);
    assert(node_leaves(file, p, limit) == entry_leaves(file, p, 0, n));
}

/// A file that holds addresses and keys holds each address.
proof fn lemma_branch_held(file: Seq<u8>, p: int, branches: Seq<(nat, nat)>, k: int)
    requires
        held(file, p, branches_image(branches)),
        0 <= k < branches.len(),
        branches[k].0 <= u64::MAX,
    ensures
        le_at(file, p + 16 * k, 8) == branches[k].0,
    decreases branches.len(),
{
    let front = branches.drop_last();
    let a = branches_image(front);
    let b = le_bytes(branches.last().0, 8);
    let c = le_bytes(branches.last().1, 8);
    lemma_branches_len(front);
    lemma_held_parts(file, p, a + b, c);
    lemma_held_parts(file, p, a, b);
    if k < front.len() {
        lemma_branch_held(file, p, front, k);
    } else {
        lemma_pow256_values();
        lemma_held_number(file, p + 16 * k, branches[k].0, 8);
    }
}

/// What the first bytes of a node above the leaves say, and where its entries are.
proof fn lemma_branch_back(file: Seq<u8>, p: int, level: nat, branches: Seq<(nat, nat)>, limit: nat)
    requires
        held(file, p, branch_image(level, branches)),
        branches.len() <= u16::MAX,
        level <= 3,
        level < limit,
    ensures
        node_leaves(file, p, limit) == entry_leaves(file, p, level, branches.len()),
        held(file, p + 32, branches_image(branches)),
{
    let n = branches.len();
    let a = seq!['T' as u8, 'R' as u8, 'E' as u8, 'E' as u8, 0u8, level as u8];
    let b = le_bytes(n, 2);
    let c = le_bytes(u64::MAX as nat, 8);
    let e = le_bytes(0, 8);
    let f = branches_image(branches);
    lemma_le_bytes_len(n, 2);
    lemma_le_bytes_len(u64::MAX as nat, 8);
    lemma_le_bytes_len(0, 8);
    lemma_branches_len(branches);
    lemma_pow256_values();
    lemma_held_parts(file, p, a + b + c + c + e, f);
    lemma_held_parts(file, p, a + b + c + c, e);
    lemma_held_parts(file, p, a + b + c, c);
    lemma_held_parts(file, p, a + b, c);
    lemma_held_parts(file, p, a, b);
    lemma_held_number(file, p + 6, n, 2);
    lemma_held_bytes(file, p, a);
    assert(a[0] == file[p + 0] && a[1] == file[p + 1] && a[2] == file[p + 2] && a[3] == file[p + 3]
        && a[4] == file[p + 4] && a[5] == file[p + 5]);
    assert(tag_at(file, p, 'T', 'R', 'E', 'E'));
}

/// A written tree reads back as its symbol table nodes.
proof fn lemma_tree_back(
    file: Seq<u8>,
    level: nat,
    at: nat,
    snod: nat,
    keys: Seq<nat>,
    limit: nat,
)
    requires
        file.len() <= usize::MAX,
        snod + 328 * keys.len() <= u64::MAX,
        keys.len() <= 32 * share(level),
        level <= 3,
        level < limit,
        held(file, at as int, tree_image(level, at, snod, keys)),
    ensures
        node_leaves(file, at as int, limit) == Ok::<Seq<u64>, ErrorKind>(
            node_places(snod, keys.len()),
        ),
    decreases level, keys.len() + 1,
{
    let n = keys.len();
    lemma_shares();
    if level == 0 {
        lemma_leaf_back(file, at as int, snod, keys, limit);
    } else {
        let first = at + 32 + 16 * entry_count(level, n);
        let listed = branches(level, keys, first);
        lemma_branches(level, keys, first);
        if n > 0 {
            lemma_ahead(level, n);
        }
        lemma_branch_len(level, listed);
        lemma_held_parts(
            file,
            at as int,
            branch_image(level, listed),
            below_image(level, first, snod, keys),
        );
        lemma_branch_back(file, at as int, level, listed, limit);
        assert(listed.take(listed.len() as int) =~= listed);
        lemma_below_back(file, level, first, snod, keys, at as int, listed);
    }
}

/// The symbol table nodes under the entries of a node above the leaves, of which these
/// are the first.
proof fn lemma_below_back(
    file: Seq<u8>,
    level: nat,
    at: nat,
    snod: nat,
    keys: Seq<nat>,
    root: int,
    entries: Seq<(nat, nat)>,
)
    requires
        file.len() <= usize::MAX,
        snod + 328 * keys.len() <= u64::MAX,
        1 <= level <= 3,
        held(file, at as int, below_image(level, at, snod, keys)),
        held(file, root + 32, branches_image(entries)),
        branches(level, keys, at).len() <= entries.len(),
        branches(level, keys, at) == entries.take(branches(level, keys, at).len() as int),
    ensures
        entry_leaves(file, root, level, branches(level, keys, at).len()) == Ok::<
            Seq<u64>,
            ErrorKind,
        >(node_places(snod, keys.len())),
    decreases level, keys.len(),
{
    let n = keys.len();
    let listed = branches(level, keys, at);
    if n == 0 {
        assert(node_places(snod, 0) =~= Seq::<u64>::empty());
    } else {
        let cut = ahead(level, n);
        let front = keys.take(cut as int);
        let rest = keys.skip(cut as int);
        let lower = (level - 1) as nat;
        let place = at + below_len(level, cut);
        lemma_ahead(level, n);
        lemma_below_image_len(level, at, snod, front);
        lemma_tree_image_len(lower, place, snod + 328 * cut, rest);
        lemma_held_parts(
            file,
            at as int,
            below_image(level, at, snod, front),
            tree_image(lower, place, snod + 328 * cut, rest),
        );
        lemma_tree_back(file, lower, place, snod + 328 * cut, rest, level);
        let earlier = branches(level, front, at);
        let k = earlier.len() as int;
        assert(listed.drop_last() =~= earlier);
        assert(earlier =~= entries.take(k));
        lemma_below_back(file, level, at, snod, front, root, entries);
        assert(listed[k] == entries.take(listed.len() as int)[k]);
        assert(entries[k] == listed[k]);
        lemma_branch_held(file, root + 32, entries, k);
        assert(child_at(file, root, k) == place);
        assert(node_places(snod, cut) + node_places(snod + 328 * cut, rest.len()) =~= node_places(
            snod,
            n,
        ));
    }
}

/// The B-tree of a written group reads back as its symbol table nodes.
proof fn lemma_group_tree_back(file: Seq<u8>, at: u64, snod: nat, keys: Seq<nat>)
    requires
        file.len() <= usize::MAX,
        snod + 328 * keys.len() <= u64::MAX,
        keys.len() <= MAX_NODES,
        held(file, at as int, group_tree_image(at as nat, snod, keys)),
    ensures
        leaves_at(file, at) == Ok::<Seq<u64>, ErrorKind>(node_places(snod, keys.len())),
{
    reveal(group_tree_image);
    lemma_shares();
    lemma_tree_back(file, level_of(keys.len()), at as nat, snod, keys, 256);
}

/// Written symbol table nodes are held one behind the other.
pub proof fn lemma_snods_held(file: Seq<u8>, at: int, entries: Seq<SymbolEntry>, k: nat, i: int)
    requires
        held(file, at, snods_image(entries, k)),
        8 * (k - 1) <= entries.len(),
        0 <= i < k,
    ensures
        held(file, at + 328 * i, snod_image(node_entries(entries, i))),
    decreases k,
{
    let front = snods_image(entries, (k - 1) as nat);
    lemma_snods_len(entries, (k - 1) as nat);
    lemma_held_parts(file, at, front, snod_image(node_entries(entries, k - 1)));
    if i < k - 1 {
        lemma_snods_held(file, at, entries, (k - 1) as nat, i);
    }
}

/// Whether no two links have one name.
pub open spec fn distinct(links: Seq<LinkModel>) -> bool {
    forall|i: int, j: int|
        0 <= i < j < links.len() ==> (#[trigger] links[i]).name != (#[trigger] links[j]).name
}

/// Ordering keeps names distinct.
pub proof fn lemma_in_order_distinct(links: Seq<LinkModel>)
    requires
        distinct(links),
    ensures
        distinct(in_order(links)),
    decreases links.len(),
{
    if links.len() > 0 {
        let rest = links.drop_last();
        assert(distinct(rest)) by {
            assert forall|i: int, j: int| 0 <= i < j < rest.len() implies (#[trigger] rest[i]).name
                != (#[trigger] rest[j]).name by {
                assert(links[i].name != links[j].name);
            }
        }
        lemma_in_order_distinct(rest);
        let front = in_order(rest);
        let new = links.last();
        lemma_in_order_len(rest);
        lemma_slot_bounds(front, new.name);
        let at = slot_for(front, new.name);
        let all = in_order(links);
        assert forall|k: int| 0 <= k < front.len() implies (#[trigger] front[k]).name != new.name by {
            law_order_adds_no_links(rest, k);
            let i = choose|i: int| 0 <= i < rest.len() && #[trigger] rest[i] == front[k];
            assert(links[i] == rest[i]);
            assert(links[links.len() - 1] == new);
        }
        assert forall|i: int, j: int| 0 <= i < j < all.len() implies (#[trigger] all[i]).name
            != (#[trigger] all[j]).name by {
            let x = if i < at {
                i
            } else {
                i - 1
            };
            let y = if j < at {
                j
            } else {
                j - 1
            };
            if i != at {
                assert(all[i] == front[x]);
            }
            if j != at {
                assert(all[j] == front[y]);
            }
        }
    }
}

/// Whether the members of a group can be told apart: not too many, each under a name
/// of its own without NUL characters.
pub open spec fn well_named(m: GroupModel) -> bool {
    &&& link_count(m) <= MAX_LINKS
    &&& forall|i: int| 0 <= i < m.datasets.len() ==> nul_free((#[trigger] m.datasets[i]).name@)
    &&& forall|i: int| 0 <= i < m.groups.len() ==> nul_free((#[trigger] m.groups[i]).name)
    &&& distinct(declared_links(m.datasets, m.groups))
}

/// The name of a link.
pub open spec fn link_text(m: GroupModel, j: int) -> Seq<char> {
    match links_of(m)[j].target {
        LinkTarget::Dataset(i) => m.datasets[i as int].name@,
        LinkTarget::Group(i) => m.groups[i as int].name,
    }
}

/// Where a link of a group placed at `at` leads.
pub open spec fn link_place(m: GroupModel, at: nat, j: int) -> nat {
    match links_of(m)[j].target {
        LinkTarget::Dataset(i) => dataset_place(m, at, i as int),
        LinkTarget::Group(i) => group_place(m, at, i as int),
    }
}

pub proof fn lemma_link(m: GroupModel, j: int)
    requires
        well_named(m),
        0 <= j < links_of(m).len(),
    ensures
        links_of(m)[j].name == encode_utf8(link_text(m, j)),
        heap_names(m)[j] == encode_utf8(link_text(m, j)),
        nul_free(link_text(m, j)),
{
    lemma_link_target(m, j);
}

/// In the symbol table node `i`, from entry `k` on: the entry of link `j` if it is there,
/// else none of its name.
proof fn lemma_named_entry(m: GroupModel, at: nat, j: int, i: int, k: int)
    requires
        well_named(m),
        0 <= i < node_count(links_of(m).len()),
        0 <= k,
        8 * i + k <= j < links_of(m).len(),
        k <= node_entries(symbol_entries(m, at), i).len(),
        heap_size(heap_names(m)) <= u64::MAX,
    ensures
        named_entry(
            heap_image(heap_names(m)),
            read_entries(node_entries(symbol_entries(m, at), i)),
            link_text(m, j),
            k,
        ) == if j < 8 * i + 8 {
            Some(Ok::<u64, ErrorKind>(link_place(m, at, j) as u64))
        } else {
            None
        },
    decreases node_entries(symbol_entries(m, at), i).len() - k,
{
    let names = heap_names(m);
    let part = node_entries(symbol_entries(m, at), i);
    let entries = read_entries(part);
    if k < part.len() {
        let q = 8 * i + k;
        assert(part[k] == symbol_entries(m, at)[q]);
        lemma_link(m, q);
        lemma_link(m, j);
        lemma_heap_lens(names);
        lemma_heap_prefix(names, q);
        law_heap_name_reads_back(names, q, link_text(m, q));
        assert(entries[k].name_offset == name_offset(names, q));
        if q < j {
            lemma_in_order_distinct(declared_links(m.datasets, m.groups));
            assert(links_of(m)[q].name != links_of(m)[j].name);
            lemma_named_entry(m, at, j, i, k + 1);
        }
    }
}

/// A file that holds the symbol table of a group holds its parts.
pub proof fn lemma_table_parts(file: Seq<u8>, m: GroupModel, at: nat)
    requires
        file.len() <= usize::MAX,
        links_of(m).len() == link_count(m),
        link_count(m) <= MAX_LINKS,
        held(file, btree_place(m, at) as int, table_image(m, at)),
    ensures
        heap_size(heap_names(m)) <= file.len(),
        datasets_place(m, at) <= file.len(),
        leaves_at(file, btree_place(m, at) as u64) == Ok::<Seq<u64>, ErrorKind>(
            node_places(snod_place(m, at), node_count(link_count(m))),
        ),
        local_heap_at(file, heap_place(m, at) as u64 as int) == Ok::<Seq<u8>, ErrorKind>(
            heap_image(heap_names(m)),
        ),
        forall|i: int|
            0 <= i < node_count(link_count(m)) ==> symbols_at(
                file,
                #[trigger] node_places(snod_place(m, at), node_count(link_count(m)))[i] as int,
            ) == Ok::<Seq<SymTabEntry>, ErrorKind>(
                read_entries(node_entries(symbol_entries(m, at), i)),
            ),
{
    reveal(table_image);
    let names = heap_names(m);
    let p = btree_place(m, at) as int;
    let n = node_count(link_count(m));
    let snod = snod_place(m, at);
    let entries = symbol_entries(m, at);
    let a = group_tree_image(btree_place(m, at), snod, node_keys(names));
    let b = heap_header_image(
        heap_data_place(m, at),
        heap_size(names),
        heap_used(names).len(),
    );
    let c = heap_image(names);
    let d = snods_image(entries, n);
    lemma_nodes_len(link_count(m));
    lemma_heap_lens(names);
    law_group_tree_len(btree_place(m, at), snod, node_keys(names));
    lemma_snods_len(entries, n);
    lemma_le_bytes_len(heap_size(names), 8);
    lemma_le_bytes_len(heap_used(names).len(), 8);
    lemma_le_bytes_len(heap_data_place(m, at), 8);
    assert(a.len() == btree_len(link_count(m)));
    assert(b.len() == 32);
    assert(d.len() == snods_len(link_count(m)));
    lemma_held_parts(file, p, a + b + c, d);
    lemma_held_parts(file, p, a + b, c);
    lemma_held_parts(file, p, a, b);
    lemma_group_tree_back(file, p as u64, snod, node_keys(names));
    lemma_heap_back(file, heap_place(m, at) as int, heap_data_place(m, at), names);
    assert forall|i: int| 0 <= i < n implies symbols_at(
        file,
        #[trigger] node_places(snod, n)[i] as int,
    ) == Ok::<Seq<SymTabEntry>, ErrorKind>(read_entries(node_entries(entries, i))) by {
        lemma_snods_held(file, snod as int, entries, n, i);
        law_symbol_table_reads_back(file, snod + 328 * i, node_entries(entries, i));
    }
}

/// From symbol table node `i` on, link `j` is found.
proof fn lemma_member_from(file: Seq<u8>, m: GroupModel, at: nat, j: int, i: int)
    requires
        file.len() <= usize::MAX,
        well_named(m),
        links_of(m).len() == link_count(m),
        held(file, btree_place(m, at) as int, table_image(m, at)),
        0 <= i,
        8 * i <= j < links_of(m).len(),
    ensures
        member_in(
            file,
            heap_image(heap_names(m)),
            node_places(snod_place(m, at), node_count(link_count(m))),
            link_text(m, j),
            i,
        ) == Ok::<u64, ErrorKind>(link_place(m, at, j) as u64),
    decreases j - i,
{
    lemma_table_parts(file, m, at);
    let n = node_count(link_count(m));
    lemma_nodes_len(link_count(m));
    assert(i < n);
    let places = node_places(snod_place(m, at), n);
    assert(symbols_at(file, places[i] as int) == Ok::<Seq<SymTabEntry>, ErrorKind>(
        read_entries(node_entries(symbol_entries(m, at), i)),
    ));
    lemma_named_entry(m, at, j, i, 0);
    if j >= 8 * i + 8 {
        lemma_member_from(file, m, at, j, i + 1);
    }
}

/// Every member of a written group is found under its name.
pub proof fn law_member_is_found(file: Seq<u8>, m: GroupModel, at: nat, j: int)
    requires
        file.len() <= usize::MAX,
        well_named(m),
        held(file, btree_place(m, at) as int, table_image(m, at)),
        0 <= j < links_of(m).len(),
    ensures
        member_at(
            file,
            btree_place(m, at) as u64,
            heap_place(m, at) as u64,
            link_text(m, j),
        ) == Ok::<u64, ErrorKind>(link_place(m, at, j) as u64),
{
    lemma_link_target(m, j);
    lemma_table_parts(file, m, at);
    lemma_member_from(file, m, at, j, 0);
}

} // verus!
