//! Names in a written group: a reader that goes by the keys of the B-tree finds them.

use vstd::prelude::*;
use vstd::utf8::encode_utf8;
use crate::btree::child_at;
use crate::bytes::{le_at, le_bytes, lemma_le_bytes_len, lemma_pow256_values};
use crate::error::ErrorKind;
use crate::global_heap::align8;
use crate::heap::{local_heap_at, name_in};
use crate::roundtrip::held::{held, lemma_held_bytes, lemma_held_number, lemma_held_parts};
use crate::roundtrip::table::{
    law_heap_name_reads_back, lemma_children_back, lemma_in_order_distinct, lemma_link,
    lemma_table_parts, link_place, link_text, node_places, read_entries, well_named,
};
use crate::snod::{symbols_at, SymTabEntry};
use crate::utf8::{lemma_nul_free_bytes, lemma_nul_from_is, nul_free, nul_from};
use crate::write::attr::padded;
use crate::write::emit::{lemma_link_target, node_key, node_keys, symbol_entries, table_image};
use crate::write::format::{
    children_image, heap_header_image, lemma_children_len, node_entries, snods_image,
};
use crate::write::group_tree::{
    ahead, below_image, below_len, branch_image, branches, branches_image, entry_count,
    group_tree_image, lemma_ahead, lemma_below_image_len, lemma_branch_len, lemma_branches,
    lemma_branches_len, lemma_share_positive, lemma_shares, level_of, share, tree_image,
};
use crate::write::layout::{
    btree_place, heap_data_place, heap_names, heap_place, lemma_nodes_len, link_count, node_count,
    snod_place,
};
use crate::write::links::{
    bytes_less, declared_links, heap_image, heap_size, heap_used, law_links_ascend, lemma_heap_lens,
    lemma_heap_prefix, lemma_in_order_len, lemma_less_total, links_of, name_offset,
};
use crate::write::tree::GroupModel;

verus! {

/// The name in a local heap from `offset` up to the next zero byte.
pub open spec fn heap_name(heap: Seq<u8>, offset: int) -> Seq<u8> {
    heap.subrange(offset, nul_from(heap, offset))
}

/// Key `i` of the node at `addr`: one before each child, and one behind the last.
pub open spec fn key_at(file: Seq<u8>, addr: int, i: int) -> nat {
    le_at(file, addr + 24 + i * 16, 8)
}

/// Whether a name comes behind the one that a key stands for.
pub open spec fn is_behind(heap: Seq<u8>, key: nat, name: Seq<u8>) -> bool {
    bytes_less(heap_name(heap, key as int), name)
}

/// Whether the keys around child `i` of a node say that a name is there: behind the key
/// before it, and not behind the key that follows it.
pub open spec fn is_bounded(
    file: Seq<u8>,
    heap: Seq<u8>,
    addr: int,
    i: int,
    name: Seq<u8>,
) -> bool {
    is_behind(heap, key_at(file, addr, i), name) && !is_behind(
        heap,
        key_at(file, addr, i + 1),
        name,
    )
}

/// The first child, from `i` on, of the node at `addr` whose keys say that a name is there.
pub open spec fn bounded_child(
    file: Seq<u8>,
    heap: Seq<u8>,
    addr: int,
    i: int,
    name: Seq<u8>,
) -> Option<int>
    decreases le_at(file, addr + 6, 2) - i,
{
    if i >= le_at(file, addr + 6, 2) {
        None
    } else if is_bounded(file, heap, addr, i, name) {
        Some(i)
    } else {
        bounded_child(file, heap, addr, i + 1, name)
    }
}

/// The symbol table node that going by the keys leads to, from the node at `addr` on.
pub open spec fn sought(
    file: Seq<u8>,
    heap: Seq<u8>,
    addr: int,
    name: Seq<u8>,
    levels: nat,
) -> Option<u64>
    decreases levels,
{
    match bounded_child(file, heap, addr, 0, name) {
        None => None,
        Some(i) => if file[addr + 5] == 0 {
            Some(child_at(file, addr, i))
        } else if levels == 0 {
            None
        } else {
            sought(file, heap, child_at(file, addr, i) as int, name, (levels - 1) as nat)
        },
    }
}

/// Whether one of the entries has that name and leads to that address.
pub open spec fn lists(
    heap: Seq<u8>,
    entries: Seq<SymTabEntry>,
    name: Seq<char>,
    address: u64,
) -> bool {
    exists|k: int|
        {
            &&& 0 <= k < entries.len()
            &&& name_in(heap, (#[trigger] entries[k]).name_offset as int) == Ok::<
                Seq<char>,
                ErrorKind,
            >(name)
            &&& entries[k].object_header_address == address
        }
}

proof fn lemma_bounded_child(
    file: Seq<u8>,
    heap: Seq<u8>,
    addr: int,
    i: int,
    e: int,
    name: Seq<u8>,
)
    requires
        0 <= i <= e < le_at(file, addr + 6, 2),
        forall|q: int| i <= q < e ==> !#[trigger] is_bounded(file, heap, addr, q, name),
        is_bounded(file, heap, addr, e, name),
    ensures
        bounded_child(file, heap, addr, i, name) == Some(e),
    decreases e - i,
{
    if i < e {
        lemma_bounded_child(file, heap, addr, i + 1, e, name);
    }
}

/// Where keys ascend and the one behind child `e` is the first that a name is not behind,
/// the keys lead to child `e`.
proof fn lemma_led_to(
    file: Seq<u8>,
    heap: Seq<u8>,
    addr: int,
    n: nat,
    uppers: spec_fn(int) -> nat,
    e: int,
    name: Seq<u8>,
)
    requires
        0 <= e < n,
        le_at(file, addr + 6, 2) == n,
        key_at(file, addr, 0) == 0,
        is_behind(heap, 0, name),
        forall|i: int| 0 <= i < n ==> key_at(file, addr, i + 1) == #[trigger] uppers(i),
        forall|i: int| 0 <= i < e ==> is_behind(heap, #[trigger] uppers(i), name),
        !is_behind(heap, uppers(e), name),
    ensures
        bounded_child(file, heap, addr, 0, name) == Some(e),
{
    assert forall|q: int| 0 <= q < e implies !#[trigger] is_bounded(file, heap, addr, q, name) by {
        assert(is_behind(heap, uppers(q), name));
    }
    assert(key_at(file, addr, e + 1) == uppers(e));
    if e > 0 {
        assert(key_at(file, addr, (e - 1) + 1) == uppers(e - 1));
    }
    lemma_bounded_child(file, heap, addr, 0, e, name);
}

/// The first bytes of a node, up to its first key.
proof fn lemma_node_start(file: Seq<u8>, p: int, level: nat, n: nat, rest: Seq<u8>)
    requires
        level <= 3,
        n <= u16::MAX,
        held(
            file,
            p,
            seq!['T' as u8, 'R' as u8, 'E' as u8, 'E' as u8, 0u8, level as u8] + le_bytes(n, 2)
                + le_bytes(u64::MAX as nat, 8) + le_bytes(u64::MAX as nat, 8) + le_bytes(0, 8)
                + rest,
        ),
    ensures
        file[p + 5] == level,
        le_at(file, p + 6, 2) == n,
        key_at(file, p, 0) == 0,
        held(file, p + 32, rest),
{
    let a = seq!['T' as u8, 'R' as u8, 'E' as u8, 'E' as u8, 0u8, level as u8];
    let b = le_bytes(n, 2);
    let c = le_bytes(u64::MAX as nat, 8);
    let e = le_bytes(0, 8);
    lemma_le_bytes_len(n, 2);
    lemma_le_bytes_len(u64::MAX as nat, 8);
    lemma_le_bytes_len(0, 8);
    lemma_pow256_values();
    lemma_held_parts(file, p, a + b + c + c + e, rest);
    lemma_held_parts(file, p, a + b + c + c, e);
    lemma_held_parts(file, p, a + b + c, c);
    lemma_held_parts(file, p, a + b, c);
    lemma_held_parts(file, p, a, b);
    lemma_held_number(file, p + 6, n, 2);
    lemma_held_number(file, p + 24, 0, 8);
    lemma_held_bytes(file, p, a);
    assert(a[5] == file[p + 5]);
}

proof fn lemma_child_key(file: Seq<u8>, pos: int, snod: nat, keys: Seq<nat>, i: int)
    requires
        held(file, pos, children_image(snod, keys)),
        0 <= i < keys.len(),
        keys[i] <= u64::MAX,
    ensures
        le_at(file, pos + 8 + i * 16, 8) == keys[i],
    decreases keys.len(),
{
    let front = keys.drop_last();
    let place = snod + 328 * (keys.len() - 1) as nat;
    let a = children_image(snod, front);
    let b = le_bytes(place, 8);
    let c = le_bytes(keys.last(), 8);
    lemma_children_len(snod, front);
    lemma_le_bytes_len(place, 8);
    lemma_pow256_values();
    lemma_held_parts(file, pos, a + b, c);
    lemma_held_parts(file, pos, a, b);
    if i == keys.len() - 1 {
        lemma_held_number(file, pos + 8 + i * 16, keys[i], 8);
    } else {
        lemma_child_key(file, pos, snod, front, i);
    }
}

proof fn lemma_branch_fields(file: Seq<u8>, p: int, listed: Seq<(nat, nat)>, k: int)
    requires
        held(file, p, branches_image(listed)),
        0 <= k < listed.len(),
        listed[k].0 <= u64::MAX,
        listed[k].1 <= u64::MAX,
    ensures
        le_at(file, p + 16 * k, 8) == listed[k].0,
        le_at(file, p + 8 + 16 * k, 8) == listed[k].1,
    decreases listed.len(),
{
    let front = listed.drop_last();
    let a = branches_image(front);
    let b = le_bytes(listed.last().0, 8);
    let c = le_bytes(listed.last().1, 8);
    lemma_branches_len(front);
    lemma_le_bytes_len(listed.last().0, 8);
    lemma_held_parts(file, p, a + b, c);
    lemma_held_parts(file, p, a, b);
    if k < front.len() {
        lemma_branch_fields(file, p, front, k);
    } else {
        lemma_pow256_values();
        lemma_held_number(file, p + 16 * k, listed[k].0, 8);
        lemma_held_number(file, p + 8 + 16 * k, listed[k].1, 8);
    }
}

/// The end of the share of entry `e` of `n` symbol table nodes.
spec fn share_end(level: nat, n: nat, e: int) -> int {
    if (e + 1) * share(level) < n {
        (e + 1) * share(level)
    } else {
        n as int
    }
}

/// What entry `e` of a node above the leaves is.
proof fn lemma_branch_entry(
    file: Seq<u8>,
    level: nat,
    at: nat,
    snod: nat,
    keys: Seq<nat>,
    e: int,
)
    requires
        1 <= level <= 3,
        held(file, at as int, below_image(level, at, snod, keys)),
        0 <= e < entry_count(level, keys.len()),
    ensures
        ({
            let listed = branches(level, keys, at);
            let from = e * share(level);
            let to = share_end(level, keys.len(), e);
            &&& listed.len() == entry_count(level, keys.len())
            &&& 0 <= from < to <= keys.len()
            &&& to - from <= share(level)
            &&& listed[e].1 == keys[to - 1]
            &&& listed[e].0 <= file.len()
            &&& held(
                file,
                listed[e].0 as int,
                tree_image(
                    (level - 1) as nat,
                    listed[e].0,
                    (snod + 328 * from) as nat,
                    keys.subrange(from, to),
                ),
            )
        }),
    decreases keys.len(),
{
    let n = keys.len();
    let cut = ahead(level, n);
    let w = share(level) as int;
    let front = keys.take(cut as int);
    let rest = keys.skip(cut as int);
    lemma_share_positive(level);
    lemma_ahead(level, n);
    lemma_branches(level, keys, at);
    lemma_branches(level, front, at);
    lemma_below_image_len(level, at, snod, front);
    let place = at + below_len(level, cut);
    lemma_held_parts(
        file,
        at as int,
        below_image(level, at, snod, front),
        tree_image((level - 1) as nat, place, snod + 328 * cut, rest),
    );
    let q = (n - 1) / w;
    vstd::arithmetic::div_mod::lemma_fundamental_div_mod(n - 1, w);
    let last = entry_count(level, n) - 1;
    assert(last == q);
    assert(cut == q * w);
    assert(w * q == q * w) by (nonlinear_arith);
    if e == last {
        assert((e + 1) * w == e * w + w) by (nonlinear_arith);
        assert(share_end(level, n, e) == n);
        assert(rest =~= keys.subrange(cut as int, n as int));
    } else {
        assert((e + 1) * w <= q * w && 0 <= e * w && (e + 1) * w == e * w + w)
            by (nonlinear_arith)
            requires
                0 <= e,
                e + 1 <= q,
                w > 0,
        ;
        lemma_branch_entry(file, level, at, snod, front, e);
        let to = (e + 1) * w;
        assert(share_end(level, cut, e) == to);
        assert(share_end(level, n, e) == to);
        assert(front.subrange(e * w, to) =~= keys.subrange(e * w, to));
        assert(branches(level, keys, at)[e] == branches(level, front, at)[e]);
    }
}

/// Going by the keys of a tree leads to the symbol table node whose key is the first that
/// a name is not behind.
proof fn lemma_sought(
    file: Seq<u8>,
    heap: Seq<u8>,
    level: nat,
    at: nat,
    snod: nat,
    keys: Seq<nat>,
    name: Seq<u8>,
    t: int,
)
    requires
        file.len() <= usize::MAX,
        snod + 328 * keys.len() <= u64::MAX,
        keys.len() <= 32 * share(level),
        level <= 3,
        held(file, at as int, tree_image(level, at, snod, keys)),
        0 <= t < keys.len(),
        is_behind(heap, 0, name),
        forall|i: int| 0 <= i < keys.len() ==> #[trigger] keys[i] <= u64::MAX,
        forall|i: int| 0 <= i < t ==> is_behind(heap, #[trigger] keys[i], name),
        forall|i: int| t <= i < keys.len() ==> !is_behind(heap, #[trigger] keys[i], name),
    ensures
        sought(file, heap, at as int, name, level) == Some((snod + 328 * t) as u64),
    decreases level,
{
    let n = keys.len();
    let p = at as int;
    lemma_shares();
    if level == 0 {
        lemma_node_start(file, p, 0, n, children_image(snod, keys));
        let uppers = |i: int| keys[i];
        assert forall|i: int| 0 <= i < n implies key_at(file, p, i + 1) == #[trigger] uppers(i) by {
            assert(keys[i] <= u64::MAX);
            lemma_child_key(file, p + 32, snod, keys, i);
        }
        assert forall|i: int| 0 <= i < t implies is_behind(heap, #[trigger] uppers(i), name) by {
            assert(is_behind(heap, keys[i], name));
        }
        assert(!is_behind(heap, keys[t], name));
        lemma_led_to(file, heap, p, n, uppers, t, name);
        lemma_children_back(file, p, snod, keys, t);
    } else {
        let count = entry_count(level, n);
        let first = at + 32 + 16 * count;
        let listed = branches(level, keys, first);
        lemma_branches(level, keys, first);
        lemma_ahead(level, n);
        lemma_branch_len(level, listed);
        lemma_held_parts(
            file,
            p,
            branch_image(level, listed),
            below_image(level, first, snod, keys),
        );
        lemma_node_start(file, p, level, count, branches_image(listed));
        lemma_share_positive(level);
        let w = share(level) as int;
        let e = t / w;
        vstd::arithmetic::div_mod::lemma_fundamental_div_mod(t, w);
        vstd::arithmetic::div_mod::lemma_div_pos_is_pos(t, w);
        vstd::arithmetic::div_mod::lemma_div_is_ordered(t, n - 1, w);
        assert(w * e == e * w) by (nonlinear_arith);
        assert((e + 1) * w == e * w + w) by (nonlinear_arith);
        let uppers = |i: int| listed[i].1;
        assert forall|i: int| 0 <= i < count implies key_at(file, p, i + 1) == #[trigger] uppers(
            i,
        ) by {
            lemma_branch_entry(file, level, first, snod, keys, i);
            assert(keys[share_end(level, n, i) - 1] <= u64::MAX);
            lemma_branch_fields(file, p + 32, listed, i);
        }
        assert forall|i: int| 0 <= i < e implies is_behind(heap, #[trigger] uppers(i), name) by {
            lemma_branch_entry(file, level, first, snod, keys, i);
            assert((i + 1) * w <= e * w) by (nonlinear_arith)
                requires
                    i + 1 <= e,
                    w > 0,
            ;
            assert(is_behind(heap, keys[share_end(level, n, i) - 1], name));
        }
        lemma_branch_entry(file, level, first, snod, keys, e);
        let from = e * w;
        let to = share_end(level, n, e);
        assert(!is_behind(heap, keys[to - 1], name));
        lemma_led_to(file, heap, p, count, uppers, e, name);
        assert(keys[to - 1] <= u64::MAX);
        lemma_branch_fields(file, p + 32, listed, e);
        let part = keys.subrange(from, to);
        let lower = (level - 1) as nat;
        assert(child_at(file, p, e) == listed[e].0);
        assert forall|i: int| 0 <= i < part.len() implies #[trigger] part[i] <= u64::MAX by {
            assert(part[i] == keys[from + i]);
        }
        assert forall|i: int| 0 <= i < t - from implies is_behind(
            heap,
            #[trigger] part[i],
            name,
        ) by {
            assert(part[i] == keys[from + i]);
        }
        assert forall|i: int| t - from <= i < part.len() implies !is_behind(
            heap,
            #[trigger] part[i],
            name,
        ) by {
            assert(part[i] == keys[from + i]);
        }
        lemma_sought(
            file,
            heap,
            lower,
            listed[e].0,
            (snod + 328 * from) as nat,
            part,
            name,
            t - from,
        );
    }
}

/// The bytes of a name in a written local heap.
proof fn lemma_heap_name(names: Seq<Seq<u8>>, i: int, chars: Seq<char>)
    requires
        0 <= i < names.len(),
        names[i] == encode_utf8(chars),
        nul_free(chars),
    ensures
        heap_name(heap_image(names), name_offset(names, i) as int) == names[i],
        name_offset(names, i) <= heap_size(names),
{
    let used = heap_used(names);
    let data = heap_image(names);
    let at = name_offset(names, i) as int;
    lemma_heap_lens(names);
    lemma_heap_prefix(names, i);
    let part = names[i].push(0u8);
    let stored = padded(part);
    assert(stored.len() == align8(part.len() as int));
    assert forall|k: int| 0 <= k < stored.len() implies data[at + k] == #[trigger] stored[k] by {
        assert(used.subrange(at, at + stored.len())[k] == stored[k]);
        assert(data[at + k] == used[at + k]);
    }
    let end = at + names[i].len();
    assert(data.subrange(at, end) =~= names[i]) by {
        assert forall|k: int| 0 <= k < names[i].len() implies data[at + k]
            == #[trigger] names[i][k] by {
            assert(stored[k] == part[k]);
        }
    }
    assert(data[end] == 0) by {
        assert(stored[names[i].len() as int] == part[names[i].len() as int]);
    }
    lemma_nul_free_bytes(chars);
    assert forall|k: int| at <= k < end implies data[k] != 0 by {
        assert(data.subrange(at, end)[k - at] == names[i][k - at]);
    }
    lemma_nul_from_is(data, at, end);
}

/// The first bytes of a written local heap are no name.
proof fn lemma_no_name(names: Seq<Seq<u8>>)
    ensures
        heap_name(heap_image(names), 0) == Seq::<u8>::empty(),
{
    lemma_heap_lens(names);
    lemma_heap_prefix(names, 0);
    assert(names.take(0) =~= Seq::<Seq<u8>>::empty());
    let used = heap_used(names);
    assert(used.take(8)[0] == 0);
    assert(heap_image(names)[0] == used[0]);
    lemma_nul_from_is(heap_image(names), 0, 0);
    assert(heap_image(names).subrange(0, 0) =~= Seq::<u8>::empty());
}

/// The names of a group ascend strictly.
proof fn lemma_names_ascend(m: GroupModel, i: int, j: int)
    requires
        well_named(m),
        0 <= i < j < links_of(m).len(),
    ensures
        bytes_less(links_of(m)[i].name, links_of(m)[j].name),
        !bytes_less(links_of(m)[j].name, links_of(m)[i].name),
{
    let declared = declared_links(m.datasets, m.groups);
    law_links_ascend(declared);
    lemma_in_order_distinct(declared);
    let all = links_of(m);
    assert(!bytes_less(all[j].name, all[i].name));
    assert(all[i].name != all[j].name);
    lemma_less_total(all[i].name, all[j].name);
}

/// The key behind a symbol table node bounds its names: no name of the node is behind it,
/// and every name of a later node is.
pub proof fn law_keys_bound_nodes(m: GroupModel, i: int, q: int)
    requires
        well_named(m),
        0 <= i < node_count(link_count(m)),
        0 <= q < links_of(m).len(),
    ensures
        node_keys(heap_names(m)).len() == node_count(link_count(m)),
        8 * i <= q < 8 * i + 8 ==> !is_behind(
            heap_image(heap_names(m)),
            node_keys(heap_names(m))[i],
            encode_utf8(link_text(m, q)),
        ),
        8 * i + 8 <= q ==> is_behind(
            heap_image(heap_names(m)),
            node_keys(heap_names(m))[i],
            encode_utf8(link_text(m, q)),
        ),
        node_keys(heap_names(m))[i] <= heap_size(heap_names(m)),
{
    let names = heap_names(m);
    let n = links_of(m).len() as int;
    lemma_link_target(m, q);
    lemma_in_order_len(declared_links(m.datasets, m.groups));
    lemma_nodes_len(link_count(m));
    let last = if 8 * i + 8 < n {
        8 * i + 7
    } else {
        n - 1
    };
    lemma_link(m, last);
    lemma_link(m, q);
    lemma_heap_name(names, last, link_text(m, last));
    assert(node_keys(names)[i] == node_key(names, i));
    if 8 * i <= q < 8 * i + 8 {
        if q < last {
            lemma_names_ascend(m, q, last);
        } else {
            assert(q == last);
            lemma_less_total(names[q], names[q]);
        }
    }
    if 8 * i + 8 <= q {
        lemma_names_ascend(m, last, q);
    }
}

/// Every name of a written group is found by going by the keys: they lead to one symbol
/// table node, and it has an entry with that name and the address of the object.
pub proof fn law_keys_lead_to_every_link(file: Seq<u8>, m: GroupModel, at: nat, j: int)
    requires
        file.len() <= usize::MAX,
        well_named(m),
        held(file, btree_place(m, at) as int, table_image(m, at)),
        0 <= j < links_of(m).len(),
        link_text(m, j).len() > 0,
    ensures
        ({
            let heap = local_heap_at(file, heap_place(m, at) as int)->Ok_0;
            let found = sought(
                file,
                heap,
                btree_place(m, at) as int,
                encode_utf8(link_text(m, j)),
                3,
            );
            &&& local_heap_at(file, heap_place(m, at) as int) is Ok
            &&& found is Some
            &&& symbols_at(file, found->0 as int) is Ok
            &&& lists(
                heap,
                symbols_at(file, found->0 as int)->Ok_0,
                link_text(m, j),
                link_place(m, at, j) as u64,
            )
        }),
{
    lemma_link_target(m, j);
    lemma_in_order_len(declared_links(m.datasets, m.groups));
    lemma_table_parts(file, m, at);
    lemma_led_by_keys(file, m, at, j);
    lemma_entry_of_node(file, m, at, j);
    let p = btree_place(m, at) as int;
    let heap = heap_image(heap_names(m));
    let name = encode_utf8(link_text(m, j));
    lemma_more_levels(file, heap, p, name, level_of(node_count(link_count(m))), 3);
}

proof fn lemma_led_by_keys(file: Seq<u8>, m: GroupModel, at: nat, j: int)
    requires
        file.len() <= usize::MAX,
        well_named(m),
        links_of(m).len() == link_count(m),
        held(file, btree_place(m, at) as int, table_image(m, at)),
        0 <= j < links_of(m).len(),
        link_text(m, j).len() > 0,
    ensures
        sought(
            file,
            heap_image(heap_names(m)),
            btree_place(m, at) as int,
            encode_utf8(link_text(m, j)),
            level_of(node_count(link_count(m))),
        ) == Some((snod_place(m, at) + 328 * (j / 8)) as u64),
        level_of(node_count(link_count(m))) <= 3,
{
    let names = heap_names(m);
    let keys = node_keys(names);
    let count = node_count(link_count(m));
    let snod = snod_place(m, at);
    let name = encode_utf8(link_text(m, j));
    let heap = heap_image(names);
    lemma_nodes_len(link_count(m));
    lemma_table_parts(file, m, at);
    let t = j / 8;
    law_keys_bound_nodes(m, t, j);
    assert forall|i: int| 0 <= i < t implies is_behind(heap, #[trigger] keys[i], name) by {
        law_keys_bound_nodes(m, i, j);
    }
    assert forall|i: int| t <= i < keys.len() implies !is_behind(
        heap,
        #[trigger] keys[i],
        name,
    ) by {
        if i > t {
            lemma_later_key(m, i, j);
        }
    }
    assert forall|i: int| 0 <= i < keys.len() implies #[trigger] keys[i] <= u64::MAX by {
        law_keys_bound_nodes(m, i, j);
    }
    lemma_no_name(names);
    vstd::utf8::encode_utf8_first_scalar(link_text(m, j));
    assert(is_behind(heap, 0, name));
    lemma_tree_of_table(file, m, at);
    lemma_shares();
    lemma_sought(file, heap, level_of(keys.len()), btree_place(m, at), snod, keys, name, t);
}

proof fn lemma_tree_of_table(file: Seq<u8>, m: GroupModel, at: nat)
    requires
        held(file, btree_place(m, at) as int, table_image(m, at)),
    ensures
        held(
            file,
            btree_place(m, at) as int,
            tree_image(
                level_of(node_keys(heap_names(m)).len()),
                btree_place(m, at),
                snod_place(m, at),
                node_keys(heap_names(m)),
            ),
        ),
{
    reveal(table_image);
    reveal(group_tree_image);
    let names = heap_names(m);
    let a = group_tree_image(btree_place(m, at), snod_place(m, at), node_keys(names));
    let b = heap_header_image(heap_data_place(m, at), heap_size(names), heap_used(names).len());
    let c = heap_image(names);
    let d = snods_image(symbol_entries(m, at), node_count(names.len()));
    let p = btree_place(m, at) as int;
    lemma_held_parts(file, p, a + b + c, d);
    lemma_held_parts(file, p, a + b, c);
    lemma_held_parts(file, p, a, b);
}

proof fn lemma_entry_of_node(file: Seq<u8>, m: GroupModel, at: nat, j: int)
    requires
        file.len() <= usize::MAX,
        well_named(m),
        links_of(m).len() == link_count(m),
        held(file, btree_place(m, at) as int, table_image(m, at)),
        0 <= j < links_of(m).len(),
    ensures
        ({
            let place = (snod_place(m, at) + 328 * (j / 8)) as u64;
            &&& symbols_at(file, place as int) is Ok
            &&& lists(
                heap_image(heap_names(m)),
                symbols_at(file, place as int)->Ok_0,
                link_text(m, j),
                link_place(m, at, j) as u64,
            )
        }),
{
    let names = heap_names(m);
    let heap = heap_image(names);
    let count = node_count(link_count(m));
    let t = j / 8;
    lemma_nodes_len(link_count(m));
    lemma_table_parts(file, m, at);
    let places = node_places(snod_place(m, at), count);
    assert(places[t] == (snod_place(m, at) + 328 * t) as u64);
    let part = node_entries(symbol_entries(m, at), t);
    assert(symbols_at(file, places[t] as int) == Ok::<Seq<SymTabEntry>, ErrorKind>(
        read_entries(part),
    ));
    let k = j - 8 * t;
    assert(part[k] == symbol_entries(m, at)[j]);
    lemma_link(m, j);
    law_heap_name_reads_back(names, j, link_text(m, j));
    lemma_heap_name(names, j, link_text(m, j));
    let entries = read_entries(part);
    assert(name_in(heap, entries[k].name_offset as int) == Ok::<Seq<char>, ErrorKind>(
        link_text(m, j),
    ));
}

/// A name is not behind the key of a later node.
proof fn lemma_later_key(m: GroupModel, i: int, j: int)
    requires
        well_named(m),
        0 <= j < links_of(m).len(),
        j < 8 * i,
        0 <= i < node_count(link_count(m)),
    ensures
        !is_behind(
            heap_image(heap_names(m)),
            node_keys(heap_names(m))[i],
            encode_utf8(link_text(m, j)),
        ),
{
    let names = heap_names(m);
    let n = links_of(m).len() as int;
    lemma_link_target(m, j);
    lemma_in_order_len(declared_links(m.datasets, m.groups));
    lemma_nodes_len(link_count(m));
    let last = if 8 * i + 8 < n {
        8 * i + 7
    } else {
        n - 1
    };
    lemma_link(m, last);
    lemma_link(m, j);
    lemma_heap_name(names, last, link_text(m, last));
    assert(node_keys(names)[i] == node_key(names, i));
    lemma_names_ascend(m, j, last);
}

proof fn lemma_more_levels(
    file: Seq<u8>,
    heap: Seq<u8>,
    addr: int,
    name: Seq<u8>,
    a: nat,
    b: nat,
)
    requires
        a <= b,
        sought(file, heap, addr, name, a) is Some,
    ensures
        sought(file, heap, addr, name, b) == sought(file, heap, addr, name, a),
    decreases a,
{
    let i = bounded_child(file, heap, addr, 0, name)->0;
    if file[addr + 5] != 0 {
        lemma_more_levels(
            file,
            heap,
            child_at(file, addr, i) as int,
            name,
            (a - 1) as nat,
            (b - 1) as nat,
        );
    }
}

} // verus!
