//! Written files beyond what this library reads of them: what any other reader goes by.

use vstd::prelude::*;
use crate::bytes::{le_at, le_bytes, lemma_le_bytes_len, lemma_pow256_values, tag_at, zeros};
use crate::dtype::{ByteOrder, DtypeModel};
use crate::error::{ErrorKind, OxiH5Error};
use crate::roundtrip::file::{
    holds_group, lemma_file_parts, lemma_group_parts, lemma_readable_small, readable,
};
use crate::roundtrip::held::{
    held, lemma_held_bytes, lemma_held_number, lemma_held_part, lemma_held_parts,
};
use crate::roundtrip::placed::law_group_len;
use crate::roundtrip::table::{lemma_snods_held, well_named};
use crate::write::elem::{datatype_bytes, dtype_of, float_image, ElemType};
use crate::write::emit::{
    build_bytes, file_addresses, file_image, group_image, groups_end, lemma_link_target, node_keys,
    strings_image, symbol_entries, table_image,
};
use crate::write::format::{
    heap_header_image, lemma_symbols_len, node_entries, snods_image, superblock_image, symbol_image,
    symbols_image, SymbolEntry, MAX_LINKS,
};
use crate::write::group_tree::{
    branch_image, branches, entry_count, group_tree_image, law_group_tree_len,
};
use crate::write::layout::{
    btree_place, heap_data_place, heap_names, heap_place, lemma_nodes_len, link_count, node_count,
    snod_place,
};
use crate::write::links::{
    declared_links, heap_image, heap_size, heap_used, lemma_heap_lens, lemma_heap_prefix,
    lemma_in_order_len, links_of, name_offset, LinkTarget,
};
use crate::write::messages::{
    header_image, lemma_messages_len, max_extents, messages_image, messages_len, MsgModel,
};
use crate::write::tree::{GroupModel, GroupNode};

verus! {

/// The superblock of a written file says how long the file is, that nothing is free, how
/// wide symbol table nodes and B-tree nodes are, and where the root group, its B-tree and
/// its local heap are; and there they are.
pub proof fn law_superblock_of_written_file(
    root: &GroupNode,
    built: Result<Vec<u8>, OxiH5Error>,
)
    requires
        readable(root@),
        call_ensures(build_bytes, (root,), built),
        built is Ok,
    ensures
        ({
            let f = built->Ok_0@;
            &&& f.len() >= 96
            &&& le_at(f, 40, 8) == f.len()
            &&& f[13] == 8
            &&& f[14] == 8
            &&& 2 * le_at(f, 16, 2) == 8
            &&& 2 * le_at(f, 18, 2) == 32
            &&& le_at(f, 24, 8) == 0
            &&& le_at(f, 32, 8) == u64::MAX
            &&& le_at(f, 48, 8) == u64::MAX
            &&& le_at(f, 56, 8) == 0
            &&& f[le_at(f, 64, 8) as int] == 1
            &&& le_at(f, 72, 4) == 1
            &&& tag_at(f, le_at(f, 80, 8) as int, 'T', 'R', 'E', 'E')
            &&& tag_at(f, le_at(f, 88, 8) as int, 'H', 'E', 'A', 'P')
        }),
{
    let m = root@;
    let f = built->Ok_0@;
    assert(built->Ok_0.len() <= usize::MAX);
    let eof = groups_end(m) + strings_image(m).len();
    lemma_file_parts(m, f);
    lemma_superblock_start(m, f);
    lemma_readable_small(m);
    lemma_group_parts(f, m, 96, file_addresses(m), groups_end(m), 0);
    lemma_tags(f, m, 96);
    lemma_group_start(f, m);
    lemma_superblock_fields(f, btree_place(m, 96), heap_place(m, 96), eof);
}

/// A written file is as long as its superblock says.
proof fn lemma_superblock_start(m: GroupModel, f: Seq<u8>)
    requires
        readable(m),
        file_image(m) == Ok::<Seq<u8>, ErrorKind>(f),
        f.len() <= usize::MAX,
    ensures
        held(
            f,
            0,
            superblock_image(
                btree_place(m, 96),
                heap_place(m, 96),
                groups_end(m) + strings_image(m).len(),
            ),
        ),
        f.len() == groups_end(m) + strings_image(m).len(),
{
    reveal(file_image);
    let eof = groups_end(m) + strings_image(m).len();
    let a = superblock_image(btree_place(m, 96), heap_place(m, 96), eof);
    let b = group_image(m, 96, file_addresses(m), groups_end(m), 0)->Ok_0;
    let c = strings_image(m);
    crate::roundtrip::file::lemma_superblock_len(btree_place(m, 96), heap_place(m, 96), eof);
    assert(held(f, 0, a + b + c)) by {
        assert(f.subrange(0, f.len() as int) =~= f);
    }
    lemma_held_parts(f, 0, a + b, c);
    lemma_held_parts(f, 0, a, b);
    lemma_readable_small(m);
    law_group_len(m, 96, file_addresses(m), groups_end(m), 0);
}

proof fn lemma_superblock_fields(f: Seq<u8>, btree: nat, heap: nat, eof: nat)
    requires
        held(f, 0, superblock_image(btree, heap, eof)),
        btree <= u64::MAX,
        heap <= u64::MAX,
        eof <= u64::MAX,
    ensures
        f.len() >= 96,
        f[13] == 8,
        f[14] == 8,
        le_at(f, 16, 2) == 4,
        le_at(f, 18, 2) == 16,
        le_at(f, 24, 8) == 0,
        le_at(f, 32, 8) == u64::MAX,
        le_at(f, 40, 8) == eof,
        le_at(f, 48, 8) == u64::MAX,
        le_at(f, 56, 8) == 0,
        le_at(f, 64, 8) == 96,
        le_at(f, 72, 4) == 1,
        le_at(f, 80, 8) == btree,
        le_at(f, 88, 8) == heap,
{
    lemma_pow256_values();
    let none = u64::MAX as nat;
    let a = crate::superblock::signature();
    let b = seq![0u8, 0u8, 0u8, 0u8, 0u8, 8u8, 8u8, 0u8];
    lemma_le_bytes_len(4, 2);
    lemma_le_bytes_len(16, 2);
    lemma_le_bytes_len(0, 4);
    lemma_le_bytes_len(1, 4);
    lemma_le_bytes_len(0, 8);
    lemma_le_bytes_len(96, 8);
    lemma_le_bytes_len(none, 8);
    lemma_le_bytes_len(eof, 8);
    lemma_le_bytes_len(btree, 8);
    lemma_le_bytes_len(heap, 8);
    let i1 = a + b;
    let i2 = i1 + le_bytes(4, 2);
    let i3 = i2 + le_bytes(16, 2);
    let i4 = i3 + le_bytes(0, 4);
    let i5 = i4 + le_bytes(0, 8);
    let i6 = i5 + le_bytes(none, 8);
    let i7 = i6 + le_bytes(eof, 8);
    let i8 = i7 + le_bytes(none, 8);
    let i9 = i8 + le_bytes(0, 8);
    let i10 = i9 + le_bytes(96, 8);
    let i11 = i10 + le_bytes(1, 4);
    let i12 = i11 + le_bytes(0, 4);
    let i13 = i12 + le_bytes(btree, 8);
    lemma_held_parts(f, 0, i13, le_bytes(heap, 8));
    lemma_held_parts(f, 0, i12, le_bytes(btree, 8));
    lemma_held_parts(f, 0, i11, le_bytes(0, 4));
    lemma_held_parts(f, 0, i10, le_bytes(1, 4));
    lemma_held_parts(f, 0, i9, le_bytes(96, 8));
    lemma_held_parts(f, 0, i8, le_bytes(0, 8));
    lemma_held_parts(f, 0, i7, le_bytes(none, 8));
    lemma_held_parts(f, 0, i6, le_bytes(eof, 8));
    lemma_held_parts(f, 0, i5, le_bytes(none, 8));
    lemma_held_parts(f, 0, i4, le_bytes(0, 8));
    lemma_held_parts(f, 0, i3, le_bytes(0, 4));
    lemma_held_parts(f, 0, i2, le_bytes(16, 2));
    lemma_held_parts(f, 0, i1, le_bytes(4, 2));
    lemma_held_parts(f, 0, a, b);
    lemma_held_bytes(f, 8, b);
    assert(b[5] == f[8 + 5int] && b[6] == f[8 + 6int]);
    lemma_held_number(f, 16, 4, 2);
    lemma_held_number(f, 18, 16, 2);
    lemma_held_number(f, 24, 0, 8);
    lemma_held_number(f, 32, none, 8);
    lemma_held_number(f, 40, eof, 8);
    lemma_held_number(f, 48, none, 8);
    lemma_held_number(f, 56, 0, 8);
    lemma_held_number(f, 64, 96, 8);
    lemma_held_number(f, 72, 1, 4);
    lemma_held_number(f, 80, btree, 8);
    lemma_held_number(f, 88, heap, 8);
}

/// The header of a written root group opens with its version.
proof fn lemma_group_start(f: Seq<u8>, m: GroupModel)
    requires
        readable(m),
        holds_group(f, m, 96, file_addresses(m), groups_end(m), 0),
    ensures
        f[96] == 1,
{
    lemma_readable_small(m);
    lemma_group_parts(f, m, 96, file_addresses(m), groups_end(m), 0);
    let pairs = crate::write::emit::settled_pairs(m.attrs, file_addresses(m))->Ok_0;
    let msgs = crate::write::messages::group_msgs(
        btree_place(m, 96),
        heap_place(m, 96),
        pairs,
    )->Ok_0;
    law_header_of_written_object(f, 96, msgs);
}

/// A written object header opens with version 1, says how many messages it has, that one
/// link leads to it, and how many bytes its messages take.
pub proof fn law_header_of_written_object(f: Seq<u8>, at: int, msgs: Seq<MsgModel>)
    requires
        held(f, at, header_image(msgs)),
        msgs.len() <= u16::MAX,
        messages_len(msgs) <= u32::MAX,
    ensures
        f[at] == 1,
        le_at(f, at + 2, 2) == msgs.len(),
        le_at(f, at + 4, 4) == 1,
        le_at(f, at + 8, 4) == messages_image(msgs).len(),
{
    lemma_pow256_values();
    lemma_messages_len(msgs);
    let a = seq![1u8, 0u8];
    let b = le_bytes(msgs.len(), 2);
    let c = le_bytes(1, 4);
    let d = le_bytes(messages_len(msgs), 4);
    lemma_le_bytes_len(msgs.len(), 2);
    lemma_le_bytes_len(1, 4);
    lemma_le_bytes_len(messages_len(msgs), 4);
    lemma_held_parts(f, at, a + b + c + d + zeros(4), messages_image(msgs));
    lemma_held_parts(f, at, a + b + c + d, zeros(4));
    lemma_held_parts(f, at, a + b + c, d);
    lemma_held_parts(f, at, a + b, c);
    lemma_held_parts(f, at, a, b);
    lemma_held_bytes(f, at, a);
    assert(a[0] == f[at + 0]);
    lemma_held_number(f, at + 2, msgs.len(), 2);
    lemma_held_number(f, at + 4, 1, 4);
    lemma_held_number(f, at + 8, messages_len(msgs), 4);
}

/// The parts of the symbol table of a written group.
proof fn lemma_table(f: Seq<u8>, m: GroupModel, at: nat)
    requires
        links_of(m).len() == link_count(m),
        link_count(m) <= MAX_LINKS,
        held(f, btree_place(m, at) as int, table_image(m, at)),
    ensures
        held(
            f,
            btree_place(m, at) as int,
            group_tree_image(btree_place(m, at), snod_place(m, at), node_keys(heap_names(m))),
        ),
        held(
            f,
            heap_place(m, at) as int,
            heap_header_image(
                heap_data_place(m, at),
                heap_size(heap_names(m)),
                heap_used(heap_names(m)).len(),
            ),
        ),
        held(f, heap_data_place(m, at) as int, heap_image(heap_names(m))),
        held(
            f,
            snod_place(m, at) as int,
            snods_image(symbol_entries(m, at), node_count(heap_names(m).len())),
        ),
        heap_names(m).len() == link_count(m),
{
    reveal(table_image);
    let names = heap_names(m);
    let p = btree_place(m, at) as int;
    let a = group_tree_image(btree_place(m, at), snod_place(m, at), node_keys(names));
    let b = heap_header_image(heap_data_place(m, at), heap_size(names), heap_used(names).len());
    let c = heap_image(names);
    let d = snods_image(symbol_entries(m, at), node_count(names.len()));
    lemma_nodes_len(link_count(m));
    lemma_heap_lens(names);
    law_group_tree_len(btree_place(m, at), snod_place(m, at), node_keys(names));
    lemma_le_bytes_len(heap_size(names), 8);
    lemma_le_bytes_len(heap_used(names).len(), 8);
    lemma_le_bytes_len(heap_data_place(m, at), 8);
    lemma_held_parts(f, p, a + b + c, d);
    lemma_held_parts(f, p, a + b, c);
    lemma_held_parts(f, p, a, b);
}

proof fn lemma_tags(f: Seq<u8>, m: GroupModel, at: nat)
    requires
        readable(m),
        held(f, btree_place(m, at) as int, table_image(m, at)),
    ensures
        tag_at(f, btree_place(m, at) as int, 'T', 'R', 'E', 'E'),
        le_at(f, btree_place(m, at) as int + 8, 8) == u64::MAX,
        le_at(f, btree_place(m, at) as int + 16, 8) == u64::MAX,
        tag_at(f, heap_place(m, at) as int, 'H', 'E', 'A', 'P'),
{
    lemma_in_order_len(declared_links(m.datasets, m.groups));
    lemma_table(f, m, at);
    let names = heap_names(m);
    lemma_tree_tag(f, btree_place(m, at), snod_place(m, at), node_keys(names));
    let q = heap_place(m, at) as int;
    lemma_heap_header(f, q, heap_data_place(m, at), heap_size(names), heap_used(names).len());
}

/// The root of the B-tree of a written group.
proof fn lemma_tree_tag(f: Seq<u8>, at: nat, snod: nat, keys: Seq<nat>)
    requires
        held(f, at as int, group_tree_image(at, snod, keys)),
    ensures
        tag_at(f, at as int, 'T', 'R', 'E', 'E'),
        le_at(f, at as int + 8, 8) == u64::MAX,
        le_at(f, at as int + 16, 8) == u64::MAX,
{
    reveal(group_tree_image);
    let level = crate::write::group_tree::level_of(keys.len());
    if level == 0 {
        lemma_tree_start(
            f,
            at as int,
            0,
            keys.len(),
            crate::write::format::children_image(snod, keys),
        );
    } else {
        let first = at + 32 + 16 * entry_count(level, keys.len());
        let listed = branches(level, keys, first);
        lemma_held_parts(
            f,
            at as int,
            branch_image(level, listed),
            crate::write::group_tree::below_image(level, first, snod, keys),
        );
        lemma_tree_start(
            f,
            at as int,
            level as u8,
            listed.len(),
            crate::write::group_tree::branches_image(listed),
        );
    }
}

/// A node of a B-tree has no siblings.
proof fn lemma_tree_start(f: Seq<u8>, p: int, level: u8, n: nat, rest: Seq<u8>)
    requires
        held(
            f,
            p,
            seq!['T' as u8, 'R' as u8, 'E' as u8, 'E' as u8, 0u8, level] + le_bytes(n, 2)
                + le_bytes(u64::MAX as nat, 8) + le_bytes(u64::MAX as nat, 8) + le_bytes(0, 8)
                + rest,
        ),
    ensures
        tag_at(f, p, 'T', 'R', 'E', 'E'),
        le_at(f, p + 8, 8) == u64::MAX,
        le_at(f, p + 16, 8) == u64::MAX,
{
    let a = seq!['T' as u8, 'R' as u8, 'E' as u8, 'E' as u8, 0u8, level];
    let b = le_bytes(n, 2);
    let c = le_bytes(u64::MAX as nat, 8);
    let e = le_bytes(0, 8);
    lemma_le_bytes_len(n, 2);
    lemma_le_bytes_len(u64::MAX as nat, 8);
    lemma_pow256_values();
    lemma_held_parts(f, p, a + b + c + c + e, rest);
    lemma_held_parts(f, p, a + b + c + c, e);
    lemma_held_parts(f, p, a + b + c, c);
    lemma_held_parts(f, p, a + b, c);
    lemma_held_parts(f, p, a, b);
    lemma_held_bytes(f, p, a);
    assert(a[0] == f[p + 0] && a[1] == f[p + 1] && a[2] == f[p + 2] && a[3] == f[p + 3]);
    lemma_held_number(f, p + 8, u64::MAX as nat, 8);
    lemma_held_number(f, p + 16, u64::MAX as nat, 8);
}

proof fn lemma_heap_header(f: Seq<u8>, q: int, data: nat, size: nat, used: nat)
    requires
        held(f, q, heap_header_image(data, size, used)),
    ensures
        tag_at(f, q, 'H', 'E', 'A', 'P'),
        size <= u64::MAX ==> le_at(f, q + 8, 8) == size,
        used <= u64::MAX ==> le_at(f, q + 16, 8) == used,
        data <= u64::MAX ==> le_at(f, q + 24, 8) == data,
{
    let a = seq!['H' as u8, 'E' as u8, 'A' as u8, 'P' as u8, 0u8, 0u8, 0u8, 0u8];
    let b = le_bytes(size, 8);
    let c = le_bytes(used, 8);
    let d = le_bytes(data, 8);
    lemma_le_bytes_len(size, 8);
    lemma_le_bytes_len(used, 8);
    lemma_le_bytes_len(data, 8);
    lemma_pow256_values();
    lemma_held_parts(f, q, a + b + c, d);
    lemma_held_parts(f, q, a + b, c);
    lemma_held_parts(f, q, a, b);
    lemma_held_bytes(f, q, a);
    assert(a[0] == f[q + 0] && a[1] == f[q + 1] && a[2] == f[q + 2] && a[3] == f[q + 3]);
    if size <= u64::MAX {
        lemma_held_number(f, q + 8, size, 8);
    }
    if used <= u64::MAX {
        lemma_held_number(f, q + 16, used, 8);
    }
    if data <= u64::MAX {
        lemma_held_number(f, q + 24, data, 8);
    }
}

/// The local heap of a written group has one free block, behind all names and up to its
/// end: the block says that none follows, and how long it is.
pub proof fn law_free_block_of_written_heap(f: Seq<u8>, m: GroupModel, at: nat, j: int)
    requires
        f.len() <= usize::MAX,
        well_named(m),
        held(f, btree_place(m, at) as int, table_image(m, at)),
        0 <= j < links_of(m).len(),
    ensures
        ({
            let h = heap_place(m, at) as int;
            let size = le_at(f, h + 8, 8) as int;
            let free = le_at(f, h + 16, 8) as int;
            let data = le_at(f, h + 24, 8) as int;
            &&& data + size <= f.len()
            &&& 0 < free
            &&& free + 16 <= size
            &&& le_at(f, data + free, 8) == 1
            &&& le_at(f, data + free + 8, 8) == size - free
            &&& name_offset(heap_names(m), j) + heap_names(m)[j].len() < free
        }),
{
    lemma_in_order_len(declared_links(m.datasets, m.groups));
    lemma_table(f, m, at);
    lemma_pow256_values();
    let names = heap_names(m);
    let used = heap_used(names);
    let size = heap_size(names);
    lemma_heap_lens(names);
    let d = heap_data_place(m, at) as int;
    lemma_heap_header(f, heap_place(m, at) as int, heap_data_place(m, at), size, used.len());
    let free = (size - used.len()) as nat;
    let a = le_bytes(1, 8);
    let b = le_bytes(free, 8);
    let c = zeros((free - 16) as nat);
    lemma_le_bytes_len(1, 8);
    lemma_le_bytes_len(free, 8);
    lemma_held_parts(f, d, used + a + b, c);
    lemma_held_parts(f, d, used + a, b);
    lemma_held_parts(f, d, used, a);
    lemma_held_number(f, d + used.len(), 1, 8);
    lemma_held_number(f, d + used.len() + 8, free, 8);
    lemma_heap_prefix(names, j);
}

proof fn lemma_symbol_held(f: Seq<u8>, pos: int, entries: Seq<SymbolEntry>, i: int)
    requires
        held(f, pos, symbols_image(entries)),
        0 <= i < entries.len(),
    ensures
        held(f, pos + i * 40, symbol_image(entries[i])),
    decreases entries.len(),
{
    let front = entries.drop_last();
    lemma_symbols_len(front);
    lemma_held_parts(f, pos, symbols_image(front), symbol_image(entries.last()));
    if i < entries.len() - 1 {
        lemma_symbol_held(f, pos, front, i);
    }
}

proof fn lemma_entry_held(f: Seq<u8>, pos: int, all: Seq<SymbolEntry>, count: nat, j: int)
    requires
        held(f, pos, snods_image(all, count)),
        0 <= j < all.len(),
        j / 8 < count,
        8 * (count - 1) <= all.len(),
    ensures
        held(f, pos + 328 * (j / 8) + 8 + 40 * (j % 8), symbol_image(all[j])),
{
    let t = j / 8;
    let k = j % 8;
    lemma_snods_held(f, pos, all, count, t);
    let part = node_entries(all, t);
    assert(part[k] == all[j]);
    let p = pos + 328 * t;
    let a = seq!['S' as u8, 'N' as u8, 'O' as u8, 'D' as u8, 1u8, 0u8];
    let b = le_bytes(part.len(), 2);
    let c = symbols_image(part);
    let d = zeros((320 - part.len() * 40) as nat);
    lemma_le_bytes_len(part.len(), 2);
    lemma_symbols_len(part);
    lemma_held_parts(f, p, a + b + c, d);
    lemma_held_parts(f, p, a + b, c);
    lemma_symbol_held(f, p + 8, part, k);
}

/// The entry of a link in a written group: that of a sub-group says so, and repeats where
/// the B-tree and the local heap of the sub-group are; that of a dataset says nothing more
/// than where its name and its header are.
pub proof fn law_entry_of_written_link(f: Seq<u8>, m: GroupModel, at: nat, j: int)
    requires
        f.len() <= usize::MAX,
        well_named(m),
        held(f, btree_place(m, at) as int, table_image(m, at)),
        0 <= j < links_of(m).len(),
    ensures
        ({
            let pos = snod_place(m, at) + 328 * (j / 8) + 8 + 40 * (j % 8);
            &&& le_at(f, pos, 8) == name_offset(heap_names(m), j)
            &&& match links_of(m)[j].target {
                LinkTarget::Dataset(i) => {
                    &&& le_at(f, pos + 8, 8) == crate::write::layout::dataset_place(
                        m,
                        at,
                        i as int,
                    ) as u64
                    &&& le_at(f, pos + 16, 4) == 0
                },
                LinkTarget::Group(i) => {
                    let place = crate::write::layout::group_place(m, at, i as int);
                    &&& le_at(f, pos + 8, 8) == place as u64
                    &&& le_at(f, pos + 16, 4) == 1
                    &&& le_at(f, pos + 24, 8) == btree_place(m.groups[i as int], place) as u64
                    &&& le_at(f, pos + 32, 8) == heap_place(m.groups[i as int], place) as u64
                },
            }
        }),
{
    lemma_link_target(m, j);
    lemma_in_order_len(declared_links(m.datasets, m.groups));
    lemma_table(f, m, at);
    lemma_nodes_len(link_count(m));
    lemma_pow256_values();
    let names = heap_names(m);
    lemma_entry_held(
        f,
        snod_place(m, at) as int,
        symbol_entries(m, at),
        node_count(link_count(m)),
        j,
    );
    lemma_heap_lens(names);
    lemma_heap_prefix(names, j);
    lemma_symbol_fields(
        f,
        snod_place(m, at) + 328 * (j / 8) + 8 + 40 * (j % 8),
        symbol_entries(m, at)[j],
    );
}

proof fn lemma_symbol_fields(f: Seq<u8>, pos: int, e: SymbolEntry)
    requires
        held(f, pos, symbol_image(e)),
    ensures
        le_at(f, pos, 8) == e.name_offset,
        le_at(f, pos + 8, 8) == e.oh_addr,
        e.group is None ==> le_at(f, pos + 16, 4) == 0,
        e.group is Some ==> {
            &&& le_at(f, pos + 16, 4) == 1
            &&& le_at(f, pos + 24, 8) == (e.group->0).0
            &&& le_at(f, pos + 32, 8) == (e.group->0).1
        },
{
    lemma_pow256_values();
    let a = le_bytes(e.name_offset as nat, 8);
    let b = le_bytes(e.oh_addr as nat, 8);
    lemma_le_bytes_len(e.name_offset as nat, 8);
    lemma_le_bytes_len(e.oh_addr as nat, 8);
    match e.group {
        None => {
            lemma_held_parts(f, pos, a + b, zeros(24));
            lemma_held_parts(f, pos, a, b);
            crate::roundtrip::held::lemma_held_zeros(f, pos + 16, 24, 4);
        },
        Some((btree, heap)) => {
            let c = le_bytes(1, 4);
            let d = le_bytes(btree as nat, 8);
            let g = le_bytes(heap as nat, 8);
            lemma_le_bytes_len(1, 4);
            lemma_le_bytes_len(btree as nat, 8);
            lemma_le_bytes_len(heap as nat, 8);
            lemma_held_parts(f, pos, a + b + c + zeros(4) + d, g);
            lemma_held_parts(f, pos, a + b + c + zeros(4), d);
            lemma_held_parts(f, pos, a + b + c, zeros(4));
            lemma_held_parts(f, pos, a + b, c);
            lemma_held_parts(f, pos, a, b);
            lemma_held_number(f, pos + 16, 1, 4);
            lemma_held_number(f, pos + 24, btree as nat, 8);
            lemma_held_number(f, pos + 32, heap as nat, 8);
        },
    }
    lemma_held_number(f, pos, e.name_offset as nat, 8);
    lemma_held_number(f, pos + 8, e.oh_addr as nat, 8);
}

/// A dataset may grow along its first dimension without bound where it says so, and along
/// no other.
pub proof fn law_largest_extents(shape: Seq<nat>, grows: bool, d: int)
    requires
        0 <= d < shape.len(),
    ensures
        max_extents(shape, grows).len() == shape.len(),
        max_extents(shape, grows)[d] == if grows && d == 0 {
            u64::MAX as nat
        } else {
            shape[d]
        },
{
}

/// What each element type is written as.
pub proof fn law_element_types()
    ensures
        dtype_of(ElemType::F32) == (DtypeModel::Float { size: 4, order: ByteOrder::Little }),
        dtype_of(ElemType::F64) == (DtypeModel::Float { size: 8, order: ByteOrder::Little }),
        dtype_of(ElemType::I8) == (DtypeModel::Int {
            size: 1,
            signed: true,
            order: ByteOrder::Little,
        }),
        dtype_of(ElemType::I16) == (DtypeModel::Int {
            size: 2,
            signed: true,
            order: ByteOrder::Little,
        }),
        dtype_of(ElemType::I32) == (DtypeModel::Int {
            size: 4,
            signed: true,
            order: ByteOrder::Little,
        }),
        dtype_of(ElemType::I64) == (DtypeModel::Int {
            size: 8,
            signed: true,
            order: ByteOrder::Little,
        }),
        dtype_of(ElemType::U8) == (DtypeModel::Int {
            size: 1,
            signed: false,
            order: ByteOrder::Little,
        }),
        dtype_of(ElemType::U16) == (DtypeModel::Int {
            size: 2,
            signed: false,
            order: ByteOrder::Little,
        }),
        dtype_of(ElemType::U32) == (DtypeModel::Int {
            size: 4,
            signed: false,
            order: ByteOrder::Little,
        }),
        dtype_of(ElemType::U64) == (DtypeModel::Int {
            size: 8,
            signed: false,
            order: ByteOrder::Little,
        }),
{
}

/// A written integer type fills its bytes: its bits start at the first, and there are eight
/// for each byte.
pub proof fn law_written_integer_type(e: ElemType, r: Vec<u8>)
    requires
        call_ensures(datatype_bytes, (e,), r),
        dtype_of(e) is Int,
    ensures
        r@.len() >= 12,
        le_at(r@, 4, 4) == dtype_of(e)->Int_size,
        le_at(r@, 8, 2) == 0,
        le_at(r@, 10, 2) == 8 * dtype_of(e)->Int_size,
{
    let s = r@;
    lemma_pow256_values();
    let size = dtype_of(e)->Int_size;
    assert(held(s, 0, s)) by {
        assert(s.subrange(0, s.len() as int) =~= s);
    }
    lemma_le_bytes_len(size, 4);
    lemma_le_bytes_len(0, 2);
    lemma_le_bytes_len(size * 8, 2);
    assert(s.subrange(4, 8) =~= le_bytes(size, 4));
    lemma_held_part(s, 0, s, 4, le_bytes(size, 4));
    lemma_held_number(s, 4, size, 4);
    reveal_with_fuel(le_at, 3);
    assert(s[8] == 0 && s[9] == 0);
    assert(s.subrange(10, 12) =~= le_bytes(size * 8, 2));
    lemma_held_part(s, 0, s, 10, le_bytes(size * 8, 2));
    lemma_held_number(s, 10, size * 8, 2);
}

/// A written floating-point type is one of IEEE 754: from the lowest bit on the
/// significand, the exponent right behind it, and the sign bit behind that, which together
/// fill the bytes; the bias is half of the exponent's range.
pub proof fn law_written_float_type(e: ElemType, r: Vec<u8>)
    requires
        call_ensures(datatype_bytes, (e,), r),
        e == ElemType::F32 || e == ElemType::F64,
    ensures
        ({
            let size = if e == ElemType::F32 {
                4int
            } else {
                8
            };
            let exponent = r@[13] as int;
            &&& r@.len() >= 20
            &&& le_at(r@, 4, 4) == size
            &&& le_at(r@, 8, 2) == 0
            &&& le_at(r@, 10, 2) == 8 * size
            &&& r@[12] == r@[15]
            &&& r@[14] == 0
            &&& r@[15] + exponent + 1 == 8 * size
            &&& r@[2] == 8 * size - 1
            &&& exponent == if e == ElemType::F32 {
                8int
            } else {
                11
            }
            &&& 2 * (le_at(r@, 16, 4) + 1) == if e == ElemType::F32 {
                256int
            } else {
                2048
            }
        }),
{
    let s = r@;
    lemma_pow256_values();
    reveal_with_fuel(le_bytes, 5);
    reveal_with_fuel(le_at, 5);
    if e == ElemType::F32 {
        assert(s == float_image(4, 8));
    } else {
        assert(s == float_image(8, 11));
    }
}

} // verus!
