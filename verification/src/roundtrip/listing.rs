//! A written group lists its members.

use vstd::prelude::*;
use crate::error::ErrorKind;
use crate::file::{listing, root_listing};
use crate::group::{header_has, listed_entries, listed_leaves, MSG_SYMBOL_TABLE};
use crate::paths::{leading_slashes, without_slashes};
use crate::roundtrip::file::{
    holds_group, law_group_opens, lemma_dataset_held, lemma_dataset_parts, lemma_file_parts,
    lemma_group_held, lemma_group_parts, lemma_one_readable, lemma_readable_small, readable,
    written_place,
};
use crate::roundtrip::held::held;
use crate::roundtrip::table::{
    law_heap_name_reads_back, lemma_link, lemma_table_parts, link_place, link_text, node_places,
    read_entries,
};
use crate::snod::{symbols_at, SymTabEntry};
use crate::write::emit::{
    file_addresses, file_image, groups_end, lemma_link_target, symbol_entries, table_image,
};
use crate::write::format::node_entries;
use crate::write::layout::{
    btree_place, dataset_place, group_place, heap_names, lemma_nodes_len, link_count, node_count,
    snod_place,
};
use crate::write::links::{
    declared_links, heap_image, heap_size, lemma_heap_lens, lemma_heap_prefix, lemma_in_order_len,
    links_of, name_offset, LinkTarget,
};
use crate::write::plan::{datasets_strings, groups_strings};
use crate::write::tree::GroupModel;

verus! {

/// Whether the names of a group's members are not empty and do not start with a slash.
pub open spec fn plainly_named(m: GroupModel) -> bool {
    forall|j: int| 0 <= j < links_of(m).len() ==> #[trigger] plain(link_text(m, j))
}

/// Whether a name is not empty and does not start with a slash.
pub open spec fn plain(name: Seq<char>) -> bool {
    name.len() > 0 && name[0] != '/'
}

/// The names of the first `k` members, in order, that are groups, or that are not.
pub open spec fn names_listed(m: GroupModel, want_groups: bool, k: nat) -> Seq<Seq<char>>
    decreases k,
{
    if k == 0 {
        Seq::empty()
    } else {
        let front = names_listed(m, want_groups, (k - 1) as nat);
        if (links_of(m)[k - 1].target is Group) == want_groups {
            front.push(link_text(m, k - 1))
        } else {
            front
        }
    }
}

/// A link leads to a group exactly if its header has a symbol table.
proof fn lemma_link_kind(
    file: Seq<u8>,
    m: GroupModel,
    at: nat,
    map: Map<Seq<char>, u64>,
    gcol: nat,
    before: nat,
    j: int,
)
    requires
        file.len() <= usize::MAX,
        readable(m),
        holds_group(file, m, at, map, gcol, before),
        0 <= j < links_of(m).len(),
    ensures
        header_has(file, link_place(m, at, j) as u64, MSG_SYMBOL_TABLE) == (links_of(
            m,
        )[j].target is Group),
        link_place(m, at, j) < file.len(),
{
    lemma_readable_small(m);
    lemma_group_parts(file, m, at, map, gcol, before);
    lemma_link_target(m, j);
    match links_of(m)[j].target {
        LinkTarget::Dataset(i) => {
            lemma_dataset_held(file, m, at, map, gcol, before, m.datasets.len(), i as int);
            let seen = before + datasets_strings(m.datasets.take(i as int)).len();
            lemma_dataset_parts(
                file,
                m.datasets[i as int],
                dataset_place(m, at, i as int),
                map,
                gcol,
                seen,
            );
        },
        LinkTarget::Group(k) => {
            lemma_one_readable(m.groups, m.groups.len(), k as int);
            lemma_group_held(file, m, at, map, gcol, before, m.groups.len(), k as int);
            let seen = before + datasets_strings(m.datasets).len() + groups_strings(
                m.groups,
                k as nat,
            ).len();
            law_group_opens(
                file,
                m.groups[k as int],
                group_place(m, at, k as int),
                map,
                gcol,
                seen,
            );
        },
    }
}

/// The first entries of symbol table node `i` list the members in it.
proof fn lemma_entries_listed(
    file: Seq<u8>,
    m: GroupModel,
    at: nat,
    map: Map<Seq<char>, u64>,
    gcol: nat,
    before: nat,
    want_groups: bool,
    i: int,
    k: nat,
) -> (part: Seq<Seq<char>>)
    requires
        file.len() <= usize::MAX,
        readable(m),
        plainly_named(m),
        holds_group(file, m, at, map, gcol, before),
        0 <= i,
        8 * i <= links_of(m).len(),
        k <= node_entries(symbol_entries(m, at), i).len(),
        heap_size(heap_names(m)) <= u64::MAX,
    ensures
        listed_entries(
            file,
            heap_image(heap_names(m)),
            read_entries(node_entries(symbol_entries(m, at), i)),
            want_groups,
            k,
        ) == Ok::<Seq<Seq<char>>, ErrorKind>(part),
        names_listed(m, want_groups, (8 * i + k) as nat) == names_listed(
            m,
            want_groups,
            (8 * i) as nat,
        ) + part,
    decreases k,
{
    let front = names_listed(m, want_groups, (8 * i) as nat);
    if k > 0 {
        let q = k - 1;
        let j = 8 * i + q;
        let part = lemma_entries_listed(
            file,
            m,
            at,
            map,
            gcol,
            before,
            want_groups,
            i,
            q as nat,
        );
        let entries = node_entries(symbol_entries(m, at), i);
        assert(entries[q] == symbol_entries(m, at)[j]);
        lemma_link_kind(file, m, at, map, gcol, before, j);
        lemma_readable_small(m);
        lemma_link(m, j);
        lemma_heap_lens(heap_names(m));
        lemma_heap_prefix(heap_names(m), j);
        law_heap_name_reads_back(heap_names(m), j, link_text(m, j));
        assert(plain(link_text(m, j)));
        let name = link_text(m, j);
        assert(leading_slashes(name) == 0);
        assert(without_slashes(name) =~= name);
        let entry = read_entries(entries)[q];
        assert(entry.name_offset == name_offset(heap_names(m), j));
        assert(entry.object_header_address == link_place(m, at, j) as u64);
        assert((8 * i + k - 1) as nat == j as nat);
        if (links_of(m)[j].target is Group) == want_groups {
            assert((front + part).push(name) =~= front + part.push(name));
            part.push(name)
        } else {
            part
        }
    } else {
        assert(front + Seq::empty() =~= front);
        Seq::empty()
    }
}

/// The first `k` symbol table nodes list the members in them.
proof fn lemma_nodes_listed(
    file: Seq<u8>,
    m: GroupModel,
    at: nat,
    map: Map<Seq<char>, u64>,
    gcol: nat,
    before: nat,
    want_groups: bool,
    k: nat,
)
    requires
        file.len() <= usize::MAX,
        readable(m),
        plainly_named(m),
        holds_group(file, m, at, map, gcol, before),
        held(file, btree_place(m, at) as int, table_image(m, at)),
        links_of(m).len() == link_count(m),
        k <= node_count(link_count(m)),
    ensures
        listed_leaves(
            file,
            heap_image(heap_names(m)),
            node_places(snod_place(m, at), node_count(link_count(m))),
            want_groups,
            k,
        ) == Ok::<Seq<Seq<char>>, ErrorKind>(
            names_listed(
                m,
                want_groups,
                if 8 * k < link_count(m) {
                    8 * k
                } else {
                    link_count(m)
                },
            ),
        ),
    decreases k,
{
    if k > 0 {
        let i = k - 1;
        lemma_nodes_listed(file, m, at, map, gcol, before, want_groups, i as nat);
        lemma_readable_small(m);
        lemma_table_parts(file, m, at);
        let n = node_count(link_count(m));
        let places = node_places(snod_place(m, at), n);
        let entries = node_entries(symbol_entries(m, at), i);
        assert(symbols_at(file, places[i] as int) == Ok::<Seq<SymTabEntry>, ErrorKind>(
            read_entries(entries),
        ));
        let part = lemma_entries_listed(
            file,
            m,
            at,
            map,
            gcol,
            before,
            want_groups,
            i,
            entries.len(),
        );
        assert(read_entries(entries).len() == entries.len());
    }
}

/// A written group lists exactly its datasets and exactly its sub-groups, each in the
/// order of their names' bytes.
pub proof fn law_group_lists_members(
    file: Seq<u8>,
    m: GroupModel,
    at: nat,
    map: Map<Seq<char>, u64>,
    gcol: nat,
    before: nat,
    want_groups: bool,
)
    requires
        file.len() <= usize::MAX,
        readable(m),
        plainly_named(m),
        holds_group(file, m, at, map, gcol, before),
    ensures
        listing(file, written_place(m, at), want_groups) == Ok::<Seq<Seq<char>>, ErrorKind>(
            names_listed(m, want_groups, links_of(m).len()),
        ),
{
    lemma_readable_small(m);
    lemma_group_parts(file, m, at, map, gcol, before);
    lemma_in_order_len(declared_links(m.datasets, m.groups));
    lemma_nodes_len(link_count(m));
    lemma_table_parts(file, m, at);
    let n = node_count(link_count(m));
    lemma_nodes_listed(file, m, at, map, gcol, before, want_groups, n);
}

/// A written file lists the datasets of its root group.
pub proof fn law_file_lists_datasets(root: GroupModel, file: Seq<u8>, want_groups: bool)
    requires
        readable(root),
        plainly_named(root),
        file_image(root) == Ok::<Seq<u8>, ErrorKind>(file),
        file.len() <= usize::MAX,
    ensures
        root_listing(file, want_groups) == Ok::<Seq<Seq<char>>, ErrorKind>(
            names_listed(root, want_groups, links_of(root).len()),
        ),
{
    lemma_file_parts(root, file);
    law_group_lists_members(
        file,
        root,
        96,
        file_addresses(root),
        groups_end(root),
        0,
        want_groups,
    );
}

} // verus!
