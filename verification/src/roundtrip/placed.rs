//! Everything in a written file lies where the layout says.

use vstd::prelude::*;
use crate::bytes::lemma_le_bytes_len;
use crate::roundtrip::objects::{attr_named, attrs_named};
use crate::utf8::nul_free;
use crate::write::attr::{encoded, law_width_holds_all, AttrDesc, AttrKind};
use crate::write::chunked::law_chunk_index_len;
use crate::write::emit::{
    data_image, dataset_image, datasets_image, elements_image, group_image, groups_image,
    index_image, lemma_data_len, lemma_settled_len, node_keys, settled, settled_pairs,
    symbol_entries, table_image,
};
use crate::write::format::{lemma_snods_len, MAX_LINKS};
use crate::write::group_tree::law_group_tree_len;
use crate::write::layout::{
    btree_len, btree_place, data_place, dataset_len, dataset_place, datasets_len, elements_len,
    group_len, group_place, groups_len, heap_data_place, heap_names, heap_place, in_chunks,
    index_len, index_place, index_start, lemma_datasets_len, lemma_nodes_len, link_count,
    node_count, snod_place, snods_len, storage_error,
};
use crate::write::links::{heap_size, heap_used, lemma_heap_lens, links_of};
use crate::write::messages::{attrs_wf, law_dataset_header_len, law_group_header_len};
use crate::write::plan::{datasets_strings, groups_strings};
use crate::write::tiles::{chunk_count, chunk_records, lemma_chunks_len, lemma_records_rank};
use crate::write::tree::{DatasetDesc, GroupModel};

verus! {

/// Attributes with their references looked up can be written.
pub proof fn lemma_settled_wf(attrs: Seq<AttrDesc>, map: Map<Seq<char>, u64>)
    ensures
        settled_pairs(attrs, map) is Ok ==> attrs_wf(settled_pairs(attrs, map)->Ok_0),
{
    if let Ok(pairs) = settled_pairs(attrs, map) {
        assert forall|i: int| 0 <= i < pairs.len() implies (#[trigger] pairs[i]).1.wf() by {
            assert(settled(attrs[i].kind, map) is Some);
            if let AttrKind::StrArray(values) = attrs[i].kind {
                law_width_holds_all(encoded(values@));
            }
        }
    }
}

/// The names of attributes.
pub open spec fn attr_names(attrs: Seq<AttrDesc>) -> Seq<Seq<char>> {
    Seq::new(attrs.len(), |i: int| attrs[i].name@)
}

/// Whether the names of attributes have no NUL characters.
pub open spec fn attrs_nul_free(attrs: Seq<AttrDesc>) -> bool {
    forall|i: int| 0 <= i < attrs.len() ==> nul_free((#[trigger] attrs[i]).name@)
}

pub proof fn lemma_settled_named(attrs: Seq<AttrDesc>, map: Map<Seq<char>, u64>)
    requires
        attrs_nul_free(attrs),
        settled_pairs(attrs, map) is Ok,
    ensures
        attrs_named(settled_pairs(attrs, map)->Ok_0, attr_names(attrs)),
{
    let pairs = settled_pairs(attrs, map)->Ok_0;
    lemma_settled_wf(attrs, map);
    assert forall|i: int| 0 <= i < pairs.len() implies #[trigger] attr_named(
        pairs[i],
        attr_names(attrs)[i],
    ) by {
        assert(nul_free(attrs[i].name@));
        assert(settled(attrs[i].kind, map) is Some);
        match attrs[i].kind {
            AttrKind::F64Array(values) => {
                assert(values.len() <= usize::MAX);
            },
            AttrKind::I64Array(values) => {
                assert(values.len() <= usize::MAX);
            },
            AttrKind::StrArray(values) => {
                assert(values.len() <= usize::MAX);
            },
            AttrKind::ObjRefsByName(names) => {
                assert(names.len() <= usize::MAX);
            },
            _ => {},
        }
    }
}

/// A dataset takes as many bytes as the layout sets aside for it.
pub proof fn law_dataset_len(
    ds: DatasetDesc,
    at: nat,
    map: Map<Seq<char>, u64>,
    gcol: nat,
    before: nat,
)
    ensures
        dataset_image(ds, at, map, gcol, before) is Ok ==> dataset_image(
            ds,
            at,
            map,
            gcol,
            before,
        )->Ok_0.len() == dataset_len(ds),
{
    reveal(dataset_image);
    if let Ok(image) = dataset_image(ds, at, map, gcol, before) {
        let pairs = settled_pairs(ds.attrs@, map)->Ok_0;
        lemma_settled_wf(ds.attrs@, map);
        lemma_settled_len(ds.attrs@, map);
        law_dataset_header_len(ds, data_place(ds, at), index_place(ds, at), pairs);
        lemma_data_len(ds, gcol, before);
        lemma_stored_len(ds, at, data_image(ds, gcol, before)->Ok_0);
    }
}

/// The chunk index and the elements take as many bytes as are set aside for them.
pub proof fn lemma_stored_len(ds: DatasetDesc, at: nat, data: Seq<u8>)
    requires
        data.len() == ds.data_size(),
        ds.vlen_strings is None ==> data == ds.raw@,
    ensures
        index_image(ds, at).len() == index_len(ds),
        elements_image(ds, data).len() == elements_len(ds),
{
    if in_chunks(ds) {
        reveal(storage_error);
        lemma_records_rank(ds, data_place(ds, at));
        law_chunk_index_len(
            ds.shape@.len(),
            chunk_records(ds, data_place(ds, at)),
            index_start(ds, at),
        );
        lemma_chunks_len(ds, data, chunk_count(ds));
    }
}

pub proof fn lemma_table_len(m: GroupModel, at: nat)
    requires
        links_of(m).len() == link_count(m),
        link_count(m) <= MAX_LINKS,
    ensures
        table_image(m, at).len() == btree_len(link_count(m)) + 32 + heap_size(heap_names(m))
            + snods_len(link_count(m)),
{
    reveal(table_image);
    let names = heap_names(m);
    lemma_nodes_len(link_count(m));
    lemma_heap_lens(names);
    law_group_tree_len(btree_place(m, at), snod_place(m, at), node_keys(names));
    lemma_snods_len(symbol_entries(m, at), node_count(names.len()));
    lemma_le_bytes_len(heap_size(names), 8);
    lemma_le_bytes_len(heap_used(names).len(), 8);
    lemma_le_bytes_len(heap_data_place(m, at), 8);
}

/// Datasets take as many bytes as the layout sets aside for them.
pub proof fn lemma_datasets_image_len(
    m: GroupModel,
    at: nat,
    map: Map<Seq<char>, u64>,
    gcol: nat,
    before: nat,
    n: nat,
)
    requires
        n <= m.datasets.len(),
    ensures
        datasets_image(m, at, map, gcol, before, n) is Ok ==> datasets_image(
            m,
            at,
            map,
            gcol,
            before,
            n,
        )->Ok_0.len() == datasets_len(m.datasets.take(n as int)),
    decreases n,
{
    if n > 0 {
        lemma_datasets_image_len(m, at, map, gcol, before, (n - 1) as nat);
        lemma_datasets_len(m.datasets, n - 1);
        law_dataset_len(
            m.datasets[n - 1],
            dataset_place(m, at, n - 1),
            map,
            gcol,
            before + datasets_strings(m.datasets.take(n - 1)).len(),
        );
    } else {
        assert(m.datasets.take(0) =~= Seq::<DatasetDesc>::empty());
    }
}

/// Whether a group and every group in it has no more members than a tree of four levels
/// holds.
pub open spec fn small(m: GroupModel) -> bool
    decreases m, m.groups.len() + 1,
{
    &&& link_count(m) <= MAX_LINKS
    &&& all_small(m.groups, m.groups.len())
}

/// Whether the first `n` groups are small.
pub open spec fn all_small(groups: Seq<GroupModel>, n: nat) -> bool
    decreases groups, n,
{
    n == 0 || n > groups.len() || (all_small(groups, (n - 1) as nat) && small(groups[n - 1]))
}

/// A group takes as many bytes as the layout sets aside for it.
pub proof fn law_group_len(
    m: GroupModel,
    at: nat,
    map: Map<Seq<char>, u64>,
    gcol: nat,
    before: nat,
)
    requires
        small(m),
    ensures
        group_image(m, at, map, gcol, before) is Ok ==> group_image(
            m,
            at,
            map,
            gcol,
            before,
        )->Ok_0.len() == group_len(m),
    decreases m, m.groups.len() + 1,
{
    if group_image(m, at, map, gcol, before) is Ok {
        let pairs = settled_pairs(m.attrs, map)->Ok_0;
        lemma_settled_wf(m.attrs, map);
        lemma_settled_len(m.attrs, map);
        law_group_header_len(btree_place(m, at), heap_place(m, at), pairs);
        crate::write::links::lemma_in_order_len(
            crate::write::links::declared_links(m.datasets, m.groups),
        );
        lemma_table_len(m, at);
        lemma_datasets_image_len(m, at, map, gcol, before, m.datasets.len());
        assert(m.datasets.take(m.datasets.len() as int) =~= m.datasets);
        lemma_groups_image_len(m, at, map, gcol, before, m.groups.len());
    }
}

pub proof fn lemma_groups_image_len(
    m: GroupModel,
    at: nat,
    map: Map<Seq<char>, u64>,
    gcol: nat,
    before: nat,
    n: nat,
)
    requires
        n <= m.groups.len(),
        all_small(m.groups, n),
    ensures
        groups_image(m, at, map, gcol, before, n) is Ok ==> groups_image(
            m,
            at,
            map,
            gcol,
            before,
            n,
        )->Ok_0.len() == groups_len(m.groups, n),
    decreases m, n,
{
    if n > 0 {
        lemma_groups_image_len(m, at, map, gcol, before, (n - 1) as nat);
        law_group_len(
            m.groups[n - 1],
            group_place(m, at, n - 1),
            map,
            gcol,
            before + datasets_strings(m.datasets).len() + groups_strings(
                m.groups,
                (n - 1) as nat,
            ).len(),
        );
    }
}

} // verus!
