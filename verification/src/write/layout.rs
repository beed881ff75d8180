//! Where everything in a file goes.
//!
//! A group takes, one after the other: its object header, a B-tree, the header and the
//! data segment of its local heap, its symbol table nodes, its datasets, its
//! sub-groups. A dataset takes its object header, for chunked storage a B-tree over its
//! chunks, and its elements or its chunks, each padded to a multiple of 8.

use vstd::prelude::*;
use vstd::utf8::encode_utf8;
use crate::global_heap::align8;
use crate::write::attr::{resolved_model, AttrDesc, AttrModel};
use crate::write::chunked::{chunk_index_len, chunk_index_root};
use crate::error::ErrorKind;
use crate::write::format::MAX_LINKS;
use crate::write::group_tree::{group_tree_len, lemma_group_tree_len, MAX_NODES};
use crate::write::links::{heap_size, links_of, LinkModel};
use crate::write::messages::{dataset_header_len, group_header_len, pipeline_len};
use crate::write::tiles::{chunk_count, chunks_fit, chunks_size};
use crate::write::tree::{DatasetDesc, GroupModel, Storage};

verus! {

/// Attributes as they are known before any address is.
pub open spec fn declared_pairs(attrs: Seq<AttrDesc>) -> Seq<(Seq<u8>, AttrModel)> {
    Seq::new(
        attrs.len(),
        |i: int| (encode_utf8(attrs[i].name@), resolved_model(attrs[i].kind)),
    )
}

/// Why a dataset cannot be stored, if so: a filter without chunks, or chunks that cannot
/// be stored.
#[verifier::opaque]
pub open spec fn storage_error(ds: DatasetDesc) -> Option<ErrorKind> {
    let storable = match ds.storage {
        Storage::Contiguous => ds.filter is None,
        Storage::Chunked { .. } => chunks_fit(ds),
    };
    if storable {
        None
    } else {
        Some(ErrorKind::Format)
    }
}

/// The bytes of a dataset's object header.
pub open spec fn dataset_oh_len(ds: DatasetDesc) -> nat {
    dataset_header_len(
        ds.shape@.len(),
        ds.elem_type,
        ds.storage is Chunked,
        declared_pairs(ds.attrs@),
    ) + pipeline_len(ds)
}

/// Whether a dataset is stored in chunks.
pub open spec fn in_chunks(ds: DatasetDesc) -> bool {
    ds.storage is Chunked && storage_error(ds) is None
}

/// The bytes of a dataset's chunk index.
pub open spec fn index_len(ds: DatasetDesc) -> nat {
    if in_chunks(ds) {
        chunk_index_len(ds.shape@.len(), chunk_count(ds))
    } else {
        0
    }
}

/// Where the chunk index of a dataset placed at `at` starts.
pub open spec fn index_start(ds: DatasetDesc, at: nat) -> nat {
    at + dataset_oh_len(ds)
}

/// The address of the root of a dataset's chunk index, or 0.
pub open spec fn index_place(ds: DatasetDesc, at: nat) -> nat {
    if in_chunks(ds) {
        chunk_index_root(ds.shape@.len(), chunk_count(ds), index_start(ds, at))
    } else {
        0
    }
}

/// The address of the elements of a dataset placed at `at`.
pub open spec fn data_place(ds: DatasetDesc, at: nat) -> nat {
    at + dataset_oh_len(ds) + index_len(ds)
}

/// The bytes of a dataset's elements.
pub open spec fn elements_len(ds: DatasetDesc) -> nat {
    if in_chunks(ds) {
        chunks_size(ds, chunk_count(ds))
    } else if ds.storage is Chunked {
        0
    } else {
        align8(ds.data_size() as int) as nat
    }
}

/// The bytes of a dataset.
pub open spec fn dataset_len(ds: DatasetDesc) -> nat {
    dataset_oh_len(ds) + index_len(ds) + elements_len(ds)
}

/// The bytes of datasets, one after the other.
pub open spec fn datasets_len(datasets: Seq<DatasetDesc>) -> nat
    decreases datasets.len(),
{
    if datasets.len() == 0 {
        0
    } else {
        datasets_len(datasets.drop_last()) + dataset_len(datasets.last())
    }
}

/// The names of links.
pub open spec fn link_names(links: Seq<LinkModel>) -> Seq<Seq<u8>> {
    Seq::new(links.len(), |i: int| links[i].name)
}

/// The names in a group's local heap, in order.
pub open spec fn heap_names(m: GroupModel) -> Seq<Seq<u8>> {
    link_names(links_of(m))
}

/// The bytes of a group's object header.
pub open spec fn group_oh_len(m: GroupModel) -> nat {
    group_header_len(declared_pairs(m.attrs))
}

/// The address of the B-tree of a group placed at `at`.
pub open spec fn btree_place(m: GroupModel, at: nat) -> nat {
    at + group_oh_len(m)
}

/// The number of a group's links.
pub open spec fn link_count(m: GroupModel) -> nat {
    m.datasets.len() + m.groups.len()
}

/// How many symbol table nodes of eight links each hold `n` links: one at least.
pub open spec fn node_count(n: nat) -> nat {
    if n == 0 {
        1
    } else {
        (n + 7) / 8
    }
}

/// The bytes of a B-tree over `n` links.
#[verifier::opaque]
pub open spec fn btree_len(n: nat) -> nat {
    group_tree_len(node_count(n))
}

/// The bytes of the symbol table nodes of `n` links.
#[verifier::opaque]
pub open spec fn snods_len(n: nat) -> nat {
    328 * node_count(n)
}

pub proof fn lemma_nodes_len(n: nat)
    ensures
        btree_len(n) % 8 == 0,
        snods_len(n) % 8 == 0,
        btree_len(n) == group_tree_len(node_count(n)),
        snods_len(n) == 328 * node_count(n),
        node_count(n) >= 1,
        n <= 8 * node_count(n),
        n <= MAX_LINKS ==> node_count(n) <= MAX_NODES,
{
    lemma_group_tree_len(node_count(n));
    reveal(btree_len);
    reveal(snods_len);
}

/// The address of its local heap.
pub open spec fn heap_place(m: GroupModel, at: nat) -> nat {
    btree_place(m, at) + btree_len(link_count(m))
}

/// The address of its local heap's data segment.
pub open spec fn heap_data_place(m: GroupModel, at: nat) -> nat {
    heap_place(m, at) + 32
}

/// The address of its first symbol table node.
pub open spec fn snod_place(m: GroupModel, at: nat) -> nat {
    heap_data_place(m, at) + heap_size(heap_names(m))
}

/// The address of its first dataset.
pub open spec fn datasets_place(m: GroupModel, at: nat) -> nat {
    snod_place(m, at) + snods_len(link_count(m))
}

/// The address of its dataset at place `i`.
pub open spec fn dataset_place(m: GroupModel, at: nat, i: int) -> nat {
    datasets_place(m, at) + datasets_len(m.datasets.take(i))
}

/// The bytes of a group with everything in it.
pub open spec fn group_len(m: GroupModel) -> nat
    decreases m, 0nat,
{
    (datasets_place(m, 0) + datasets_len(m.datasets) + groups_len(m.groups, m.groups.len())) as nat
}

/// The bytes of the first `n` groups.
pub open spec fn groups_len(groups: Seq<GroupModel>, n: nat) -> nat
    decreases groups, n,
{
    if n == 0 || n > groups.len() {
        0
    } else {
        groups_len(groups, (n - 1) as nat) + group_len(groups[n - 1])
    }
}

/// The address of its sub-group at place `i`.
pub open spec fn group_place(m: GroupModel, at: nat, i: int) -> nat {
    datasets_place(m, at) + datasets_len(m.datasets) + groups_len(m.groups, i as nat)
}

/// Why a group cannot be laid out, if so: more links than a tree of four levels holds, or
/// the first of its datasets or sub-groups, in that order, that cannot.
pub open spec fn layout_error(m: GroupModel) -> Option<ErrorKind>
    decreases m, 0nat,
{
    if link_count(m) > MAX_LINKS {
        Some(ErrorKind::Format)
    } else if first_storage_error(m.datasets) is Some {
        first_storage_error(m.datasets)
    } else {
        first_layout_error(m.groups, m.groups.len())
    }
}

/// The error of the first dataset that cannot be stored.
pub open spec fn first_storage_error(datasets: Seq<DatasetDesc>) -> Option<ErrorKind>
    decreases datasets.len(),
{
    if datasets.len() == 0 {
        None
    } else if first_storage_error(datasets.drop_last()) is Some {
        first_storage_error(datasets.drop_last())
    } else {
        storage_error(datasets.last())
    }
}

/// The error of the first of `n` groups that cannot be laid out.
pub open spec fn first_layout_error(groups: Seq<GroupModel>, n: nat) -> Option<ErrorKind>
    decreases groups, n,
{
    if n == 0 || n > groups.len() {
        None
    } else if first_layout_error(groups, (n - 1) as nat) is Some {
        first_layout_error(groups, (n - 1) as nat)
    } else {
        layout_error(groups[n - 1])
    }
}

/// The first error stays first.
pub proof fn lemma_first_storage_error(datasets: Seq<DatasetDesc>, n: int)
    requires
        0 <= n <= datasets.len(),
    ensures
        first_storage_error(datasets.take(n)) is Some ==> first_storage_error(datasets)
            == first_storage_error(datasets.take(n)),
    decreases datasets.len() - n,
{
    if n < datasets.len() {
        lemma_first_storage_error(datasets, n + 1);
        assert(datasets.take(n + 1).drop_last() =~= datasets.take(n));
    } else {
        assert(datasets.take(n) =~= datasets);
    }
}

pub proof fn lemma_first_layout_error(groups: Seq<GroupModel>, k: nat, n: nat)
    requires
        k <= n <= groups.len(),
    ensures
        first_layout_error(groups, k) is Some ==> first_layout_error(groups, n)
            == first_layout_error(groups, k),
    decreases n,
{
    if k < n {
        lemma_first_layout_error(groups, k, (n - 1) as nat);
    }
}

pub proof fn lemma_datasets_len(datasets: Seq<DatasetDesc>, n: int)
    requires
        0 <= n <= datasets.len(),
    ensures
        datasets_len(datasets.take(n)) <= datasets_len(datasets),
        n < datasets.len() ==> datasets_len(datasets.take(n + 1)) == datasets_len(
            datasets.take(n),
        ) + dataset_len(datasets[n]),
        n < datasets.len() ==> datasets_len(datasets.take(n + 1)) <= datasets_len(datasets),
    decreases datasets.len() - n,
{
    if n < datasets.len() {
        lemma_datasets_len(datasets, n + 1);
        assert(datasets.take(n + 1).drop_last() =~= datasets.take(n));
    } else {
        assert(datasets.take(n) =~= datasets);
    }
}

pub proof fn lemma_groups_len(groups: Seq<GroupModel>, k: nat, n: nat)
    requires
        k <= n <= groups.len(),
    ensures
        groups_len(groups, k) <= groups_len(groups, n),
        k < n ==> groups_len(groups, (k + 1) as nat) == groups_len(groups, k) + group_len(
            groups[k as int],
        ),
        k < n ==> groups_len(groups, (k + 1) as nat) <= groups_len(groups, n),
    decreases n,
{
    if k < n {
        lemma_groups_len(groups, k, (n - 1) as nat);
    }
}

} // verus!
