//! The first pass of writing a file: every address, before a byte is written.

use vstd::prelude::*;
use vstd::string::*;
use vstd::utf8::encode_utf8;
use crate::dtype::views;
use crate::error::{text, ErrorKind, OxiH5Error};
use crate::global_heap_writer::GlobalHeapWriter;
use crate::write::attr::{pad8, resolve_attrs, resolves, AddressMap, AttrDesc, ResolvedAttr};
use crate::write::chunked::{
    chunk_node_room, chunk_node_size, index_level, index_nodes, tree_nodes,
};
use crate::write::format::{HEAP_HEADER_SIZE, MAX_LINKS, SNOD_SIZE};
use crate::write::group_tree::group_tree_size;
use crate::write::layout::{
    btree_len, btree_place, data_place, dataset_len, dataset_oh_len, dataset_place, datasets_len,
    datasets_place, declared_pairs, first_layout_error, first_storage_error, group_len,
    group_oh_len, group_place, groups_len, heap_data_place, heap_names, heap_place, in_chunks,
    index_place, layout_error, lemma_datasets_len, lemma_first_layout_error,
    lemma_first_storage_error, lemma_groups_len, lemma_nodes_len, link_names, snod_place, snods_len,
    storage_error,
};
use crate::write::links::{
    build_local_heap, declared_links, encoded_names, heap_image, heap_size, heap_used,
    lemma_heap_lens, lemma_in_order_len, links_of, name_offset, sorted_links, Link, LocalHeap,
};
use crate::write::messages::{attr_pairs, attrs_wf, compute_group_oh_size, compute_oh_size};
use crate::write::tiles::{chunk_count, chunk_sizes, chunks_size, lemma_chunks_size, stored_size};
use crate::write::tree::{lemma_group_model, DatasetDesc, GroupModel, GroupNode};

verus! {

/// Where the parts of a dataset go.
pub struct DatasetPlan<'a> {
    pub desc: &'a DatasetDesc,
    /// Address of its object header.
    pub oh_addr: usize,
    /// Bytes set aside for its object header.
    pub oh_size: usize,
    /// Address of the root of its chunk index, or 0.
    pub btree_addr: usize,
    /// Address of its elements, or of its first chunk.
    pub data_addr: usize,
    /// How many bytes are stored of each of its chunks.
    pub chunk_sizes: Vec<usize>,
    /// Address of each of its chunks.
    pub chunk_addrs: Vec<usize>,
}

/// Where the local heap and the symbol table of a group go.
pub struct SymPlan {
    pub btree_addr: usize,
    pub heap_hdr_addr: usize,
    pub heap_data_addr: usize,
    /// The heap's data segment, with one name per link.
    pub heap: LocalHeap,
    pub snod_addr: usize,
}

/// Where the parts of a group go, and everything in it.
pub struct GroupPlan<'a> {
    pub node: &'a GroupNode,
    /// Address of its object header.
    pub oh_addr: usize,
    /// Bytes set aside for its object header.
    pub oh_size: usize,
    pub sym: SymPlan,
    /// Its links, in order of their names.
    pub links: Vec<Link<'a>>,
    pub datasets: Vec<DatasetPlan<'a>>,
    pub groups: Vec<GroupPlan<'a>>,
}

/// Whether `resolved` are the attributes made ready.
pub open spec fn all_resolved(attrs: Seq<AttrDesc>, resolved: Seq<ResolvedAttr>) -> bool {
    &&& resolved.len() == attrs.len()
    &&& forall|i: int| 0 <= i < attrs.len() ==> resolves(#[trigger] attrs[i], resolved[i])
}

/// Whether these are the sizes of the chunks of a dataset.
pub open spec fn lists_sizes(ds: DatasetDesc, sizes: Seq<usize>) -> bool {
    in_chunks(ds) ==> {
        &&& sizes.len() == chunk_count(ds)
        &&& forall|k: int| 0 <= k < sizes.len() ==> #[trigger] sizes[k] == stored_size(ds, k)
    }
}

/// Whether these are the addresses of the chunks of a dataset that are stored from `from`
/// on.
pub open spec fn lists_places(ds: DatasetDesc, from: nat, addresses: Seq<usize>) -> bool {
    if in_chunks(ds) {
        &&& addresses.len() == chunk_count(ds)
        &&& forall|k: int|
            0 <= k < addresses.len() ==> #[trigger] addresses[k] == from + chunks_size(ds, k as nat)
    } else {
        addresses.len() == 0
    }
}

impl<'a> DatasetPlan<'a> {
    /// Whether this places a dataset at `at`.
    pub open spec fn places(self, at: nat) -> bool {
        &&& self.oh_addr == at
        &&& self.oh_size == dataset_oh_len(*self.desc)
        &&& self.btree_addr == index_place(*self.desc, at)
        &&& self.data_addr == data_place(*self.desc, at)
        &&& lists_sizes(*self.desc, self.chunk_sizes@)
        &&& lists_places(*self.desc, self.data_addr as nat, self.chunk_addrs@)
    }
}

impl SymPlan {
    /// Whether this places the symbol table of a group that is placed at `at`.
    pub open spec fn places(self, m: GroupModel, at: nat) -> bool {
        &&& self.btree_addr == btree_place(m, at)
        &&& self.heap_hdr_addr == heap_place(m, at)
        &&& self.heap_data_addr == heap_data_place(m, at)
        &&& self.snod_addr == snod_place(m, at)
        &&& holds_names(self.heap, heap_names(m))
    }
}

/// Whether a local heap is that of these names.
pub open spec fn holds_names(heap: LocalHeap, names: Seq<Seq<u8>>) -> bool {
    &&& heap.data@ == heap_image(names)
    &&& heap.used == heap_used(names).len()
    &&& heap.name_offsets@.len() == names.len()
    &&& forall|i: int|
        0 <= i < names.len() ==> #[trigger] heap.name_offsets@[i] == name_offset(names, i)
}

impl<'a> GroupPlan<'a> {
    /// Whether this places a group at `at`.
    pub open spec fn places(self, at: nat) -> bool
        decreases self,
    {
        &&& self.oh_addr == at
        &&& self.oh_size == group_oh_len(self.node@)
        &&& views(self.links@) == links_of(self.node@)
        &&& self.sym.places(self.node@, at)
        &&& self.datasets@.len() == self.node.datasets@.len()
        &&& forall|i: int|
            0 <= i < self.datasets@.len() ==> (#[trigger] self.datasets@[i]).desc
                == self.node.datasets@[i]
        &&& forall|i: int|
            0 <= i < self.datasets@.len() ==> (#[trigger] self.datasets@[i]).places(
                dataset_place(self.node@, at, i),
            )
        &&& self.groups@.len() == self.node.groups@.len()
        &&& forall|i: int|
            0 <= i < self.groups@.len() ==> (#[trigger] self.groups@[i]).node
                == self.node.groups@[i]
        &&& forall|i: int|
            0 <= i < self.groups@.len() ==> (#[trigger] self.groups[i]).places(
                group_place(self.node@, at, i),
            )
    }
}

/// The pairs of attributes made ready are those known before.
pub proof fn lemma_resolved_pairs(attrs: Seq<AttrDesc>, resolved: Seq<ResolvedAttr>)
    requires
        all_resolved(attrs, resolved),
    ensures
        attr_pairs(resolved) == declared_pairs(attrs),
        attrs_wf(attr_pairs(resolved)),
{
    let pairs = attr_pairs(resolved);
    assert forall|i: int| 0 <= i < pairs.len() implies #[trigger] pairs[i] == declared_pairs(
        attrs,
    )[i] by {
        assert(resolves(attrs[i], resolved[i]));
    }
    assert(pairs =~= declared_pairs(attrs));
    assert forall|i: int| 0 <= i < pairs.len() implies (#[trigger] pairs[i]).1.wf() by {
        assert(resolves(attrs[i], resolved[i]));
    }
}

/// How many bytes are stored of each chunk of a dataset, if it can be stored.
pub fn plan_storage(ds: &DatasetDesc) -> (r: Result<Vec<usize>, OxiH5Error>)
    ensures
        match (r, storage_error(*ds)) {
            (Ok(sizes), None) => lists_sizes(*ds, sizes@),
            (Err(e), Some(kind)) => e@ == kind,
            _ => false,
        },
{
    proof {
        reveal(storage_error);
    }
    if ds.chunked().is_some() {
        return chunk_sizes(ds);
    }
    if ds.filter.is_some() {
        return Err(OxiH5Error::Format("a filter needs chunked storage".to_string()));
    }
    Ok(Vec::new())
}

/// How many nodes the chunk index of a dataset has.
fn plan_index(ds: &DatasetDesc, sizes: &[usize]) -> (r: usize)
    requires
        in_chunks(*ds),
        lists_sizes(*ds, sizes@),
    ensures
        r == tree_nodes(index_level(chunk_count(*ds)), chunk_count(*ds)),
        r >= 1,
{
    proof {
        reveal(storage_error);
    }
    index_nodes(sizes.len())
}

/// Reserve space for chunks of these sizes, each padded to a multiple of 8.
fn plan_chunks(ds: &DatasetDesc, sizes: &[usize], current: &mut usize) -> (r: Vec<usize>)
    requires
        in_chunks(*ds),
        lists_sizes(*ds, sizes@),
        *old(current) + chunks_size(*ds, chunk_count(*ds)) <= usize::MAX,
    ensures
        lists_places(*ds, *old(current) as nat, r@),
        *final(current) == *old(current) + chunks_size(*ds, chunk_count(*ds)),
{
    let ghost from = *current as int;
    let mut addresses: Vec<usize> = Vec::new();
    for k in 0..sizes.len()
        invariant
            in_chunks(*ds),
            lists_sizes(*ds, sizes@),
            from + chunks_size(*ds, chunk_count(*ds)) <= usize::MAX,
            *current == from + chunks_size(*ds, k as nat),
            addresses@.len() == k,
            forall|i: int|
                0 <= i < k ==> #[trigger] addresses@[i] == from + chunks_size(*ds, i as nat),
    {
        proof {
            lemma_chunks_size(*ds, (k + 1) as nat, chunk_count(*ds));
        }
        addresses.push(*current);
        *current = *current + pad8(sizes[k]);
    }
    addresses
}

/// Reserve the local heap and the symbol table of a group with these links.
pub fn plan_sym_table<'a>(links: &[Link<'a>], current: &mut usize) -> (r: Result<
    SymPlan,
    OxiH5Error,
>)
    requires
        *old(current) + btree_len(links@.len()) + 32 + heap_size(link_names(views(links@)))
            + snods_len(links@.len()) <= usize::MAX,
    ensures
        r is Err <==> links@.len() > MAX_LINKS,
        match r {
            Err(e) => e@ == ErrorKind::Format,
            Ok(sym) => {
                &&& sym.btree_addr == *old(current)
                &&& sym.heap_hdr_addr == *old(current) + btree_len(links@.len())
                &&& sym.heap_data_addr == sym.heap_hdr_addr + 32
                &&& sym.snod_addr == sym.heap_data_addr + heap_size(link_names(views(links@)))
                &&& *final(current) == sym.snod_addr + snods_len(links@.len())
                &&& holds_names(sym.heap, link_names(views(links@)))
            },
        },
{
    let ghost all = link_names(views(links@));
    if links.len() > MAX_LINKS {
        return Err(
            OxiH5Error::Format(
                text(
                    &[
                        "a group holds ",
                        links.len().to_string().as_str(),
                        " links, more than the writer lays out",
                    ],
                ),
            ),
        );
    }
    let mut names: Vec<&str> = Vec::new();
    for i in 0..links.len()
        invariant
            names@.len() == i,
            forall|k: int| 0 <= k < i ==> (#[trigger] names@[k])@ == links@[k].name@,
    {
        names.push(links[i].name);
    }
    proof {
        assert(encoded_names(names@) =~= all);
        lemma_heap_lens(all);
        lemma_nodes_len(links@.len());
    }
    let nodes: usize = if links.len() == 0 {
        1
    } else {
        (links.len() + 7) / 8
    };
    let heap: LocalHeap = build_local_heap(&names);
    let btree_addr: usize = *current;
    let heap_hdr_addr: usize = btree_addr + group_tree_size(nodes);
    let heap_data_addr: usize = heap_hdr_addr + HEAP_HEADER_SIZE;
    let snod_addr: usize = heap_data_addr + heap.data.len();
    *current = snod_addr + SNOD_SIZE * nodes;
    Ok(SymPlan { btree_addr, heap_hdr_addr, heap_data_addr, heap, snod_addr })
}

/// Reserve space for a dataset.
pub fn plan_dataset<'a>(ds: &'a DatasetDesc, current: &mut usize) -> (r: Result<
    DatasetPlan<'a>,
    OxiH5Error,
>)
    requires
        *old(current) + dataset_len(*ds) <= usize::MAX,
    ensures
        match (r, storage_error(*ds)) {
            (Ok(plan), None) => {
                &&& plan.desc == ds
                &&& plan.places(*old(current) as nat)
                &&& *final(current) == *old(current) + dataset_len(*ds)
            },
            (Err(e), Some(kind)) => e@ == kind,
            _ => false,
        },
{
    let chunk_sizes: Vec<usize> = plan_storage(ds)?;
    let attrs: Vec<ResolvedAttr<'a>> = resolve_attrs(ds.attrs.as_slice());
    proof {
        lemma_resolved_pairs(ds.attrs@, attrs@);
    }
    let chunked: bool = ds.chunked().is_some();
    let oh_addr: usize = *current;
    let base_size: usize = compute_oh_size(ds.shape.len(), ds.elem_type, &attrs, chunked);
    let oh_size: usize = if ds.filter.is_some() {
        base_size + 40
    } else {
        base_size
    };
    let after: usize = oh_addr + oh_size;
    let mut btree_addr: usize = 0;
    let mut chunk_addrs: Vec<usize> = Vec::new();
    let mut data_addr: usize = after;
    if chunked {
        let nodes: usize = plan_index(ds, &chunk_sizes);
        let ghost room = chunk_node_room(ds.shape@.len());
        proof {
            assert(room <= nodes * room && (nodes - 1) * room == nodes * room - room && nodes
                * room >= 0) by (nonlinear_arith)
                requires
                    nodes >= 1,
                    room >= 0,
            ;
        }
        let size: usize = chunk_node_size(ds.shape.len());
        btree_addr = after + (nodes - 1) * size;
        data_addr = after + nodes * size;
        *current = data_addr;
        chunk_addrs = plan_chunks(ds, &chunk_sizes, current);
    } else {
        *current = data_addr + pad8(ds.data_len());
    }
    Ok(
        DatasetPlan { desc: ds, oh_addr, oh_size, btree_addr, data_addr, chunk_sizes, chunk_addrs },
    )
}

/// Reserve space for datasets, one behind the other.
fn plan_datasets<'a>(datasets: &'a [DatasetDesc], current: &mut usize) -> (r: Result<
    Vec<DatasetPlan<'a>>,
    OxiH5Error,
>)
    requires
        *old(current) + datasets_len(datasets@) <= usize::MAX,
    ensures
        match (r, first_storage_error(datasets@)) {
            (Ok(plans), None) => {
                &&& plans@.len() == datasets@.len()
                &&& forall|k: int|
                    0 <= k < plans@.len() ==> (#[trigger] plans@[k]).desc == datasets@[k]
                &&& forall|k: int|
                    0 <= k < plans@.len() ==> (#[trigger] plans@[k]).places(
                        (*old(current) + datasets_len(datasets@.take(k))) as nat,
                    )
                &&& *final(current) == *old(current) + datasets_len(datasets@)
            },
            (Err(e), Some(kind)) => e@ == kind,
            _ => false,
        },
{
    let ghost all = datasets@;
    let ghost first = *current as nat;
    let mut plans: Vec<DatasetPlan<'a>> = Vec::new();
    let n: usize = datasets.len();
    proof {
        assert(all.take(0) =~= Seq::<DatasetDesc>::empty());
    }
    for i in 0..n
        invariant
            n == datasets@.len(),
            all == datasets@,
            first + datasets_len(all) <= usize::MAX,
            first_storage_error(all.take(i as int)) is None,
            *current == first + datasets_len(all.take(i as int)),
            plans@.len() == i,
            forall|k: int| 0 <= k < i ==> (#[trigger] plans@[k]).desc == datasets@[k],
            forall|k: int|
                0 <= k < i ==> (#[trigger] plans@[k]).places(
                    (first + datasets_len(all.take(k))) as nat,
                ),
    {
        proof {
            lemma_datasets_len(all, i as int);
            lemma_first_storage_error(all, i + 1);
            assert(all.take(i + 1).drop_last() =~= all.take(i as int));
        }
        let plan: DatasetPlan<'a> = plan_dataset(&datasets[i], current)?;
        plans.push(plan);
    }
    proof {
        assert(all.take(n as int) =~= all);
    }
    Ok(plans)
}

/// Reserve space for a group and everything in it.
///
/// The root group is placed by this function like any other.
pub fn plan_group<'a>(node: &'a GroupNode, current: &mut usize) -> (r: Result<
    GroupPlan<'a>,
    OxiH5Error,
>)
    requires
        *old(current) + group_len(node@) <= usize::MAX,
    ensures
        match (r, layout_error(node@)) {
            (Ok(plan), None) => {
                &&& plan.node == node
                &&& plan.places(*old(current) as nat)
                &&& *final(current) == *old(current) + group_len(node@)
            },
            (Err(e), Some(kind)) => e@ == kind,
            _ => false,
        },
    decreases node,
{
    let ghost m = node@;
    let ghost at = *current as nat;
    proof {
        lemma_group_model(*node);
    }
    let attrs: Vec<ResolvedAttr<'a>> = resolve_attrs(node.attrs.as_slice());
    proof {
        lemma_resolved_pairs(node.attrs@, attrs@);
    }
    let oh_addr: usize = *current;
    let oh_size: usize = compute_group_oh_size(&attrs);
    *current = oh_addr + oh_size;
    let links: Vec<Link<'a>> = sorted_links(node.datasets.as_slice(), node.groups.as_slice());
    proof {
        assert(m.groups == views(node.groups@));
        assert(views(links@) == links_of(m));
        lemma_in_order_len(declared_links(m.datasets, m.groups));
        assert(links@.len() == m.datasets.len() + m.groups.len());
    }
    let sym: SymPlan = plan_sym_table(&links, current)?;
    let ghost first = datasets_place(m, at);
    let ghost second = first + datasets_len(m.datasets);
    proof {
        assert(*current == first);
        assert(at + group_len(m) == second + groups_len(m.groups, m.groups.len()));
    }
    let datasets: Vec<DatasetPlan<'a>> = plan_datasets(node.datasets.as_slice(), current)?;
    let mut groups: Vec<GroupPlan<'a>> = Vec::new();
    let count: usize = node.groups.len();
    for i in 0..count
        invariant
            count == node.groups@.len(),
            m.groups == views(node.groups@),
            layout_error(node@) == first_layout_error(m.groups, m.groups.len()),
            second + groups_len(m.groups, m.groups.len()) <= usize::MAX,
            first_layout_error(m.groups, i as nat) is None,
            *current == second + groups_len(m.groups, i as nat),
            groups@.len() == i,
            forall|k: int| 0 <= k < i ==> (#[trigger] groups@[k]).node == node.groups@[k],
            forall|k: int|
                0 <= k < i ==> (#[trigger] groups@[k]).places(
                    second + groups_len(m.groups, k as nat),
                ),
        decreases count - i,
    {
        proof {
            lemma_groups_len(m.groups, i as nat, m.groups.len());
            lemma_first_layout_error(m.groups, (i + 1) as nat, m.groups.len());
            assert(m.groups[i as int] == node.groups@[i as int]@);
        }
        let plan: GroupPlan<'a> = plan_group(&node.groups[i], current)?;
        groups.push(plan);
    }
    let plan = GroupPlan { node, oh_addr, oh_size, sym, links, datasets, groups };
    assert(plan.places(at));
    Ok(plan)
}

/// The path of an object of that name in the group at `prefix`.
pub open spec fn child_path(prefix: Seq<char>, name: Seq<char>) -> Seq<char> {
    if prefix.len() == 0 {
        name
    } else {
        prefix + seq!['/'] + name
    }
}

/// The path of an object of that name in the group at `prefix`.
fn path_below(prefix: &str, name: &str) -> (r: String)
    ensures
        r@ == child_path(prefix@, name@),
{
    if prefix.unicode_len() == 0 {
        name.to_string()
    } else {
        proof {
            reveal_strlit("/");
            assert("/"@ =~= seq!['/']);
        }
        let mut path: String = prefix.to_string();
        path.append("/");
        path.append(name);
        path
    }
}

/// `map` with the addresses of the first `n` datasets of a group placed at `at`.
pub open spec fn with_datasets(
    map: Map<Seq<char>, u64>,
    m: GroupModel,
    at: nat,
    prefix: Seq<char>,
    n: nat,
) -> Map<Seq<char>, u64>
    decreases n,
{
    if n == 0 {
        map
    } else {
        with_datasets(map, m, at, prefix, (n - 1) as nat).insert(
            child_path(prefix, m.datasets[n - 1].name@),
            dataset_place(m, at, n - 1) as u64,
        )
    }
}

/// `map` with the addresses of a group placed at `at`, its datasets, and everything
/// in its sub-groups, each under its path.
pub open spec fn with_addresses(
    map: Map<Seq<char>, u64>,
    m: GroupModel,
    at: nat,
    prefix: Seq<char>,
) -> Map<Seq<char>, u64>
    decreases m, m.groups.len() + 1,
{
    with_groups(
        with_datasets(map.insert(prefix, at as u64), m, at, prefix, m.datasets.len()),
        m,
        at,
        prefix,
        m.groups.len(),
    )
}

/// `map` with the addresses of everything in the first `n` sub-groups.
pub open spec fn with_groups(
    map: Map<Seq<char>, u64>,
    m: GroupModel,
    at: nat,
    prefix: Seq<char>,
    n: nat,
) -> Map<Seq<char>, u64>
    decreases m, n,
{
    if n == 0 || n > m.groups.len() {
        map
    } else {
        with_addresses(
            with_groups(map, m, at, prefix, (n - 1) as nat),
            m.groups[n - 1],
            group_place(m, at, n - 1),
            child_path(prefix, m.groups[n - 1].name),
        )
    }
}

impl<'a> GroupPlan<'a> {
    /// Record the address of every object of this group under its path; the root
    /// group has the empty path.
    pub fn collect_addresses(&self, prefix: &str, map: &mut AddressMap)
        requires
            self.places(self.oh_addr as nat),
        ensures
            final(map)@ == with_addresses(
                old(map)@,
                self.node@,
                self.oh_addr as nat,
                prefix@,
            ),
        decreases self,
    {
        let ghost m = self.node@;
        let ghost at = self.oh_addr as nat;
        proof {
            lemma_group_model(*self.node);
        }
        map.insert(prefix.to_string(), self.oh_addr as u64);
        let ghost start = map@;
        let n: usize = self.datasets.len();
        for i in 0..n
            invariant
                n == self.datasets@.len(),
                self.places(at),
                m == self.node@,
                m.datasets == self.node.datasets@,
                map@ == with_datasets(start, m, at, prefix@, i as nat),
        {
            let ds = &self.datasets[i];
            assert(ds.places(dataset_place(m, at, i as int)));
            map.insert(path_below(prefix, ds.desc.name.as_str()), ds.oh_addr as u64);
        }
        let ghost start = map@;
        let count: usize = self.groups.len();
        proof {
            assert forall|k: int| 0 <= k < count implies (#[trigger] self.groups@[k]).node@
                == m.groups[k] by {
                assert(m.groups[k] == self.node.groups@[k]@);
            }
        }
        for i in 0..count
            invariant
                count == self.groups@.len(),
                count == m.groups.len(),
                forall|k: int|
                    0 <= k < count ==> (#[trigger] self.groups@[k]).node@ == m.groups[k],
                forall|k: int|
                    0 <= k < count ==> (#[trigger] self.groups@[k]).places(group_place(m, at, k)),
                map@ == with_groups(start, m, at, prefix@, i as nat),
            decreases count - i,
        {
            let grp = &self.groups[i];
            proof {
                assert(grp.places(group_place(m, at, i as int)));
                assert(grp.oh_addr == group_place(m, at, i as int));
                assert(m.groups[i as int] == grp.node@);
                lemma_group_model(*grp.node);
            }
            grp.collect_addresses(&path_below(prefix, grp.node.name.as_str()), map);
        }
    }
}

/// The objects that the strings of a dataset are stored as.
pub open spec fn stored_strings(ds: DatasetDesc) -> Seq<Seq<u8>> {
    match ds.vlen_strings {
        Some(strings) => Seq::new(
            strings@.len(),
            |i: int| encode_utf8(strings@[i]@).push(0u8),
        ),
        None => Seq::empty(),
    }
}

/// The objects that the strings of datasets are stored as.
pub open spec fn datasets_strings(datasets: Seq<DatasetDesc>) -> Seq<Seq<u8>>
    decreases datasets.len(),
{
    if datasets.len() == 0 {
        Seq::empty()
    } else {
        datasets_strings(datasets.drop_last()) + stored_strings(datasets.last())
    }
}

/// The objects that the strings of a group are stored as: those of its datasets, then
/// those of its sub-groups.
pub open spec fn group_strings(m: GroupModel) -> Seq<Seq<u8>>
    decreases m, m.groups.len() + 1,
{
    datasets_strings(m.datasets) + groups_strings(m.groups, m.groups.len())
}

/// The objects that the strings of the first `n` groups are stored as.
pub open spec fn groups_strings(groups: Seq<GroupModel>, n: nat) -> Seq<Seq<u8>>
    decreases groups, n,
{
    if n == 0 || n > groups.len() {
        Seq::empty()
    } else {
        groups_strings(groups, (n - 1) as nat) + group_strings(groups[n - 1])
    }
}

fn register_strings(ds: &DatasetDesc, gcol: &mut GlobalHeapWriter)
    ensures
        final(gcol)@ == old(gcol)@ + stored_strings(*ds),
{
    let ghost before = gcol@;
    let ghost all = stored_strings(*ds);
    match &ds.vlen_strings {
        None => {
            assert(before + all =~= before);
        },
        Some(strings) => {
            assert(before + all.take(0) =~= before);
            for i in 0..strings.len()
                invariant
                    ds.vlen_strings == Some(*strings),
                    all == stored_strings(*ds),
                    gcol@ == before + all.take(i as int),
            {
                gcol.write_string(strings[i].as_str());
                assert(before + all.take(i + 1) =~= (before + all.take(i as int)).push(
                    all[i as int],
                ));
            }
            assert(all.take(strings@.len() as int) =~= all);
        },
    }
}

impl GroupNode {
    /// Store every string of this group's datasets, and of those below it, in the
    /// file's one global heap collection.
    pub fn register_vlen_strings(&self, gcol: &mut GlobalHeapWriter)
        ensures
            final(gcol)@ == old(gcol)@ + group_strings(self@),
        decreases self,
    {
        let ghost m = self@;
        let ghost before = gcol@;
        proof {
            lemma_group_model(*self);
            assert(m.datasets.take(0) =~= Seq::<DatasetDesc>::empty());
            assert(before + Seq::<Seq<u8>>::empty() =~= before);
        }
        let n: usize = self.datasets.len();
        for i in 0..n
            invariant
                n == self.datasets@.len(),
                m.datasets == self.datasets@,
                gcol@ == before + datasets_strings(m.datasets.take(i as int)),
        {
            proof {
                assert(m.datasets.take(i + 1).drop_last() =~= m.datasets.take(i as int));
            }
            register_strings(&self.datasets[i], gcol);
            proof {
                assert(gcol@ =~= before + datasets_strings(m.datasets.take(i + 1)));
            }
        }
        let ghost middle = gcol@;
        proof {
            assert(m.datasets.take(n as int) =~= m.datasets);
            assert(middle + Seq::<Seq<u8>>::empty() =~= middle);
        }
        let count: usize = self.groups.len();
        for i in 0..count
            invariant
                count == self.groups@.len(),
                m.groups == views(self.groups@),
                gcol@ == middle + groups_strings(m.groups, i as nat),
            decreases count - i,
        {
            self.groups[i].register_vlen_strings(gcol);
            proof {
                assert(m.groups[i as int] == self.groups@[i as int]@);
                assert(gcol@ =~= middle + groups_strings(m.groups, (i + 1) as nat));
            }
        }
        proof {
            assert(gcol@ =~= before + group_strings(m));
        }
    }
}

} // verus!
