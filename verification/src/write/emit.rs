//! The second pass of writing a file: every byte, in the order of the addresses.

use vstd::prelude::*;
use vstd::string::*;
use vstd::utf8::encode_utf8;
use crate::bytes::{lemma_le_bytes_len, push_all, push_le, push_zeros};
use crate::chunk_record::ChunkRecord;
use crate::dtype::views;
use crate::error::{outcome, text, ErrorKind, OxiH5Error};
use crate::global_heap_writer::{
    collection_image, law_size_field_is_length, lemma_collection_size, GlobalHeapWriter,
};
use crate::values::vlen_ref_image;
use crate::write::attr::{
    addresses_of, check_size, fill_obj_refs, filled, named_targets, padded, push_padded,
    resolve_attrs, resolved_model, resolves, AddressMap, AttrDesc, AttrKind, AttrModel,
    ResolvedAttr,
};
use crate::write::chunked::{chunk_index_bytes, chunk_index_image};
use crate::write::format::{
    heap_header_bytes, heap_header_image, key_values, node_entries, snod_bytes, snods_image,
    superblock_bytes, superblock_image, SymbolEntry, MAX_LINKS, ROOT_OH_ADDR,
};
use crate::write::group_tree::{group_tree_bytes, group_tree_image};
use crate::write::layout::{
    btree_len, btree_place, data_place, dataset_len, dataset_place, datasets_len, datasets_place,
    declared_pairs, first_layout_error, first_storage_error, group_len, group_place,
    heap_data_place, heap_names, heap_place, in_chunks, index_place, index_start, layout_error,
    lemma_datasets_len, lemma_first_layout_error, lemma_first_storage_error, lemma_groups_len,
    lemma_nodes_len, link_count, node_count, snod_place, snods_len, storage_error,
};
use crate::write::links::{
    declared_links, heap_image, heap_size, heap_used, law_order_adds_no_links, lemma_heap_lens,
    lemma_in_order_len, links_of, name_offset, LinkModel,
    LinkTarget,
};
use crate::write::measure::{measure_file, room_for};
use crate::write::messages::{
    attr_pairs, attrs_len, attrs_wf, dataset_header, dataset_header_bytes, group_header,
    group_header_bytes, law_dataset_header_len, law_group_header_len,
};
use crate::write::plan::{
    datasets_strings, group_strings, groups_strings, plan_group, stored_strings, with_addresses,
    DatasetPlan, GroupPlan,
};
use crate::write::tiles::{
    chunk_count, chunk_records, chunks_fit, chunks_image, chunks_size, lemma_chunks_size,
    lemma_records_rank, lemma_stored_size, list_chunks, plan_grid, store_chunk, Grid,
};
use crate::write::tree::{lemma_group_model, DatasetDesc, GroupModel, GroupNode};

verus! {

/// An attribute value with its object references looked up.
pub open spec fn settled(kind: AttrKind, map: Map<Seq<char>, u64>) -> Option<AttrModel> {
    match named_targets(kind) {
        None => Some(resolved_model(kind)),
        Some(names) => match addresses_of(names, map) {
            Some(addrs) => Some(AttrModel::ObjRefs(addrs)),
            None => None,
        },
    }
}

/// Attributes with their object references looked up, unless one names nothing.
pub open spec fn settled_pairs(attrs: Seq<AttrDesc>, map: Map<Seq<char>, u64>) -> Result<
    Seq<(Seq<u8>, AttrModel)>,
    ErrorKind,
> {
    if forall|i: int| 0 <= i < attrs.len() ==> settled((#[trigger] attrs[i]).kind, map) is Some {
        Ok(
            Seq::new(
                attrs.len(),
                |i: int| (encode_utf8(attrs[i].name@), settled(attrs[i].kind, map)->0),
            ),
        )
    } else {
        Err(ErrorKind::Format)
    }
}

/// Looking up object references changes no size.
pub proof fn lemma_settled_len(attrs: Seq<AttrDesc>, map: Map<Seq<char>, u64>)
    ensures
        settled_pairs(attrs, map) is Ok ==> attrs_len(settled_pairs(attrs, map)->Ok_0)
            == attrs_len(declared_pairs(attrs)),
    decreases attrs.len(),
{
    if attrs.len() > 0 && settled_pairs(attrs, map) is Ok {
        let front = attrs.drop_last();
        assert forall|i: int| 0 <= i < front.len() implies settled(
            (#[trigger] front[i]).kind,
            map,
        ) is Some by {
            assert(front[i] == attrs[i]);
        }
        lemma_settled_len(front, map);
        let pairs = settled_pairs(attrs, map)->Ok_0;
        assert(pairs.drop_last() =~= settled_pairs(front, map)->Ok_0);
        assert(declared_pairs(attrs).drop_last() =~= declared_pairs(front));
        assert(settled(attrs[attrs.len() - 1].kind, map) is Some);
    }
}

/// Make attributes ready to be written.
fn ready_attrs<'a>(attrs: &'a [AttrDesc], map: &AddressMap) -> (r: Result<
    Vec<ResolvedAttr<'a>>,
    OxiH5Error,
>)
    ensures
        match (r, settled_pairs(attrs@, map@)) {
            (Ok(ready), Ok(pairs)) => attr_pairs(ready@) == pairs && attrs_wf(pairs),
            (Err(e), Err(kind)) => e@ == kind,
            _ => false,
        },
{
    let mut ready: Vec<ResolvedAttr<'a>> = resolve_attrs(attrs);
    let ghost before = ready@;
    proof {
        assert forall|i: int| 0 <= i < attrs@.len() implies filled(
            (#[trigger] before[i]).kind,
            map@,
        ) == settled(attrs@[i].kind, map@) by {
            assert(resolves(attrs@[i], before[i]));
        }
    }
    match fill_obj_refs(&mut ready, map) {
        Err(e) => {
            proof {
                let i = choose|i: int|
                    0 <= i < before.len() && filled((#[trigger] before[i]).kind, map@) is None;
                assert(settled(attrs@[i].kind, map@) is None);
            }
            Err(e)
        },
        Ok(()) => {
            proof {
                assert forall|i: int| 0 <= i < attrs@.len() implies settled(
                    (#[trigger] attrs@[i]).kind,
                    map@,
                ) is Some by {
                    assert(filled(before[i].kind, map@) is Some);
                }
                let pairs = settled_pairs(attrs@, map@)->Ok_0;
                assert forall|i: int| 0 <= i < pairs.len() implies #[trigger] attr_pairs(
                    ready@,
                )[i] == pairs[i] by {
                    assert(resolves(attrs@[i], before[i]));
                    assert(ready@[i].name == before[i].name);
                }
                assert(attr_pairs(ready@) =~= pairs);
                assert forall|i: int| 0 <= i < pairs.len() implies (#[trigger] pairs[i]).1.wf() by {
                    assert(resolves(attrs@[i], before[i]));
                    assert(ready@[i].name == before[i].name);
                }
            }
            Ok(ready)
        },
    }
}

/// References to `n` strings in the collection at `gcol`, where `before` objects come
/// before them. The length of a string counts its zero byte.
pub open spec fn refs_image(strings: Seq<String>, n: nat, gcol: nat, before: nat) -> Seq<u8>
    decreases n,
{
    if n == 0 {
        Seq::empty()
    } else {
        refs_image(strings, (n - 1) as nat, gcol, before) + vlen_ref_image(
            encode_utf8(strings[n - 1]@).len() + 1,
            before + n,
            gcol,
        )
    }
}

/// The elements of a dataset as bytes, where the length of each string fits its
/// field.
pub open spec fn data_image(ds: DatasetDesc, gcol: nat, before: nat) -> Result<
    Seq<u8>,
    ErrorKind,
> {
    match ds.vlen_strings {
        None => Ok(ds.raw@),
        Some(strings) => if forall|i: int|
            0 <= i < strings@.len() ==> encode_utf8((#[trigger] strings@[i])@).len()
                < u32::MAX {
            Ok(refs_image(strings@, strings@.len(), gcol, before))
        } else {
            Err(ErrorKind::Format)
        },
    }
}

/// The chunk index of a dataset placed at `at`.
pub open spec fn index_image(ds: DatasetDesc, at: nat) -> Seq<u8> {
    if in_chunks(ds) {
        chunk_index_image(
            ds.shape@.len(),
            chunk_records(ds, data_place(ds, at)),
            index_start(ds, at),
        )
    } else {
        Seq::empty()
    }
}

/// The elements of a dataset as they are stored.
pub open spec fn elements_image(ds: DatasetDesc, data: Seq<u8>) -> Seq<u8> {
    if in_chunks(ds) {
        chunks_image(ds, data, chunk_count(ds))
    } else if ds.storage is Chunked {
        Seq::empty()
    } else {
        padded(data)
    }
}

/// A dataset placed at `at`: object header, chunk index, elements.
#[verifier::opaque]
pub open spec fn dataset_image(
    ds: DatasetDesc,
    at: nat,
    map: Map<Seq<char>, u64>,
    gcol: nat,
    before: nat,
) -> Result<Seq<u8>, ErrorKind> {
    match settled_pairs(ds.attrs@, map) {
        Err(kind) => Err(kind),
        Ok(pairs) => match dataset_header(
            ds,
            data_place(ds, at),
            index_place(ds, at),
            pairs,
        ) {
            Err(kind) => Err(kind),
            Ok(header) => match data_image(ds, gcol, before) {
                Err(kind) => Err(kind),
                Ok(data) => Ok(header + index_image(ds, at) + elements_image(ds, data)),
            },
        },
    }
}

/// The first `n` datasets of a group placed at `at`.
pub open spec fn datasets_image(
    m: GroupModel,
    at: nat,
    map: Map<Seq<char>, u64>,
    gcol: nat,
    before: nat,
    n: nat,
) -> Result<Seq<u8>, ErrorKind>
    decreases n,
{
    if n == 0 {
        Ok(Seq::empty())
    } else {
        match datasets_image(m, at, map, gcol, before, (n - 1) as nat) {
            Err(kind) => Err(kind),
            Ok(front) => match dataset_image(
                m.datasets[n - 1],
                dataset_place(m, at, n - 1),
                map,
                gcol,
                before + datasets_strings(m.datasets.take(n - 1)).len(),
            ) {
                Err(kind) => Err(kind),
                Ok(last) => Ok(front + last),
            },
        }
    }
}

/// The symbol table entry of a link of a group placed at `at`.
pub open spec fn entry_of(m: GroupModel, at: nat, link: LinkModel, offset: nat) -> SymbolEntry {
    match link.target {
        LinkTarget::Dataset(i) => SymbolEntry {
            name_offset: offset as u64,
            oh_addr: dataset_place(m, at, i as int) as u64,
            group: None,
        },
        LinkTarget::Group(i) => {
            let place = group_place(m, at, i as int);
            SymbolEntry {
                name_offset: offset as u64,
                oh_addr: place as u64,
                group: Some(
                    (
                        btree_place(m.groups[i as int], place) as u64,
                        heap_place(m.groups[i as int], place) as u64,
                    ),
                ),
            }
        },
    }
}

/// The symbol table of a group placed at `at`.
pub open spec fn symbol_entries(m: GroupModel, at: nat) -> Seq<SymbolEntry> {
    Seq::new(
        links_of(m).len(),
        |i: int| entry_of(m, at, links_of(m)[i], name_offset(heap_names(m), i)),
    )
}

/// The greatest name's place in the local heap, for each symbol table node; 0 where there
/// is no name.
pub open spec fn node_keys(names: Seq<Seq<u8>>) -> Seq<nat> {
    Seq::new(node_count(names.len()), |i: int| node_key(names, i))
}

/// The greatest name's place in the local heap, of symbol table node `i`.
pub open spec fn node_key(names: Seq<Seq<u8>>, i: int) -> nat {
    if names.len() == 0 {
        0
    } else if 8 * i + 8 < names.len() {
        name_offset(names, 8 * i + 7)
    } else {
        name_offset(names, names.len() - 1)
    }
}

/// The B-tree, the local heap and the symbol table nodes of a group placed at
/// `at`.
#[verifier::opaque]
pub open spec fn table_image(m: GroupModel, at: nat) -> Seq<u8> {
    group_tree_image(
        btree_place(m, at),
        snod_place(m, at),
        node_keys(heap_names(m)),
    ) + heap_header_image(
        heap_data_place(m, at),
        heap_size(heap_names(m)),
        heap_used(heap_names(m)).len(),
    ) + heap_image(heap_names(m)) + snods_image(
        symbol_entries(m, at),
        node_count(heap_names(m).len()),
    )
}

/// A group placed at `at`, with everything in it.
pub open spec fn group_image(
    m: GroupModel,
    at: nat,
    map: Map<Seq<char>, u64>,
    gcol: nat,
    before: nat,
) -> Result<Seq<u8>, ErrorKind>
    decreases m, m.groups.len() + 1,
{
    match settled_pairs(m.attrs, map) {
        Err(kind) => Err(kind),
        Ok(pairs) => match group_header(btree_place(m, at), heap_place(m, at), pairs) {
            Err(kind) => Err(kind),
            Ok(header) => match datasets_image(m, at, map, gcol, before, m.datasets.len()) {
                Err(kind) => Err(kind),
                Ok(datasets) => match groups_image(m, at, map, gcol, before, m.groups.len()) {
                    Err(kind) => Err(kind),
                    Ok(groups) => Ok(header + table_image(m, at) + datasets + groups),
                },
            },
        },
    }
}

/// The first `n` sub-groups of a group placed at `at`.
pub open spec fn groups_image(
    m: GroupModel,
    at: nat,
    map: Map<Seq<char>, u64>,
    gcol: nat,
    before: nat,
    n: nat,
) -> Result<Seq<u8>, ErrorKind>
    decreases m, n,
{
    if n == 0 || n > m.groups.len() {
        Ok(Seq::empty())
    } else {
        match groups_image(m, at, map, gcol, before, (n - 1) as nat) {
            Err(kind) => Err(kind),
            Ok(front) => match group_image(
                m.groups[n - 1],
                group_place(m, at, n - 1),
                map,
                gcol,
                before + datasets_strings(m.datasets).len() + groups_strings(
                    m.groups,
                    (n - 1) as nat,
                ).len(),
            ) {
                Err(kind) => Err(kind),
                Ok(last) => Ok(front + last),
            },
        }
    }
}

/// The address of every object of a file, under its path.
pub open spec fn file_addresses(root: GroupModel) -> Map<Seq<char>, u64> {
    with_addresses(Map::empty(), root, 96, Seq::empty())
}

/// The end of the groups of a file, where the collection of its strings starts.
pub open spec fn groups_end(root: GroupModel) -> nat {
    96 + group_len(root)
}

/// The collection of a file's strings, if there are any.
pub open spec fn strings_image(root: GroupModel) -> Seq<u8> {
    if group_strings(root).len() == 0 {
        Seq::empty()
    } else {
        collection_image(group_strings(root))
    }
}

/// A file with that root group: superblock, groups, strings.
#[verifier::opaque]
pub open spec fn file_image(root: GroupModel) -> Result<Seq<u8>, ErrorKind> {
    match layout_error(root) {
        Some(kind) => Err(kind),
        None => match group_image(root, 96, file_addresses(root), groups_end(root), 0) {
            Err(kind) => Err(kind),
            Ok(groups) => Ok(
                superblock_image(
                    btree_place(root, 96),
                    heap_place(root, 96),
                    groups_end(root) + strings_image(root).len(),
                ) + groups + strings_image(root),
            ),
        },
    }
}

/// A link leads to a dataset or a sub-group that is there, of the link's name.
pub proof fn lemma_link_target(m: GroupModel, j: int)
    requires
        0 <= j < links_of(m).len(),
        link_count(m) <= MAX_LINKS,
    ensures
        links_of(m).len() == m.datasets.len() + m.groups.len(),
        match links_of(m)[j].target {
            LinkTarget::Dataset(i) => i < m.datasets.len() && links_of(m)[j].name == encode_utf8(
                m.datasets[i as int].name@,
            ),
            LinkTarget::Group(i) => i < m.groups.len() && links_of(m)[j].name == encode_utf8(
                m.groups[i as int].name,
            ),
        },
{
    let all = declared_links(m.datasets, m.groups);
    lemma_in_order_len(all);
    law_order_adds_no_links(all, j);
}

/// Append the references of a dataset of strings.
fn emit_refs(out: &mut Vec<u8>, ds: &DatasetDesc, strings: &Vec<String>, gcol: u64, before: usize)
    -> (r: Result<(), OxiH5Error>)
    requires
        ds.vlen_strings == Some(*strings),
        before + strings@.len() <= usize::MAX,
    ensures
        match data_image(*ds, gcol as nat, before as nat) {
            Ok(data) => r is Ok && final(out)@ == old(out)@ + data,
            Err(kind) => r is Err && r->Err_0@ == kind,
        },
{
    let ghost start = out@;
    proof {
        assert(start + Seq::<u8>::empty() =~= start);
    }
    for i in 0..strings.len()
        invariant
            ds.vlen_strings == Some(*strings),
            before + strings@.len() <= usize::MAX,
            forall|k: int|
                0 <= k < i ==> encode_utf8((#[trigger] strings@[k])@).len() < u32::MAX,
            out@ == start + refs_image(strings@, i as nat, gcol as nat, before as nat),
    {
        let length: usize = strings[i].as_str().as_bytes().len();
        if length >= 0xffff_ffff {
            return Err(
                OxiH5Error::Format(
                    text(
                        &[
                            "dataset '",
                            ds.name.as_str(),
                            "': a string is too long for its on-disk field",
                        ],
                    ),
                ),
            );
        }
        push_le(out, length as u64 + 1, 4);
        push_le(out, (before + i + 1) as u64, 2);
        push_zeros(out, 2);
        push_le(out, gcol, 8);
        proof {
            assert(out@ =~= start + refs_image(
                strings@,
                (i + 1) as nat,
                gcol as nat,
                before as nat,
            ));
        }
    }
    Ok(())
}

/// The elements of a dataset as bytes.
fn data_bytes(ds: &DatasetDesc, gcol: u64, before: usize) -> (r: Result<Vec<u8>, OxiH5Error>)
    requires
        before + stored_strings(*ds).len() <= usize::MAX,
    ensures
        outcome(r) == data_image(*ds, gcol as nat, before as nat),
{
    let mut data: Vec<u8> = Vec::new();
    match &ds.vlen_strings {
        None => {
            push_all(&mut data, &ds.raw);
            assert(data@ =~= ds.raw@);
        },
        Some(strings) => {
            emit_refs(&mut data, ds, strings, gcol, before)?;
            assert(data@ =~= data_image(*ds, gcol as nat, before as nat)->Ok_0);
        },
    }
    Ok(data)
}

pub proof fn lemma_data_len(ds: DatasetDesc, gcol: nat, before: nat)
    ensures
        data_image(ds, gcol, before) is Ok ==> data_image(ds, gcol, before)->Ok_0.len()
            == ds.data_size(),
{
    if let Some(strings) = ds.vlen_strings {
        lemma_refs_len(strings@, strings@.len(), gcol, before);
    }
}

pub proof fn lemma_refs_len(strings: Seq<String>, n: nat, gcol: nat, before: nat)
    ensures
        refs_image(strings, n, gcol, before).len() == n * 16,
    decreases n,
{
    if n > 0 {
        lemma_refs_len(strings, (n - 1) as nat, gcol, before);
        lemma_le_bytes_len(encode_utf8(strings[n - 1]@).len() + 1, 4);
        lemma_le_bytes_len(before + n, 2);
        lemma_le_bytes_len(gcol, 8);
    }
}

/// Append a dataset at its place.
fn emit_dataset<'a>(
    out: &mut Vec<u8>,
    plan: &DatasetPlan<'a>,
    map: &AddressMap,
    gcol: u64,
    before: usize,
) -> (r: Result<(), OxiH5Error>)
    requires
        plan.places(plan.oh_addr as nat),
        plan.oh_addr + dataset_len(*plan.desc) <= usize::MAX,
        storage_error(*plan.desc) is None,
        before + stored_strings(*plan.desc).len() <= usize::MAX,
    ensures
        match dataset_image(
            *plan.desc,
            plan.oh_addr as nat,
            map@,
            gcol as nat,
            before as nat,
        ) {
            Ok(image) => r is Ok && final(out)@ == old(out)@ + image,
            Err(kind) => r is Err && r->Err_0@ == kind,
        },
{
    let ghost start = out@;
    proof {
        reveal(dataset_image);
        reveal(storage_error);
    }
    let ds = plan.desc;
    let attrs: Vec<ResolvedAttr<'a>> = ready_attrs(ds.attrs.as_slice(), map)?;
    proof {
        lemma_settled_len(ds.attrs@, map@);
        law_dataset_header_len(
            *ds,
            plan.data_addr as nat,
            plan.btree_addr as nat,
            attr_pairs(attrs@),
        );
    }
    let header: Vec<u8> = dataset_header_bytes(
        ds,
        plan.data_addr as u64,
        plan.btree_addr as u64,
        &attrs,
    )?;
    check_size("dataset object header", header.len(), plan.oh_size)?;
    let data: Vec<u8> = data_bytes(ds, gcol, before)?;
    proof {
        lemma_data_len(*ds, gcol as nat, before as nat);
    }
    push_all(out, &header);
    if ds.chunked().is_some() {
        emit_chunks(out, plan, &data)?;
    } else {
        push_padded(out, &data);
    }
    proof {
        assert(out@ =~= start + (header@ + index_image(*ds, plan.oh_addr as nat)
            + elements_image(*ds, data@)));
    }
    Ok(())
}

/// Append the chunk index and the chunks of a dataset with these elements.
fn emit_chunks<'a>(out: &mut Vec<u8>, plan: &DatasetPlan<'a>, data: &[u8]) -> (r: Result<
    (),
    OxiH5Error,
>)
    requires
        plan.places(plan.oh_addr as nat),
        plan.oh_addr + dataset_len(*plan.desc) <= usize::MAX,
        in_chunks(*plan.desc),
        plan.desc.vlen_strings is None ==> data@ == plan.desc.raw@,
    ensures
        r is Ok,
        final(out)@ == old(out)@ + index_image(*plan.desc, plan.oh_addr as nat) + elements_image(
            *plan.desc,
            data@,
        ),
{
    let ds = plan.desc;
    let ghost start = out@;
    proof {
        reveal(storage_error);
    }
    let grid: Grid = plan_grid(ds)?;
    let records: Vec<ChunkRecord> = list_chunks(
        ds,
        &grid,
        &plan.chunk_sizes,
        &plan.chunk_addrs,
        Ghost(plan.data_addr as nat),
    );
    proof {
        lemma_records_rank(*ds, plan.data_addr as nat);
        assert(views(records@).len() == records@.len());
    }
    let index: Vec<u8> = chunk_index_bytes(
        ds.shape.len(),
        &records,
        (plan.oh_addr + plan.oh_size) as u64,
    );
    push_all(out, &index);
    let ghost head = out@;
    proof {
        assert(head =~= head + chunks_image(*ds, data@, 0));
    }
    for k in 0..grid.count
        invariant
            grid.of(*ds),
            chunks_fit(*ds),
            chunks_size(*ds, chunk_count(*ds)) <= usize::MAX,
            ds.vlen_strings is None ==> data@ == ds.raw@,
            out@ == head + chunks_image(*ds, data@, k as nat),
    {
        proof {
            lemma_stored_size(*ds, data@, k as int);
        }
        let stored: Vec<u8> = store_chunk(ds, &grid, data, k)?;
        let ghost before = out@;
        proof {
            lemma_chunks_size(*ds, (k + 1) as nat, chunk_count(*ds));
        }
        push_padded(out, &stored);
        proof {
            assert(out@ =~= head + chunks_image(*ds, data@, (k + 1) as nat));
        }
    }
    proof {
        assert(out@ =~= start + index_image(*ds, plan.oh_addr as nat) + elements_image(*ds, data@));
    }
    Ok(())
}

/// The symbol table entries of a group.
fn plan_entries<'a>(plan: &GroupPlan<'a>) -> (r: Vec<SymbolEntry>)
    requires
        plan.places(plan.oh_addr as nat),
        layout_error(plan.node@) is None,
    ensures
        r@ == symbol_entries(plan.node@, plan.oh_addr as nat),
{
    let ghost m = plan.node@;
    let ghost at = plan.oh_addr as nat;
    proof {
        lemma_group_model(*plan.node);
        lemma_in_order_len(declared_links(m.datasets, m.groups));
    }
    let mut entries: Vec<SymbolEntry> = Vec::new();
    let n: usize = plan.links.len();
    for i in 0..n
        invariant
            m == plan.node@,
            m.datasets == plan.node.datasets@,
            m.groups == views(plan.node.groups@),
            plan.places(at),
            link_count(m) <= MAX_LINKS,
            n == plan.links@.len(),
            n == links_of(m).len(),
            entries@.len() == i,
            forall|k: int| 0 <= k < i ==> #[trigger] entries@[k] == symbol_entries(m, at)[k],
    {
        let offset: u64 = plan.sym.heap.name_offsets[i];
        proof {
            lemma_link_target(m, i as int);
            assert(views(plan.links@)[i as int] == links_of(m)[i as int]);
            assert(offset == name_offset(heap_names(m), i as int));
        }
        match plan.links[i].target {
            LinkTarget::Dataset(k) => {
                assert(plan.datasets@[k as int].places(dataset_place(m, at, k as int)));
                entries.push(
                    SymbolEntry {
                        name_offset: offset,
                        oh_addr: plan.datasets[k].oh_addr as u64,
                        group: None,
                    },
                );
            },
            LinkTarget::Group(k) => {
                let grp = &plan.groups[k];
                proof {
                    assert(grp.places(group_place(m, at, k as int)));
                    assert(m.groups[k as int] == grp.node@);
                }
                entries.push(
                    SymbolEntry {
                        name_offset: offset,
                        oh_addr: grp.oh_addr as u64,
                        group: Some((grp.sym.btree_addr as u64, grp.sym.heap_hdr_addr as u64)),
                    },
                );
            },
        }
    }
    proof {
        assert(entries@ =~= symbol_entries(m, at));
    }
    entries
}

/// The greatest names' places of a group's symbol table nodes.
fn plan_keys(offsets: &[u64], Ghost(names): Ghost<Seq<Seq<u8>>>) -> (r: Vec<u64>)
    requires
        offsets@.len() == names.len(),
        offsets@.len() <= MAX_LINKS,
        forall|i: int| 0 <= i < names.len() ==> #[trigger] offsets@[i] == name_offset(names, i),
    ensures
        key_values(r@) == node_keys(names),
        r@.len() == node_count(names.len()),
{
    let n: usize = offsets.len();
    let mut keys: Vec<u64> = Vec::new();
    if n == 0 {
        keys.push(0);
        proof {
            assert(key_values(keys@) =~= node_keys(names));
        }
        return keys;
    }
    let count: usize = (n + 7) / 8;
    for i in 0..count
        invariant
            n == offsets@.len(),
            0 < n == names.len(),
            n <= MAX_LINKS,
            count == (n + 7) / 8,
            forall|k: int| 0 <= k < names.len() ==> #[trigger] offsets@[k] == name_offset(names, k),
            keys@.len() == i,
            forall|k: int| 0 <= k < i ==> #[trigger] keys@[k] == node_key(names, k),
    {
        if 8 * i + 8 < n {
            keys.push(offsets[8 * i + 7]);
        } else {
            keys.push(offsets[n - 1]);
        }
    }
    proof {
        assert(key_values(keys@) =~= node_keys(names));
    }
    keys
}

/// Append symbol table nodes over these entries.
fn emit_snods(out: &mut Vec<u8>, entries: &[SymbolEntry], count: usize)
    requires
        count == node_count(entries@.len()),
        entries@.len() <= MAX_LINKS,
    ensures
        final(out)@ == old(out)@ + snods_image(entries@, count as nat),
{
    let ghost start = out@;
    let n: usize = entries.len();
    proof {
        assert(start + Seq::<u8>::empty() =~= start);
    }
    for i in 0..count
        invariant
            n == entries@.len(),
            n <= MAX_LINKS,
            count == node_count(n as nat),
            out@ == start + snods_image(entries@, i as nat),
    {
        let end: usize = if 8 * i + 8 < n {
            8 * i + 8
        } else {
            n
        };
        let node = vstd::slice::slice_subrange(entries, 8 * i, end);
        proof {
            assert(node@ =~= node_entries(entries@, i as int));
        }
        push_all(out, &snod_bytes(node));
        proof {
            assert(out@ =~= start + snods_image(entries@, (i + 1) as nat));
        }
    }
}

/// Append the B-tree, the local heap and the symbol table nodes of a group.
fn emit_table<'a>(out: &mut Vec<u8>, plan: &GroupPlan<'a>)
    requires
        plan.places(plan.oh_addr as nat),
        layout_error(plan.node@) is None,
        datasets_place(plan.node@, plan.oh_addr as nat) <= usize::MAX,
    ensures
        final(out)@ == old(out)@ + table_image(plan.node@, plan.oh_addr as nat),
{
    let ghost start = out@;
    let ghost m = plan.node@;
    let sym = &plan.sym;
    proof {
        reveal(table_image);
        lemma_heap_lens(heap_names(m));
        lemma_in_order_len(declared_links(m.datasets, m.groups));
        lemma_nodes_len(link_count(m));
    }
    let keys: Vec<u64> = plan_keys(&sym.heap.name_offsets, Ghost(heap_names(m)));
    proof {
        assert(link_count(m) <= MAX_LINKS);
        assert(heap_names(m).len() == link_count(m));
        assert(sym.btree_addr + btree_len(link_count(m)) <= usize::MAX);
        assert(sym.snod_addr + snods_len(link_count(m)) <= usize::MAX);
    }
    let tree: Vec<u8> = group_tree_bytes(sym.btree_addr as u64, sym.snod_addr as u64, &keys);
    let header: Vec<u8> = heap_header_bytes(
        sym.heap_data_addr,
        sym.heap.data.len(),
        sym.heap.used,
    );
    let entries: Vec<SymbolEntry> = plan_entries(plan);
    push_all(out, &tree);
    push_all(out, &header);
    push_all(out, &sym.heap.data);
    emit_snods(out, &entries, keys.len());
    proof {
        assert(out@ =~= start + (tree@ + header@ + sym.heap.data@ + snods_image(
            entries@,
            keys@.len(),
        )));
    }
}

/// Append the datasets of a group at their places.
#[verifier::spinoff_prover]
#[verifier::rlimit(60)]
fn emit_datasets<'a>(
    out: &mut Vec<u8>,
    plan: &GroupPlan<'a>,
    map: &AddressMap,
    gcol: u64,
    before: usize,
) -> (r: Result<usize, OxiH5Error>)
    requires
        plan.places(plan.oh_addr as nat),
        datasets_place(plan.node@, plan.oh_addr as nat) + datasets_len(plan.node@.datasets)
            <= usize::MAX,
        first_storage_error(plan.node@.datasets) is None,
        before + datasets_strings(plan.node@.datasets).len() <= usize::MAX,
    ensures
        match datasets_image(
            plan.node@,
            plan.oh_addr as nat,
            map@,
            gcol as nat,
            before as nat,
            plan.node@.datasets.len(),
        ) {
            Ok(image) => r is Ok && final(out)@ == old(out)@ + image && r->Ok_0 == before
                + datasets_strings(plan.node@.datasets).len(),
            Err(kind) => r is Err && r->Err_0@ == kind,
        },
{
    let ghost start = out@;
    let ghost m = plan.node@;
    let ghost at = plan.oh_addr as nat;
    let ghost to = gcol as nat;
    let ghost first = before as nat;
    proof {
        lemma_group_model(*plan.node);
        assert(start + Seq::<u8>::empty() =~= start);
        assert(m.datasets.take(0) =~= Seq::<DatasetDesc>::empty());
    }
    let mut seen: usize = before;
    let n: usize = plan.datasets.len();
    for i in 0..n
        invariant
            m == plan.node@,
            at == plan.oh_addr,
            n == plan.datasets@.len(),
            n == m.datasets.len(),
            forall|k: int|
                0 <= k < n ==> *(#[trigger] plan.datasets@[k]).desc == m.datasets[k],
            forall|k: int|
                0 <= k < n ==> (#[trigger] plan.datasets@[k]).places(dataset_place(m, at, k)),
            datasets_place(m, at) + datasets_len(m.datasets) <= usize::MAX,
            first_storage_error(m.datasets) is None,
            before + datasets_strings(m.datasets).len() <= usize::MAX,
            to == gcol,
            first == before,
            seen == before + datasets_strings(m.datasets.take(i as int)).len(),
            datasets_image(m, at, map@, to, first, i as nat) is Ok,
            out@ == start + datasets_image(m, at, map@, to, first, i as nat)->Ok_0,
    {
        let ds = &plan.datasets[i];
        proof {
            assert(ds.places(dataset_place(m, at, i as int)));
            assert(*ds.desc == m.datasets[i as int]);
            lemma_datasets_len(m.datasets, i as int);
            lemma_first_storage_error(m.datasets, i + 1);
            assert(m.datasets.take(i + 1).drop_last() =~= m.datasets.take(i as int));
            lemma_datasets_strings(m.datasets, i + 1);
        }
        let ghost last = dataset_image(
            m.datasets[i as int],
            dataset_place(m, at, i as int),
            map@,
            to,
            seen as nat,
        )->Ok_0;
        match emit_dataset(out, ds, map, gcol, seen) {
            Err(e) => {
                proof {
                    lemma_datasets_fail(m, at, map@, to, first, (i + 1) as nat, n as nat);
                }
                return Err(e);
            },
            Ok(()) => {},
        }
        seen = seen + string_count(ds.desc);
        proof {
            let front = datasets_image(m, at, map@, to, first, i as nat)->Ok_0;
            assert(datasets_image(m, at, map@, to, first, (i + 1) as nat) == Ok::<
                Seq<u8>,
                ErrorKind,
            >(front + last));
            assert(out@ =~= start + (front + last));
        }
    }
    proof {
        assert(m.datasets.take(n as int) =~= m.datasets);
    }
    Ok(seen)
}

/// Append the sub-groups of a group at their places.
#[verifier::spinoff_prover]
#[verifier::rlimit(60)]
fn emit_groups<'a>(
    out: &mut Vec<u8>,
    plan: &GroupPlan<'a>,
    map: &AddressMap,
    gcol: u64,
    before: usize,
    seen: usize,
) -> (r: Result<(), OxiH5Error>)
    requires
        plan.places(plan.oh_addr as nat),
        plan.oh_addr + group_len(plan.node@) <= usize::MAX,
        first_layout_error(plan.node@.groups, plan.node@.groups.len()) is None,
        seen == before + datasets_strings(plan.node@.datasets).len(),
        seen + groups_strings(plan.node@.groups, plan.node@.groups.len()).len() <= usize::MAX,
    ensures
        match groups_image(
            plan.node@,
            plan.oh_addr as nat,
            map@,
            gcol as nat,
            before as nat,
            plan.node@.groups.len(),
        ) {
            Ok(image) => r is Ok && final(out)@ == old(out)@ + image,
            Err(kind) => r is Err && r->Err_0@ == kind,
        },
    decreases plan, 0nat,
{
    let ghost start = out@;
    let ghost m = plan.node@;
    let ghost at = plan.oh_addr as nat;
    let ghost to = gcol as nat;
    let ghost first = before as nat;
    proof {
        lemma_group_model(*plan.node);
        assert(start + Seq::<u8>::empty() =~= start);
        assert forall|k: int| 0 <= k < plan.groups@.len() implies (#[trigger] plan.groups@[k]).node@
            == m.groups[k] by {
            assert(m.groups[k] == plan.node.groups@[k]@);
        }
    }
    let mut past: usize = seen;
    let count: usize = plan.groups.len();
    for i in 0..count
        invariant
            m == plan.node@,
            at == plan.oh_addr,
            count == plan.groups@.len(),
            count == m.groups.len(),
            forall|k: int|
                0 <= k < count ==> (#[trigger] plan.groups@[k]).node@ == m.groups[k],
            forall|k: int|
                0 <= k < count ==> (#[trigger] plan.groups@[k]).places(group_place(m, at, k)),
            group_place(m, at, count as int) <= usize::MAX,
            first_layout_error(m.groups, count as nat) is None,
            seen == before + datasets_strings(m.datasets).len(),
            seen + groups_strings(m.groups, count as nat).len() <= usize::MAX,
            to == gcol,
            first == before,
            past == seen + groups_strings(m.groups, i as nat).len(),
            groups_image(m, at, map@, to, first, i as nat) is Ok,
            out@ == start + groups_image(m, at, map@, to, first, i as nat)->Ok_0,
        decreases count - i,
    {
        let grp = &plan.groups[i];
        proof {
            assert(grp.places(group_place(m, at, i as int)));
            assert(m.groups[i as int] == grp.node@);
            lemma_groups_len(m.groups, i as nat, m.groups.len());
            lemma_first_layout_error(m.groups, (i + 1) as nat, m.groups.len());
            lemma_groups_strings(m.groups, (i + 1) as nat, m.groups.len());
        }
        let ghost last = group_image(
            m.groups[i as int],
            group_place(m, at, i as int),
            map@,
            to,
            past as nat,
        )->Ok_0;
        match emit_group(out, grp, map, gcol, past) {
            Err(e) => {
                proof {
                    lemma_groups_fail(m, at, map@, to, first, (i + 1) as nat, count as nat);
                }
                return Err(e);
            },
            Ok(()) => {},
        }
        past = past + grp.node.vlen_string_count();
        proof {
            let front = groups_image(m, at, map@, to, first, i as nat)->Ok_0;
            assert(groups_image(m, at, map@, to, first, (i + 1) as nat) == Ok::<
                Seq<u8>,
                ErrorKind,
            >(front + last));
            assert(out@ =~= start + (front + last));
        }
    }
    Ok(())
}

/// Append a group at its place, with everything in it.
#[verifier::spinoff_prover]
#[verifier::rlimit(60)]
fn emit_group<'a>(
    out: &mut Vec<u8>,
    plan: &GroupPlan<'a>,
    map: &AddressMap,
    gcol: u64,
    before: usize,
) -> (r: Result<(), OxiH5Error>)
    requires
        plan.places(plan.oh_addr as nat),
        plan.oh_addr + group_len(plan.node@) <= usize::MAX,
        layout_error(plan.node@) is None,
        before + group_strings(plan.node@).len() <= usize::MAX,
    ensures
        match group_image(
            plan.node@,
            plan.oh_addr as nat,
            map@,
            gcol as nat,
            before as nat,
        ) {
            Ok(image) => r is Ok && final(out)@ == old(out)@ + image,
            Err(kind) => r is Err && r->Err_0@ == kind,
        },
    decreases plan, 1nat,
{
    let ghost start = out@;
    let ghost m = plan.node@;
    let ghost at = plan.oh_addr as nat;
    let attrs: Vec<ResolvedAttr<'a>> = group_attrs(plan, map)?;
    let header: Vec<u8> = group_header_bytes(
        plan.sym.btree_addr as u64,
        plan.sym.heap_hdr_addr as u64,
        &attrs,
    )?;
    check_size("group object header", header.len(), plan.oh_size)?;
    push_all(out, &header);
    emit_table(out, plan);
    let seen: usize = emit_datasets(out, plan, map, gcol, before)?;
    emit_groups(out, plan, map, gcol, before, seen)?;
    proof {
        assert(out@ =~= start + group_image(m, at, map@, gcol as nat, before as nat)->Ok_0);
    }
    Ok(())
}

/// The attributes of a group, ready to be written.
fn group_attrs<'a>(plan: &GroupPlan<'a>, map: &AddressMap) -> (r: Result<
    Vec<ResolvedAttr<'a>>,
    OxiH5Error,
>)
    requires
        plan.places(plan.oh_addr as nat),
        plan.oh_addr + group_len(plan.node@) <= usize::MAX,
    ensures
        match (r, settled_pairs(plan.node@.attrs, map@)) {
            (Ok(ready), Ok(pairs)) => {
                &&& attr_pairs(ready@) == pairs
                &&& attrs_wf(pairs)
                &&& attrs_len(pairs) <= usize::MAX
                &&& ({
                    let header = group_header(
                        btree_place(plan.node@, plan.oh_addr as nat),
                        heap_place(plan.node@, plan.oh_addr as nat),
                        pairs,
                    );
                    header is Ok ==> header->Ok_0.len() == plan.oh_size
                })
            },
            (Err(e), Err(kind)) => e@ == kind,
            _ => false,
        },
{
    let ghost m = plan.node@;
    let ghost at = plan.oh_addr as nat;
    let ready: Vec<ResolvedAttr<'a>> = ready_attrs(plan.node.attrs.as_slice(), map)?;
    proof {
        lemma_group_model(*plan.node);
        lemma_settled_len(m.attrs, map@);
        law_group_header_len(btree_place(m, at), heap_place(m, at), attr_pairs(ready@));
    }
    Ok(ready)
}

proof fn lemma_datasets_strings(datasets: Seq<DatasetDesc>, n: int)
    requires
        0 <= n <= datasets.len(),
    ensures
        datasets_strings(datasets.take(n)).len() <= datasets_strings(datasets).len(),
    decreases datasets.len() - n,
{
    if n < datasets.len() {
        lemma_datasets_strings(datasets, n + 1);
        assert(datasets.take(n + 1).drop_last() =~= datasets.take(n));
    } else {
        assert(datasets.take(n) =~= datasets);
    }
}

proof fn lemma_groups_strings(groups: Seq<GroupModel>, k: nat, n: nat)
    requires
        k <= n <= groups.len(),
    ensures
        groups_strings(groups, k).len() <= groups_strings(groups, n).len(),
    decreases n,
{
    if k < n {
        lemma_groups_strings(groups, k, (n - 1) as nat);
    }
}

proof fn lemma_datasets_fail(
    m: GroupModel,
    at: nat,
    map: Map<Seq<char>, u64>,
    gcol: nat,
    before: nat,
    k: nat,
    n: nat,
)
    requires
        k <= n,
        datasets_image(m, at, map, gcol, before, k) is Err,
    ensures
        datasets_image(m, at, map, gcol, before, n) == datasets_image(
            m,
            at,
            map,
            gcol,
            before,
            k,
        ),
    decreases n,
{
    if k < n {
        lemma_datasets_fail(m, at, map, gcol, before, k, (n - 1) as nat);
    }
}

proof fn lemma_groups_fail(
    m: GroupModel,
    at: nat,
    map: Map<Seq<char>, u64>,
    gcol: nat,
    before: nat,
    k: nat,
    n: nat,
)
    requires
        k <= n <= m.groups.len(),
        groups_image(m, at, map, gcol, before, k) is Err,
    ensures
        groups_image(m, at, map, gcol, before, n) == groups_image(m, at, map, gcol, before, k),
    decreases n,
{
    if k < n {
        lemma_groups_fail(m, at, map, gcol, before, k, (n - 1) as nat);
    }
}

fn string_count(ds: &DatasetDesc) -> (r: usize)
    ensures
        r == stored_strings(*ds).len(),
{
    match &ds.vlen_strings {
        None => 0,
        Some(strings) => strings.len(),
    }
}

impl GroupNode {
    /// The number of strings in this group's datasets and in those below it.
    fn vlen_string_count(&self) -> (r: usize)
        requires
            group_strings(self@).len() <= usize::MAX,
        ensures
            r == group_strings(self@).len(),
        decreases self,
    {
        let ghost m = self@;
        proof {
            lemma_group_model(*self);
            assert(m.datasets.take(0) =~= Seq::<DatasetDesc>::empty());
        }
        let mut total: usize = 0;
        let n: usize = self.datasets.len();
        for i in 0..n
            invariant
                n == self.datasets@.len(),
                m.datasets == self.datasets@,
                group_strings(m).len() <= usize::MAX,
                total == datasets_strings(m.datasets.take(i as int)).len(),
        {
            proof {
                assert(m.datasets.take(i + 1).drop_last() =~= m.datasets.take(i as int));
                lemma_datasets_strings(m.datasets, i + 1);
            }
            total = total + string_count(&self.datasets[i]);
        }
        proof {
            assert(m.datasets.take(n as int) =~= m.datasets);
        }
        let count: usize = self.groups.len();
        for i in 0..count
            invariant
                count == self.groups@.len(),
                m.groups == views(self.groups@),
                group_strings(m).len() <= usize::MAX,
                total == datasets_strings(m.datasets).len() + groups_strings(
                    m.groups,
                    i as nat,
                ).len(),
            decreases count - i,
        {
            proof {
                assert(m.groups[i as int] == self.groups@[i as int]@);
                lemma_groups_strings(m.groups, (i + 1) as nat, m.groups.len());
            }
            total = total + self.groups[i].vlen_string_count();
        }
        total
    }
}

/// What comes of writing a file with that root group: a file that no buffer can hold is
/// refused before anything else is looked at.
pub open spec fn written_file(root: GroupModel) -> Result<Seq<u8>, ErrorKind> {
    if room_for(root) > usize::MAX {
        Err(ErrorKind::Format)
    } else {
        file_image(root)
    }
}

/// A file with that root group as bytes.
pub fn build_bytes(root: &GroupNode) -> (r: Result<Vec<u8>, OxiH5Error>)
    ensures
        outcome(r) == written_file(root@),
{
    let ghost m = root@;
    if measure_file(root).is_none() {
        return Err(OxiH5Error::Format("the file is too large".to_string()));
    }
    proof {
        reveal(file_image);
        lemma_collection_size(group_strings(m));
    }
    let mut current: usize = ROOT_OH_ADDR;
    let plan: GroupPlan = plan_group(root, &mut current)?;
    let mut map: AddressMap = AddressMap::new();
    plan.collect_addresses("", &mut map);
    proof {
        reveal_strlit("");
        assert(""@ =~= Seq::<char>::empty());
        assert(map@ == file_addresses(m));
    }
    let mut gcol: GlobalHeapWriter = GlobalHeapWriter::new();
    root.register_vlen_strings(&mut gcol);
    proof {
        assert(gcol@ =~= group_strings(m));
    }
    let mut body: Vec<u8> = Vec::new();
    emit_group(&mut body, &plan, &map, current as u64, 0)?;
    let mut tail: Vec<u8> = Vec::new();
    if !gcol.is_empty() {
        tail = gcol.build();
        proof {
            law_size_field_is_length(group_strings(m));
        }
    }
    proof {
        assert(tail@ =~= strings_image(m));
        assert(body@ =~= group_image(m, 96, map@, groups_end(m), 0)->Ok_0);
    }
    let mut out: Vec<u8> = superblock_bytes(
        plan.sym.btree_addr,
        plan.sym.heap_hdr_addr,
        (current + tail.len()) as u64,
    );
    push_all(&mut out, &body);
    push_all(&mut out, &tail);
    Ok(out)
}

} // verus!
