//! How large a file becomes, before anything is laid out.

use vstd::prelude::*;
use vstd::string::*;
use vstd::utf8::encode_utf8;
use crate::dtype::views;
use crate::global_heap::align8;
use crate::global_heap_writer::{collection_size, entries_image, lemma_entries_step};
use crate::write::attr::{
    attr_body_len, resolved_model, str_array_width, AttrDesc, AttrKind, AttrModel,
};
use crate::write::chunked::{chunk_node_room, index_nodes};
use crate::write::elem::dt_body_size_of;
use crate::write::emit::groups_end;
use crate::write::format::SNOD_SIZE;
use crate::write::group_tree::group_tree_size;
use crate::write::layout::{
    btree_len, dataset_len, dataset_oh_len, datasets_len, declared_pairs, elements_len, group_len,
    groups_len, heap_names, in_chunks, index_len, lemma_nodes_len, link_count, link_names,
    snods_len, storage_error,
};
use crate::write::links::{
    declared_links, heap_size, heap_used, lemma_in_order_len, links_of, sorted_links, Link,
};
use crate::write::messages::{attrs_len, layout_len, msg_len, pipeline_len};
use crate::write::plan::{
    datasets_strings, group_strings, groups_strings, lists_sizes, plan_storage, stored_strings,
};
use crate::write::tiles::{chunks_size, stored_size};
use crate::write::tree::{lemma_group_model, DatasetDesc, GroupModel, GroupNode};

verus! {

/// Whether `size` is `n`, or says that `n` is no `usize`.
pub open spec fn measures(size: Option<usize>, n: int) -> bool {
    match size {
        Some(found) => found == n,
        None => n > usize::MAX,
    }
}

/// `a` and `b` together.
fn plus(a: Option<usize>, b: Option<usize>, Ghost(x): Ghost<int>, Ghost(y): Ghost<int>) -> (r:
    Option<usize>)
    requires
        0 <= x,
        0 <= y,
        measures(a, x),
        measures(b, y),
    ensures
        measures(r, x + y),
{
    match (a, b) {
        (Some(a), Some(b)) => a.checked_add(b),
        _ => None,
    }
}

/// `a` times `b`.
fn times(a: usize, b: usize) -> (r: Option<usize>)
    ensures
        measures(r, a * b),
{
    proof {
        assert(a * b >= 0) by (nonlinear_arith);
    }
    a.checked_mul(b)
}

/// The next multiple of 8.
fn aligned(a: Option<usize>, Ghost(x): Ghost<int>) -> (r: Option<usize>)
    requires
        0 <= x,
        measures(a, x),
    ensures
        measures(r, align8(x)),
{
    match a {
        None => None,
        Some(a) => {
            let over: usize = a % 8;
            if over == 0 {
                Some(a)
            } else {
                a.checked_add(8 - over)
            }
        },
    }
}

/// The size of a message with a body of that size.
fn message_size(body: Option<usize>, Ghost(x): Ghost<nat>) -> (r: Option<usize>)
    requires
        measures(body, x as int),
    ensures
        measures(r, msg_len(x) as int),
{
    let stored: Option<usize> = aligned(body, Ghost(x as int));
    plus(Some(8), stored, Ghost(8), Ghost(align8(x as int)))
}

/// The size of an attribute's message.
fn attr_size(attr: &AttrDesc) -> (r: Option<usize>)
    ensures
        measures(
            r,
            msg_len(
                attr_body_len(encode_utf8(attr.name@), resolved_model(attr.kind)),
            ) as int,
        ),
{
    let ghost kind = resolved_model(attr.kind);
    let name: usize = attr.name.as_str().as_bytes().len();
    let (fixed, data): (usize, Option<usize>) = match &attr.kind {
        AttrKind::FixedStr(s) => (16, Some(s.as_str().as_bytes().len())),
        AttrKind::F64(_) => (32, Some(8)),
        AttrKind::I64(_) => (24, Some(8)),
        AttrKind::I32(_) => (24, Some(4)),
        AttrKind::F64Array(values) => (48, times(values.len(), 8)),
        AttrKind::I64Array(values) => (40, times(values.len(), 8)),
        AttrKind::StrArray(values) => (32, times(values.len(), str_array_width(values))),
        AttrKind::ObjRefsByName(names) => (32, times(names.len(), 8)),
    };
    let ghost size = kind.data_size() as int;
    let ghost body_size = attr_body_len(encode_utf8(attr.name@), kind);
    proof {
        assert(measures(data, size));
        assert(fixed == align8(kind.dtype_size() as int) + align8(kind.dspace_size() as int));
    }
    let named: Option<usize> = plus(Some(name), Some(1), Ghost(name as int), Ghost(1));
    let stored: Option<usize> = aligned(named, Ghost(name + 1));
    let ghost text = align8(name + 1);
    let head: Option<usize> = plus(Some(8), stored, Ghost(8), Ghost(text));
    let front: Option<usize> = plus(head, Some(fixed), Ghost(8 + text), Ghost(fixed as int));
    let body: Option<usize> = plus(front, data, Ghost(8 + text + fixed), Ghost(size));
    proof {
        assert(body_size == 8 + text + fixed + size);
    }
    message_size(body, Ghost(body_size))
}

/// The size of the messages of attributes.
fn attrs_size(attrs: &[AttrDesc]) -> (r: Option<usize>)
    ensures
        measures(r, attrs_len(declared_pairs(attrs@)) as int),
{
    let ghost all = declared_pairs(attrs@);
    let mut total: Option<usize> = Some(0);
    proof {
        assert(all.take(0) =~= Seq::<(Seq<u8>, AttrModel)>::empty());
    }
    for i in 0..attrs.len()
        invariant
            all == declared_pairs(attrs@),
            measures(total, attrs_len(all.take(i as int)) as int),
    {
        let next: Option<usize> = attr_size(&attrs[i]);
        proof {
            assert(all.take(i + 1).drop_last() =~= all.take(i as int));
            assert(all.take(i + 1).last() == all[i as int]);
        }
        total = plus(
            total,
            next,
            Ghost(attrs_len(all.take(i as int)) as int),
            Ghost(msg_len(attr_body_len(all[i as int].0, all[i as int].1)) as int),
        );
    }
    proof {
        assert(all.take(attrs@.len() as int) =~= all);
    }
    total
}

/// The size of a dataset with everything that belongs to it.
fn dataset_size(ds: &DatasetDesc) -> (r: Option<usize>)
    ensures
        measures(r, dataset_len(*ds) as int),
{
    let header: Option<usize> = dataset_header_size(ds);
    let ghost a = dataset_oh_len(*ds) as int;
    let ghost b = index_len(*ds) as int;
    let ghost c = elements_len(*ds) as int;
    if ds.chunked().is_none() {
        let data: Option<usize> = match &ds.vlen_strings {
            Some(strings) => times(strings.len(), 16),
            None => Some(ds.raw.len()),
        };
        let stored: Option<usize> = aligned(data, Ghost(ds.data_size() as int));
        return plus(header, stored, Ghost(a), Ghost(c));
    }
    match plan_storage(ds) {
        Err(_) => header,
        Ok(sizes) => {
            let index: Option<usize> = index_size(ds, &sizes);
            let stored: Option<usize> = chunks_total(ds, &sizes);
            let front: Option<usize> = plus(header, index, Ghost(a), Ghost(b));
            plus(front, stored, Ghost(a + b), Ghost(c))
        },
    }
}

/// The size of a dataset's chunk index.
fn index_size(ds: &DatasetDesc, sizes: &[usize]) -> (r: Option<usize>)
    requires
        in_chunks(*ds),
        lists_sizes(*ds, sizes@),
    ensures
        measures(r, index_len(*ds) as int),
{
    proof {
        reveal(storage_error);
    }
    let nodes: usize = index_nodes(sizes.len());
    let ndims: usize = ds.shape.len();
    let entries: Option<usize> = times(ndims, 520);
    let room: Option<usize> = plus(Some(1576), entries, Ghost(1576), Ghost(ndims * 520));
    let ghost size = chunk_node_room(ndims as nat);
    proof {
        assert(size == 1576 + ndims * 520);
        assert(size <= nodes * size) by (nonlinear_arith)
            requires
                nodes >= 1,
                size >= 0,
        ;
    }
    match room {
        Some(room) => times(nodes, room),
        None => None,
    }
}

/// The size of what is stored of the chunks of a dataset.
fn chunks_total(ds: &DatasetDesc, sizes: &[usize]) -> (r: Option<usize>)
    requires
        in_chunks(*ds),
        lists_sizes(*ds, sizes@),
    ensures
        measures(r, elements_len(*ds) as int),
{
    let mut total: Option<usize> = Some(0);
    for k in 0..sizes.len()
        invariant
            in_chunks(*ds),
            lists_sizes(*ds, sizes@),
            measures(total, chunks_size(*ds, k as nat) as int),
    {
        let ghost before = chunks_size(*ds, k as nat) as int;
        let ghost size = stored_size(*ds, k as int) as int;
        assert(sizes@[k as int] == size);
        let room: Option<usize> = aligned(Some(sizes[k]), Ghost(size));
        total = plus(total, room, Ghost(before), Ghost(align8(size)));
    }
    total
}

/// The size of a dataset's object header.
fn dataset_header_size(ds: &DatasetDesc) -> (r: Option<usize>)
    ensures
        measures(r, dataset_oh_len(*ds) as int),
{
    let ndims: usize = ds.shape.len();
    let ghost n = ndims as nat;
    let chunked: bool = ds.chunked().is_some();
    let space: Option<usize> = plus(Some(8), times(ndims, 16), Ghost(8), Ghost(ndims * 16));
    let space_msg: Option<usize> = message_size(space, Ghost(8 + n * 16));
    let type_size: usize = ds.elem_type.dt_body_size();
    let type_msg: Option<usize> = message_size(
        Some(type_size),
        Ghost(dt_body_size_of(ds.elem_type)),
    );
    let layout: Option<usize> = if chunked {
        plus(Some(15), times(ndims, 4), Ghost(15), Ghost(ndims * 4))
    } else {
        Some(24)
    };
    let layout_msg: Option<usize> = message_size(layout, Ghost(layout_len(n, chunked)));
    let attrs: Option<usize> = attrs_size(&ds.attrs);
    let ghost a = msg_len(8 + n * 16) as int;
    let ghost b = msg_len(dt_body_size_of(ds.elem_type)) as int;
    let ghost c = msg_len(layout_len(n, chunked)) as int;
    let ghost d = attrs_len(declared_pairs(ds.attrs@)) as int;
    // The prefix of the header and the message of the fill value take 32 bytes.
    let one: Option<usize> = plus(Some(32), space_msg, Ghost(32), Ghost(a));
    let two: Option<usize> = plus(one, type_msg, Ghost(32 + a), Ghost(b));
    let three: Option<usize> = plus(two, layout_msg, Ghost(32 + a + b), Ghost(c));
    proof {
        assert(msg_len(8) == 16);
        assert(dataset_oh_len(*ds) == 32 + a + b + c + d + pipeline_len(*ds));
    }
    let four: Option<usize> = plus(three, attrs, Ghost(32 + a + b + c), Ghost(d));
    let filter: Option<usize> = if ds.filter.is_some() {
        Some(40)
    } else {
        Some(0)
    };
    plus(four, filter, Ghost(32 + a + b + c + d), Ghost(pipeline_len(*ds) as int))
}

/// The size of the data segment of a local heap for the names of links.
fn heap_data_size<'a>(links: &[Link<'a>]) -> (r: Option<usize>)
    ensures
        measures(r, heap_size(link_names(views(links@))) as int),
{
    let ghost all = link_names(views(links@));
    let mut used: Option<usize> = Some(8);
    proof {
        assert(all.take(0) =~= Seq::<Seq<u8>>::empty());
    }
    for i in 0..links.len()
        invariant
            all == link_names(views(links@)),
            measures(used, heap_used(all.take(i as int)).len() as int),
    {
        let name: usize = links[i].name.as_bytes().len();
        let named: Option<usize> = plus(Some(name), Some(1), Ghost(name as int), Ghost(1));
        let stored: Option<usize> = aligned(named, Ghost(name + 1));
        proof {
            assert(all.take(i + 1).drop_last() =~= all.take(i as int));
            assert(all.take(i + 1).last() == all[i as int]);
        }
        used = plus(
            used,
            stored,
            Ghost(heap_used(all.take(i as int)).len() as int),
            Ghost(align8(name + 1)),
        );
    }
    proof {
        assert(all.take(links@.len() as int) =~= all);
    }
    let ghost len = heap_used(all).len() as int;
    let wanted: Option<usize> = plus(used, Some(16), Ghost(len), Ghost(16));
    let size: Option<usize> = aligned(wanted, Ghost(len + 16));
    match size {
        Some(n) => if n < 88 {
            Some(88)
        } else {
            Some(n)
        },
        None => None,
    }
}

/// The size of what each group has: the header without attributes, the B-tree, the
/// heap's header and the symbol table nodes.
fn tables_size(count: usize) -> (r: Option<usize>)
    ensures
        measures(r, (72 + btree_len(count as nat) + snods_len(count as nat)) as int),
{
    let nodes: usize = if count == 0 {
        1
    } else {
        count / 8 + (if count % 8 == 0 {
            0usize
        } else {
            1
        })
    };
    proof {
        lemma_nodes_len(count as nat);
    }
    let tree: usize = group_tree_size(nodes);
    let front: Option<usize> = plus(Some(72), Some(tree), Ghost(72), Ghost(tree as int));
    plus(front, times(nodes, SNOD_SIZE), Ghost(72 + tree), Ghost(nodes * SNOD_SIZE))
}

/// The size of a group with everything in it.
fn group_size(node: &GroupNode) -> (r: Option<usize>)
    ensures
        measures(r, group_len(node@) as int),
    decreases node,
{
    let ghost m = node@;
    proof {
        lemma_group_model(*node);
    }
    let attrs: Option<usize> = attrs_size(&node.attrs);
    let links: Vec<Link> = sorted_links(node.datasets.as_slice(), node.groups.as_slice());
    let names: Option<usize> = heap_data_size(&links);
    let ghost a = attrs_len(declared_pairs(m.attrs)) as int;
    let ghost b = heap_size(heap_names(m)) as int;
    proof {
        assert(views(links@) == links_of(m));
    }
    let ghost t = (72 + btree_len(link_count(m)) + snods_len(link_count(m))) as int;
    proof {
        lemma_in_order_len(declared_links(m.datasets, m.groups));
    }
    let tables: Option<usize> = tables_size(links.len());
    let head: Option<usize> = plus(tables, attrs, Ghost(t), Ghost(a));
    let own: Option<usize> = plus(head, names, Ghost(t + a), Ghost(b));
    let ghost c = datasets_len(m.datasets) as int;
    let ghost d = groups_len(m.groups, m.groups.len()) as int;
    proof {
        assert(group_len(m) == t + a + b + c + d);
    }
    let mut datasets: Option<usize> = Some(0);
    let n: usize = node.datasets.len();
    proof {
        assert(m.datasets.take(0) =~= Seq::<DatasetDesc>::empty());
    }
    for i in 0..n
        invariant
            n == node.datasets@.len(),
            m.datasets == node.datasets@,
            measures(datasets, datasets_len(m.datasets.take(i as int)) as int),
    {
        let next: Option<usize> = dataset_size(&node.datasets[i]);
        proof {
            assert(m.datasets.take(i + 1).drop_last() =~= m.datasets.take(i as int));
        }
        datasets = plus(
            datasets,
            next,
            Ghost(datasets_len(m.datasets.take(i as int)) as int),
            Ghost(dataset_len(m.datasets[i as int]) as int),
        );
    }
    proof {
        assert(m.datasets.take(n as int) =~= m.datasets);
    }
    let mut groups: Option<usize> = Some(0);
    let count: usize = node.groups.len();
    for i in 0..count
        invariant
            count == node.groups@.len(),
            m.groups == views(node.groups@),
            measures(groups, groups_len(m.groups, i as nat) as int),
        decreases count - i,
    {
        let next: Option<usize> = group_size(&node.groups[i]);
        proof {
            assert(m.groups[i as int] == node.groups@[i as int]@);
        }
        groups = plus(
            groups,
            next,
            Ghost(groups_len(m.groups, i as nat) as int),
            Ghost(group_len(m.groups[i as int]) as int),
        );
    }
    let front: Option<usize> = plus(own, datasets, Ghost(t + a + b), Ghost(c));
    plus(front, groups, Ghost(t + a + b + c), Ghost(d))
}

/// How much the strings of a dataset add to a collection.
fn dataset_strings_size(ds: &DatasetDesc, before: Option<usize>, Ghost(objects): Ghost<
    Seq<Seq<u8>>,
>) -> (r: Option<usize>)
    requires
        measures(before, entries_image(objects).len() as int),
    ensures
        measures(r, entries_image(objects + stored_strings(*ds)).len() as int),
{
    let ghost all = stored_strings(*ds);
    let mut total: Option<usize> = before;
    match &ds.vlen_strings {
        None => {
            assert(objects + all =~= objects);
        },
        Some(strings) => {
            assert(objects + all.take(0) =~= objects);
            for i in 0..strings.len()
                invariant
                    ds.vlen_strings == Some(*strings),
                    all == stored_strings(*ds),
                    measures(total, entries_image(objects + all.take(i as int)).len() as int),
            {
                let ghost now = objects + all.take(i as int);
                let len: usize = strings[i].as_str().as_bytes().len();
                let ended: Option<usize> = plus(Some(len), Some(1), Ghost(len as int), Ghost(1));
                let stored: Option<usize> = aligned(ended, Ghost(len + 1));
                let entry: Option<usize> = plus(
                    Some(16),
                    stored,
                    Ghost(16),
                    Ghost(align8(len + 1)),
                );
                proof {
                    lemma_entries_step(now, all[i as int]);
                    assert(now.push(all[i as int]) =~= objects + all.take(i + 1));
                }
                total = plus(
                    total,
                    entry,
                    Ghost(entries_image(now).len() as int),
                    Ghost(16 + align8(len + 1)),
                );
            }
            assert(all.take(strings@.len() as int) =~= all);
        },
    }
    total
}

/// How much the strings of a group add to a collection.
fn group_strings_size(node: &GroupNode, before: Option<usize>, Ghost(objects): Ghost<
    Seq<Seq<u8>>,
>) -> (r: Option<usize>)
    requires
        measures(before, entries_image(objects).len() as int),
    ensures
        measures(r, entries_image(objects + group_strings(node@)).len() as int),
    decreases node,
{
    let ghost m = node@;
    proof {
        lemma_group_model(*node);
        assert(m.datasets.take(0) =~= Seq::<DatasetDesc>::empty());
        assert(objects + Seq::<Seq<u8>>::empty() =~= objects);
    }
    let mut total: Option<usize> = before;
    let n: usize = node.datasets.len();
    for i in 0..n
        invariant
            n == node.datasets@.len(),
            m.datasets == node.datasets@,
            measures(
                total,
                entries_image(objects + datasets_strings(m.datasets.take(i as int))).len() as int,
            ),
    {
        let ghost now = objects + datasets_strings(m.datasets.take(i as int));
        total = dataset_strings_size(&node.datasets[i], total, Ghost(now));
        proof {
            assert(m.datasets.take(i + 1).drop_last() =~= m.datasets.take(i as int));
            assert(now + stored_strings(m.datasets[i as int]) =~= objects + datasets_strings(
                m.datasets.take(i + 1),
            ));
        }
    }
    let ghost middle = objects + datasets_strings(m.datasets);
    proof {
        assert(m.datasets.take(n as int) =~= m.datasets);
        assert(middle + Seq::<Seq<u8>>::empty() =~= middle);
    }
    let count: usize = node.groups.len();
    for i in 0..count
        invariant
            count == node.groups@.len(),
            m.groups == views(node.groups@),
            measures(
                total,
                entries_image(middle + groups_strings(m.groups, i as nat)).len() as int,
            ),
        decreases count - i,
    {
        let ghost now = middle + groups_strings(m.groups, i as nat);
        total = group_strings_size(&node.groups[i], total, Ghost(now));
        proof {
            assert(m.groups[i as int] == node.groups@[i as int]@);
            assert(now + group_strings(m.groups[i as int]) =~= middle + groups_strings(
                m.groups,
                (i + 1) as nat,
            ));
        }
    }
    proof {
        assert(middle + groups_strings(m.groups, m.groups.len()) =~= objects + group_strings(m));
    }
    total
}

/// The room that a file with that root group takes at most: the superblock, the groups,
/// and a collection for its strings.
pub open spec fn room_for(root: GroupModel) -> nat {
    groups_end(root) + collection_size(group_strings(root))
}

/// The room that a file with that root group takes at most, where it is a `usize`.
pub fn measure_file(root: &GroupNode) -> (r: Option<usize>)
    ensures
        measures(r, room_for(root@) as int),
{
    let ghost m = root@;
    let ghost none = Seq::<Seq<u8>>::empty();
    proof {
        assert(entries_image(none).len() == 0);
        assert(none + group_strings(m) =~= group_strings(m));
    }
    let groups: Option<usize> = group_size(root);
    let strings: Option<usize> = group_strings_size(root, Some(0), Ghost(none));
    let ghost a = group_len(m) as int;
    let ghost b = entries_image(group_strings(m)).len() as int;
    let end: Option<usize> = plus(Some(96), groups, Ghost(96), Ghost(a));
    let head: Option<usize> = plus(end, Some(32), Ghost(96 + a), Ghost(32));
    plus(head, strings, Ghost(128 + a), Ghost(b))
}

} // verus!
