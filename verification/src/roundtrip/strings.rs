//! Datasets of strings read back.

use vstd::prelude::*;
use vstd::utf8::encode_utf8;
use crate::bytes::lemma_le_bytes_len;
use crate::chunk_record::RecordModel;
use crate::dataset::{Dataset, DatasetModel};
use crate::dataset_reader::plain_read;
use crate::dims::{ints, product, strides_fit};
use crate::dtype::views;
use crate::error::{ErrorKind, OxiH5Error};
use crate::file::{dataset_at_path_read, dataset_texts};
use crate::global_heap_writer::{collection_image, collection_size, holds_collection};
use crate::object::FilterPipeline;
use crate::paths::names_along;
use crate::roundtrip::datasets::{
    cache_agrees, leads_to_dataset, lemma_chunked_dataset_at, lemma_dataset_there, lemma_shape_back,
};
use crate::roundtrip::file::{
    group_below, lemma_dataset_parts, lemma_file_parts, readable, strings_before,
};
use crate::roundtrip::objects::read_parts;
use crate::roundtrip::values::lemma_try_each_is;
use crate::utf8::nul_free;
use crate::values::{
    element, file_heaps, law_stored_string_reads_back, vlen_ref_image, vlen_text,
};
use crate::write::elem::{dtype_of, dt_body_size_of, ElemType};
use crate::write::emit::{
    data_image, file_addresses, file_image, groups_end, lemma_refs_len, refs_image, strings_image,
};
use crate::write::chunked::{chunk_node_room, index_level, tree_nodes};
use crate::write::layout::{
    btree_len, data_place, dataset_len, dataset_oh_len, dataset_place, datasets_len,
    declared_pairs, elements_len, group_len, group_place, groups_len, heap_names, in_chunks,
    index_len, index_place, lemma_nodes_len, link_count, snods_len, storage_error,
};
use crate::write::links::{heap_size, lemma_heap_lens};
use crate::write::attr::attr_body_len;
use crate::write::messages::{attrs_len, layout_len, msg_len, pipeline_len};
use crate::write::plan::{datasets_strings, group_strings, groups_strings, stored_strings};
use crate::write::tiles::{chunk_count, chunks_size};
use crate::write::tree::{group_position, lemma_group_position, DatasetDesc, GroupModel};

verus! {

proof fn lemma_sum_aligned(a: int, b: int, c: int, d: int)
    requires
        a % 8 == 0,
        b % 8 == 0,
        c % 8 == 0,
        d % 8 == 0,
    ensures
        (a + b + c + d) % 8 == 0,
{
}

proof fn lemma_attrs_aligned(attrs: Seq<(Seq<u8>, crate::write::attr::AttrModel)>)
    ensures
        attrs_len(attrs) % 8 == 0,
    decreases attrs.len(),
{
    if attrs.len() > 0 {
        lemma_attrs_aligned(attrs.drop_last());
        let front = attrs_len(attrs.drop_last()) as int;
        let last = msg_len(attr_body_len(attrs.last().0, attrs.last().1)) as int;
        assert(last % 8 == 0);
        lemma_sum_aligned(front, last, 0, 0);
    }
}

proof fn lemma_dataset_aligned(ds: DatasetDesc)
    ensures
        dataset_len(ds) % 8 == 0,
{
    lemma_attrs_aligned(declared_pairs(ds.attrs@));
    let ndims = ds.shape@.len();
    let a = msg_len(8 + ndims * 16) as int;
    let b = msg_len(dt_body_size_of(ds.elem_type)) as int;
    let c = msg_len(8) as int;
    let d = msg_len(layout_len(ndims, ds.storage is Chunked)) as int;
    let e = attrs_len(declared_pairs(ds.attrs@)) as int;
    assert(a % 8 == 0 && b % 8 == 0 && c % 8 == 0 && d % 8 == 0);
    lemma_sum_aligned(a, b, c, d);
    lemma_sum_aligned(16, a + b + c + d, e, 0);
    assert(dataset_oh_len(ds) == 16 + (a + b + c + d) + e + pipeline_len(ds));
    let f = index_len(ds) as int;
    assert(f % 8 == 0) by {
        if in_chunks(ds) {
            let n = chunk_count(ds);
            let nodes = tree_nodes(index_level(n), n) as int;
            let words = 197 + 65 * ndims as int;
            assert(chunk_node_room(ndims) == 8 * words);
            assert(nodes * (8 * words) == 8 * (nodes * words)) by (nonlinear_arith);
        }
    }
    let g = elements_len(ds) as int;
    lemma_chunks_aligned(ds, chunk_count(ds));
    assert(g % 8 == 0);
    lemma_sum_aligned(dataset_oh_len(ds) as int, f, g, 0);
}

proof fn lemma_chunks_aligned(ds: DatasetDesc, n: nat)
    ensures
        chunks_size(ds, n) % 8 == 0,
    decreases n,
{
    if n > 0 {
        lemma_chunks_aligned(ds, (n - 1) as nat);
    }
}

proof fn lemma_datasets_aligned(datasets: Seq<DatasetDesc>)
    ensures
        datasets_len(datasets) % 8 == 0,
    decreases datasets.len(),
{
    if datasets.len() > 0 {
        lemma_datasets_aligned(datasets.drop_last());
        lemma_dataset_aligned(datasets.last());
        lemma_sum_aligned(
            datasets_len(datasets.drop_last()) as int,
            dataset_len(datasets.last()) as int,
            0,
            0,
        );
    }
}

/// Everything in a file takes a multiple of 8 bytes.
pub proof fn law_group_is_aligned(m: GroupModel)
    ensures
        group_len(m) % 8 == 0,
    decreases m, m.groups.len() + 1,
{
    lemma_attrs_aligned(declared_pairs(m.attrs));
    lemma_heap_lens(heap_names(m));
    lemma_datasets_aligned(m.datasets);
    lemma_groups_aligned(m.groups, m.groups.len());
    let a = attrs_len(declared_pairs(m.attrs)) as int;
    let b = heap_size(heap_names(m)) as int;
    let c = datasets_len(m.datasets) as int;
    let d = groups_len(m.groups, m.groups.len()) as int;
    lemma_nodes_len(link_count(m));
    let e = btree_len(link_count(m)) as int;
    let f = snods_len(link_count(m)) as int;
    lemma_sum_aligned(a, b, c, d);
    lemma_sum_aligned(72, a + b + c + d, e, f);
    assert(group_len(m) == 72 + (a + b + c + d) + e + f);
}

proof fn lemma_groups_aligned(groups: Seq<GroupModel>, n: nat)
    requires
        n <= groups.len(),
    ensures
        groups_len(groups, n) % 8 == 0,
    decreases groups, n,
{
    if n > 0 {
        lemma_groups_aligned(groups, (n - 1) as nat);
        law_group_is_aligned(groups[n - 1]);
        lemma_sum_aligned(
            groups_len(groups, (n - 1) as nat) as int,
            group_len(groups[n - 1]) as int,
            0,
            0,
        );
    }
}

/// The strings of a dataset within those of its group.
proof fn lemma_dataset_strings(datasets: Seq<DatasetDesc>, i: int, k: int)
    requires
        0 <= i < datasets.len(),
        0 <= k < stored_strings(datasets[i]).len(),
    ensures
        ({
            let at = datasets_strings(datasets.take(i)).len() + k;
            &&& at < datasets_strings(datasets).len()
            &&& datasets_strings(datasets)[at] == stored_strings(datasets[i])[k]
        }),
    decreases datasets.len(),
{
    let front = datasets.drop_last();
    if i == datasets.len() - 1 {
        assert(datasets.take(i) =~= front);
    } else {
        lemma_dataset_strings(front, i, k);
        assert(front.take(i) =~= datasets.take(i));
    }
}

/// The strings of a sub-group within those of all of them.
proof fn lemma_sub_group_strings(groups: Seq<GroupModel>, n: nat, j: int, k: int)
    requires
        0 <= j < n <= groups.len(),
        0 <= k < group_strings(groups[j]).len(),
    ensures
        ({
            let at = groups_strings(groups, j as nat).len() + k;
            &&& at < groups_strings(groups, n).len()
            &&& groups_strings(groups, n)[at] == group_strings(groups[j])[k]
        }),
    decreases n,
{
    if j < n - 1 {
        lemma_sub_group_strings(groups, (n - 1) as nat, j, k);
    }
}

/// The strings of the group that names lead to within those of the whole.
proof fn lemma_strings_below(m: GroupModel, at: nat, names: Seq<Seq<char>>, k: int)
    requires
        group_below(m, at, names) is Some,
        ({
            let (found, _) = group_below(m, at, names)->0;
            0 <= k < group_strings(found).len()
        }),
    ensures
        ({
            let (found, _) = group_below(m, at, names)->0;
            let place = strings_before(m, names) + k;
            &&& place < group_strings(m).len()
            &&& group_strings(m)[place] == group_strings(found)[k]
        }),
    decreases names.len(),
{
    if names.len() > 0 {
        let j = group_position(m.groups, names[0])->0;
        lemma_group_position(m.groups, names[0], 0);
        lemma_strings_below(m.groups[j], group_place(m, at, j), names.skip(1), k);
        let inner = strings_before(m.groups[j], names.skip(1)) + k;
        lemma_sub_group_strings(m.groups, m.groups.len(), j, inner);
    }
}

/// Reference `k` among those of a dataset.
proof fn lemma_ref_at(strings: Seq<String>, n: nat, gcol: nat, before: nat, k: int)
    requires
        0 <= k < n,
    ensures
        element(refs_image(strings, n, gcol, before), k, 16) == vlen_ref_image(
            encode_utf8(strings[k]@).len() + 1,
            before + k as nat + 1,
            gcol,
        ),
    decreases n,
{
    let front = refs_image(strings, (n - 1) as nat, gcol, before);
    let last = vlen_ref_image(encode_utf8(strings[n - 1]@).len() + 1, before + n, gcol);
    let all = refs_image(strings, n, gcol, before);
    lemma_refs_len(strings, (n - 1) as nat, gcol, before);
    lemma_le_bytes_len(encode_utf8(strings[n - 1]@).len() + 1, 4);
    lemma_le_bytes_len(before + n, 2);
    lemma_le_bytes_len(gcol, 8);
    if k == n - 1 {
        assert(element(all, k, 16) =~= last);
    } else {
        lemma_ref_at(strings, (n - 1) as nat, gcol, before, k);
        assert(element(all, k, 16) =~= element(front, k, 16));
    }
}

/// A file with strings holds their collection behind its groups.
proof fn lemma_strings_held(root: GroupModel, file: Seq<u8>)
    requires
        readable(root),
        file_image(root) == Ok::<Seq<u8>, ErrorKind>(file),
        file.len() <= usize::MAX,
        group_strings(root).len() > 0,
    ensures
        holds_collection(file, groups_end(root) as int, group_strings(root)),
        groups_end(root) % 8 == 0,
{
    lemma_file_parts(root, file);
    lemma_groups_end_aligned(root);
    let objects = group_strings(root);
    lemma_collection_len(objects);
    assert(strings_image(root) == collection_image(objects));
}

proof fn lemma_groups_end_aligned(root: GroupModel)
    ensures
        groups_end(root) % 8 == 0,
{
    law_group_is_aligned(root);
    lemma_sum_aligned(96, group_len(root) as int, 0, 0);
}

proof fn lemma_collection_len(objects: Seq<Seq<u8>>)
    ensures
        collection_image(objects).len() == collection_size(objects),
{
    reveal(collection_image);
    lemma_le_bytes_len(collection_size(objects), 8);
}

/// Reading a dataset of strings gives references into the collection.
proof fn lemma_references_read<
    P: Fn(&[u8], &FilterPipeline, u32, usize) -> Result<Vec<u8>, OxiH5Error>,
>(
    root: GroupModel,
    file: Seq<u8>,
    path: Seq<char>,
    m: GroupModel,
    at: nat,
    i: int,
    strings: Vec<String>,
    apply_pipeline: P,
    before: Map<(u64, usize), Seq<RecordModel>>,
    after: Map<(u64, usize), Seq<RecordModel>>,
    r: Result<Dataset, OxiH5Error>,
) -> (seen: nat)
    requires
        readable(root),
        file_image(root) == Ok::<Seq<u8>, ErrorKind>(file),
        file.len() <= usize::MAX,
        leads_to_dataset(root, path, m, at, i),
        m.datasets[i].elem_type == ElemType::VlenStr,
        m.datasets[i].vlen_strings == Some(strings),
        product(ints(m.datasets[i].shape@)) == strings@.len(),
        m.datasets[i].storage is Chunked ==> {
            &&& strides_fit(ints(m.datasets[i].shape@))
            &&& cache_agrees(before, m.datasets[i], dataset_place(m, at, i))
        },
        dataset_at_path_read(file, path, apply_pipeline, before, after, r),
    ensures
        seen == strings_before(root, names_along(path).drop_last()) + datasets_strings(
            m.datasets.take(i),
        ).len(),
        r is Ok,
        r->Ok_0@.data == refs_image(strings@, strings@.len(), groups_end(root), seen),
        r->Ok_0@.shape == ints(m.datasets[i].shape@),
        r->Ok_0@.dtype == dtype_of(ElemType::VlenStr),
        forall|k: int|
            0 <= k < strings@.len() ==> encode_utf8((#[trigger] strings@[k])@).len() < u32::MAX,
{
    let seen = lemma_dataset_there(root, file, path, m, at, i);
    let ds = m.datasets[i];
    let place = dataset_place(m, at, i);
    let gcol = groups_end(root);
    lemma_dataset_parts(file, ds, place, file_addresses(root), gcol, seen);
    lemma_shape_back(ds.shape@);
    let parts = read_parts(ds, data_place(ds, place), index_place(ds, place));
    let from = data_place(ds, place) as int;
    let n = strings@.len();
    let refs = refs_image(strings@, n, gcol, seen);
    assert(data_image(ds, gcol, seen) == Ok::<Seq<u8>, ErrorKind>(refs));
    if ds.storage is Chunked {
        lemma_strings_unfiltered(ds);
        lemma_chunked_dataset_at(
            file,
            ds,
            place,
            file_addresses(root),
            gcol,
            seen,
            apply_pipeline,
            before,
            after,
            r,
        );
    } else {
        assert(file.subrange(from, from + refs.len()) == refs);
        assert(plain_read(file, place as u64, parts) is Ok);
    }
    seen
}

/// References to strings are not filtered.
proof fn lemma_strings_unfiltered(ds: DatasetDesc)
    requires
        storage_error(ds) is None,
        ds.vlen_strings is Some,
    ensures
        ds.filter is None,
{
    reveal(storage_error);
}

/// Reading gives back what was written: a dataset of strings reads back, by its path in
/// the written file, as those strings. A collection numbers its objects with 16 bits, so
/// a file may hold that many strings. Where the dataset is in chunks, its strides must be
/// machine numbers, as they are where no extent is zero, and the cache must hold no other
/// index for it.
pub proof fn law_string_dataset_reads_back<
    P: Fn(&[u8], &FilterPipeline, u32, usize) -> Result<Vec<u8>, OxiH5Error>,
>(
    root: GroupModel,
    file: Seq<u8>,
    path: Seq<char>,
    m: GroupModel,
    at: nat,
    i: int,
    strings: Vec<String>,
    apply_pipeline: P,
    before: Map<(u64, usize), Seq<RecordModel>>,
    after: Map<(u64, usize), Seq<RecordModel>>,
    r: Result<Dataset, OxiH5Error>,
)
    requires
        readable(root),
        file_image(root) == Ok::<Seq<u8>, ErrorKind>(file),
        file.len() <= usize::MAX,
        group_strings(root).len() <= 65535,
        leads_to_dataset(root, path, m, at, i),
        m.datasets[i].elem_type == ElemType::VlenStr,
        m.datasets[i].vlen_strings == Some(strings),
        product(ints(m.datasets[i].shape@)) == strings@.len(),
        forall|k: int| 0 <= k < strings@.len() ==> nul_free((#[trigger] strings@[k])@),
        m.datasets[i].storage is Chunked ==> {
            &&& strides_fit(ints(m.datasets[i].shape@))
            &&& cache_agrees(before, m.datasets[i], dataset_place(m, at, i))
        },
        dataset_at_path_read(file, path, apply_pipeline, before, after, r),
    ensures
        r is Ok,
        dataset_texts(file, r->Ok_0@) == Ok::<Seq<Seq<char>>, ErrorKind>(views(strings@)),
{
    let seen = lemma_references_read(
        root,
        file,
        path,
        m,
        at,
        i,
        strings,
        apply_pipeline,
        before,
        after,
        r,
    );
    lemma_references_lead(root, file, path, m, at, i, strings, seen);
    assert(strings.len() == strings@.len());
    lemma_texts(file, r->Ok_0@, views(strings@));
}

/// The references of a written dataset lead to its strings.
proof fn lemma_references_lead(
    root: GroupModel,
    file: Seq<u8>,
    path: Seq<char>,
    m: GroupModel,
    at: nat,
    i: int,
    strings: Vec<String>,
    seen: nat,
)
    requires
        readable(root),
        file_image(root) == Ok::<Seq<u8>, ErrorKind>(file),
        file.len() <= usize::MAX,
        group_strings(root).len() <= 65535,
        leads_to_dataset(root, path, m, at, i),
        m.datasets[i].vlen_strings == Some(strings),
        forall|k: int| 0 <= k < strings@.len() ==> nul_free((#[trigger] strings@[k])@),
        forall|k: int|
            0 <= k < strings@.len() ==> encode_utf8((#[trigger] strings@[k])@).len() < u32::MAX,
        seen == strings_before(root, names_along(path).drop_last()) + datasets_strings(
            m.datasets.take(i),
        ).len(),
    ensures
        ({
            let refs = refs_image(strings@, strings@.len(), groups_end(root), seen);
            &&& refs.len() == strings@.len() * 16
            &&& forall|k: int|
                0 <= k < strings@.len() ==> vlen_text(
                    file_heaps(file),
                    #[trigger] element(refs, k, 16),
                ) == Ok::<Seq<char>, ErrorKind>(views(strings@)[k])
        }),
{
    let n = strings@.len();
    let refs = refs_image(strings@, n, groups_end(root), seen);
    lemma_refs_len(strings@, n, groups_end(root), seen);
    assert forall|k: int| 0 <= k < n implies vlen_text(
        file_heaps(file),
        #[trigger] element(refs, k, 16),
    ) == Ok::<Seq<char>, ErrorKind>(views(strings@)[k]) by {
        lemma_one_string(root, file, path, m, at, i, strings, seen, k);
    }
}

/// References that lead to strings read as those strings.
proof fn lemma_texts(file: Seq<u8>, ds: DatasetModel, texts: Seq<Seq<char>>)
    requires
        ds.dtype == dtype_of(ElemType::VlenStr),
        product(ds.shape) == texts.len() <= usize::MAX,
        ds.data.len() == texts.len() * 16,
        forall|k: int|
            0 <= k < texts.len() ==> vlen_text(
                file_heaps(file),
                #[trigger] element(ds.data, k, 16),
            ) == Ok::<Seq<char>, ErrorKind>(texts[k]),
    ensures
        dataset_texts(file, ds) == Ok::<Seq<Seq<char>>, ErrorKind>(texts),
{
    let n = texts.len();
    let heaps = file_heaps(file);
    let f = |k: int| vlen_text(heaps, element(ds.data, k, 16));
    lemma_try_each_is(n, f, texts);
    assert(texts.take(n as int) =~= texts);
}

/// One string of a written dataset reads back through its reference.
proof fn lemma_one_string(
    root: GroupModel,
    file: Seq<u8>,
    path: Seq<char>,
    m: GroupModel,
    at: nat,
    i: int,
    strings: Vec<String>,
    seen: nat,
    k: int,
)
    requires
        readable(root),
        file_image(root) == Ok::<Seq<u8>, ErrorKind>(file),
        file.len() <= usize::MAX,
        group_strings(root).len() <= 65535,
        leads_to_dataset(root, path, m, at, i),
        m.datasets[i].vlen_strings == Some(strings),
        0 <= k < strings@.len(),
        nul_free(strings@[k]@),
        encode_utf8(strings@[k]@).len() < u32::MAX,
        seen == strings_before(root, names_along(path).drop_last()) + datasets_strings(
            m.datasets.take(i),
        ).len(),
    ensures
        vlen_text(
            file_heaps(file),
            element(
                refs_image(strings@, strings@.len(), groups_end(root), seen),
                k,
                16,
            ),
        ) == Ok::<Seq<char>, ErrorKind>(strings@[k]@),
{
    let names = names_along(path).drop_last();
    let objects = group_strings(root);
    let gcol = groups_end(root);
    let text = strings@[k]@;
    let length = encode_utf8(text).len() + 1;
    lemma_dataset_strings(m.datasets, i, k);
    let inner = datasets_strings(m.datasets.take(i)).len() + k;
    assert(group_strings(m)[inner] == stored_strings(m.datasets[i])[k]);
    lemma_strings_below(root, 96, names, inner);
    assert(objects[seen + k] == encode_utf8(text).push(0u8));
    lemma_strings_held(root, file);
    lemma_ref_at(strings@, strings@.len(), gcol, seen, k);
    law_stored_string_reads_back(file, gcol as u64, objects, seen + k, text, length as u32);
}

} // verus!
