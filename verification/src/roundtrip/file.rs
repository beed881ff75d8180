//! A written file reads back.

use vstd::prelude::*;
use crate::bytes::{le_bytes, lemma_le_bytes_len, lemma_pow256_values};
use crate::dataset::DatasetModel;
use crate::dataset_reader::{attributes_at, parts_at, PartsModel};
use crate::dims::ints;
use crate::error::ErrorKind;
use crate::file::{place_at, root_place, table_group, Place};
use crate::group::{header_has, member_at, MSG_SYMBOL_TABLE};
use crate::object::AttributeModel;
use crate::roundtrip::held::{
    held, lemma_held_bytes, lemma_held_number, lemma_held_part, lemma_held_parts,
};
use crate::roundtrip::objects::{
    law_dataset_header_reads_back, law_group_header_reads_back, read_attributes, read_parts,
};
use crate::roundtrip::placed::{
    all_small, attr_names, attrs_nul_free, law_group_len, lemma_datasets_image_len,
    lemma_settled_named, lemma_settled_wf, lemma_stored_len, lemma_table_len, small,
};
use crate::roundtrip::table::{law_member_is_found, well_named};
use crate::superblock::{superblock_of, Superblock};
use crate::write::attr::padded;
use crate::write::chunked::{chunk_node_room, index_level, tree_nodes};
use crate::write::elem::dtype_of;
use crate::write::emit::{
    data_image, dataset_image, datasets_image, elements_image, file_addresses, file_image,
    group_image, groups_end, groups_image, index_image, settled_pairs, strings_image, table_image,
};
use crate::write::format::superblock_image;
use crate::write::layout::{
    btree_place, data_place, dataset_place, datasets_place, group_place, heap_place, in_chunks,
    index_place, index_start,
};
use crate::write::links::{declared_links, law_order_keeps_links, lemma_in_order_len, links_of};
use crate::write::messages::{dataset_header, group_header, rank_fits};
use crate::write::plan::{datasets_strings, groups_strings};
use crate::write::tiles::chunk_count;
use crate::write::tree::{group_position, DatasetDesc, GroupModel};

verus! {

/// Whether a group and every group in it has members that can be told apart, and
/// attributes whose names have no NUL characters.
pub open spec fn readable(m: GroupModel) -> bool
    decreases m, m.groups.len() + 1,
{
    &&& well_named(m)
    &&& attrs_nul_free(m.attrs)
    &&& forall|i: int|
        0 <= i < m.datasets.len() ==> attrs_nul_free((#[trigger] m.datasets[i]).attrs@)
    &&& all_readable(m.groups, m.groups.len())
}

/// Whether the first `n` groups are readable.
pub open spec fn all_readable(groups: Seq<GroupModel>, n: nat) -> bool
    decreases groups, n,
{
    n == 0 || n > groups.len() || (all_readable(groups, (n - 1) as nat) && readable(groups[n - 1]))
}

pub proof fn lemma_readable_small(m: GroupModel)
    requires
        readable(m),
    ensures
        small(m),
    decreases m, m.groups.len() + 1,
{
    lemma_all_readable_small(m.groups, m.groups.len());
}

proof fn lemma_all_readable_small(groups: Seq<GroupModel>, n: nat)
    requires
        n <= groups.len(),
        all_readable(groups, n),
    ensures
        all_small(groups, n),
    decreases groups, n,
{
    if n > 0 {
        lemma_all_readable_small(groups, (n - 1) as nat);
        lemma_readable_small(groups[n - 1]);
    }
}

pub proof fn lemma_one_readable(groups: Seq<GroupModel>, n: nat, j: int)
    requires
        0 <= j < n <= groups.len(),
        all_readable(groups, n),
    ensures
        readable(groups[j]),
        all_readable(groups, j as nat),
    decreases n,
{
    if j < n - 1 {
        lemma_one_readable(groups, (n - 1) as nat, j);
    }
}

/// Whether a file holds a group at its place, with everything in it.
#[verifier::opaque]
pub open spec fn holds_group(
    file: Seq<u8>,
    m: GroupModel,
    at: nat,
    map: Map<Seq<char>, u64>,
    gcol: nat,
    before: nat,
) -> bool {
    &&& group_image(m, at, map, gcol, before) is Ok
    &&& held(file, at as int, group_image(m, at, map, gcol, before)->Ok_0)
}

/// A file that holds the first `n` datasets of a group holds each of them.
pub proof fn lemma_dataset_held(
    file: Seq<u8>,
    m: GroupModel,
    at: nat,
    map: Map<Seq<char>, u64>,
    gcol: nat,
    before: nat,
    n: nat,
    i: int,
)
    requires
        0 <= i < n <= m.datasets.len(),
        datasets_image(m, at, map, gcol, before, n) is Ok,
        held(
            file,
            datasets_place(m, at) as int,
            datasets_image(m, at, map, gcol, before, n)->Ok_0,
        ),
    ensures
        ({
            let seen = before + datasets_strings(m.datasets.take(i)).len();
            let image = dataset_image(m.datasets[i], dataset_place(m, at, i), map, gcol, seen);
            image is Ok && held(file, dataset_place(m, at, i) as int, image->Ok_0)
        }),
    decreases n,
{
    let front = datasets_image(m, at, map, gcol, before, (n - 1) as nat)->Ok_0;
    let seen = before + datasets_strings(m.datasets.take(n - 1)).len();
    let last = dataset_image(
        m.datasets[n - 1],
        dataset_place(m, at, n - 1),
        map,
        gcol,
        seen,
    )->Ok_0;
    lemma_held_parts(file, datasets_place(m, at) as int, front, last);
    lemma_datasets_image_len(m, at, map, gcol, before, (n - 1) as nat);
    if i < n - 1 {
        lemma_dataset_held(file, m, at, map, gcol, before, (n - 1) as nat, i);
    }
}

/// A file that holds the first `n` sub-groups of a group holds each of them.
#[verifier::spinoff_prover]
#[verifier::rlimit(40)]
pub proof fn lemma_group_held(
    file: Seq<u8>,
    m: GroupModel,
    at: nat,
    map: Map<Seq<char>, u64>,
    gcol: nat,
    before: nat,
    n: nat,
    j: int,
)
    requires
        0 <= j < n <= m.groups.len(),
        all_small(m.groups, n),
        groups_image(m, at, map, gcol, before, n) is Ok,
        held(
            file,
            group_place(m, at, 0) as int,
            groups_image(m, at, map, gcol, before, n)->Ok_0,
        ),
    ensures
        ({
            let seen = before + datasets_strings(m.datasets).len() + groups_strings(
                m.groups,
                j as nat,
            ).len();
            holds_group(file, m.groups[j], group_place(m, at, j), map, gcol, seen)
        }),
    decreases n,
{
    reveal(holds_group);
    let front = groups_image(m, at, map, gcol, before, (n - 1) as nat)->Ok_0;
    let seen = before + datasets_strings(m.datasets).len() + groups_strings(
        m.groups,
        (n - 1) as nat,
    ).len();
    let last = group_image(m.groups[n - 1], group_place(m, at, n - 1), map, gcol, seen)->Ok_0;
    assert(groups_image(m, at, map, gcol, before, n) == Ok::<Seq<u8>, ErrorKind>(front + last));
    lemma_held_parts(file, group_place(m, at, 0) as int, front, last);
    crate::roundtrip::placed::lemma_groups_image_len(m, at, map, gcol, before, (n - 1) as nat);
    if j < n - 1 {
        lemma_group_held(file, m, at, map, gcol, before, (n - 1) as nat, j);
    }
}

/// A file that holds a group holds its header, its symbol table, its datasets and its
/// sub-groups, each at its place.
pub proof fn lemma_group_parts(
    file: Seq<u8>,
    m: GroupModel,
    at: nat,
    map: Map<Seq<char>, u64>,
    gcol: nat,
    before: nat,
)
    requires
        small(m),
        holds_group(file, m, at, map, gcol, before),
    ensures
        ({
            let pairs = settled_pairs(m.attrs, map);
            let header = group_header(btree_place(m, at), heap_place(m, at), pairs->Ok_0);
            let datasets = datasets_image(m, at, map, gcol, before, m.datasets.len());
            let groups = groups_image(m, at, map, gcol, before, m.groups.len());
            &&& pairs is Ok
            &&& header is Ok
            &&& held(file, at as int, header->Ok_0)
            &&& held(file, btree_place(m, at) as int, table_image(m, at))
            &&& datasets is Ok
            &&& held(file, datasets_place(m, at) as int, datasets->Ok_0)
            &&& groups is Ok
            &&& held(file, group_place(m, at, 0) as int, groups->Ok_0)
        }),
{
    reveal(holds_group);
    let pairs = settled_pairs(m.attrs, map)->Ok_0;
    let header = group_header(btree_place(m, at), heap_place(m, at), pairs)->Ok_0;
    let table = table_image(m, at);
    let datasets = datasets_image(m, at, map, gcol, before, m.datasets.len())->Ok_0;
    let groups = groups_image(m, at, map, gcol, before, m.groups.len())->Ok_0;
    lemma_settled_wf(m.attrs, map);
    crate::write::emit::lemma_settled_len(m.attrs, map);
    crate::write::messages::law_group_header_len(btree_place(m, at), heap_place(m, at), pairs);
    lemma_in_order_len(declared_links(m.datasets, m.groups));
    lemma_table_len(m, at);
    lemma_datasets_image_len(m, at, map, gcol, before, m.datasets.len());
    assert(m.datasets.take(m.datasets.len() as int) =~= m.datasets);
    lemma_held_parts(file, at as int, header + table + datasets, groups);
    lemma_held_parts(file, at as int, header + table, datasets);
    lemma_held_parts(file, at as int, header, table);
}

/// The dataset at place `i` of a written group is found under its name.
pub proof fn law_dataset_is_found(file: Seq<u8>, m: GroupModel, at: nat, i: int)
    requires
        file.len() <= usize::MAX,
        well_named(m),
        held(file, btree_place(m, at) as int, table_image(m, at)),
        0 <= i < m.datasets.len(),
    ensures
        member_at(
            file,
            btree_place(m, at) as u64,
            heap_place(m, at) as u64,
            m.datasets[i].name@,
        ) == Ok::<u64, ErrorKind>(dataset_place(m, at, i) as u64),
{
    let all = declared_links(m.datasets, m.groups);
    lemma_in_order_len(all);
    law_order_keeps_links(all, i);
    let j = choose|j: int|
        0 <= j < links_of(m).len() && #[trigger] links_of(m)[j] == all[i];
    law_member_is_found(file, m, at, j);
}

/// The sub-group at place `k` of a written group is found under its name.
pub proof fn law_sub_group_is_found(file: Seq<u8>, m: GroupModel, at: nat, k: int)
    requires
        file.len() <= usize::MAX,
        well_named(m),
        held(file, btree_place(m, at) as int, table_image(m, at)),
        0 <= k < m.groups.len(),
    ensures
        member_at(
            file,
            btree_place(m, at) as u64,
            heap_place(m, at) as u64,
            m.groups[k].name,
        ) == Ok::<u64, ErrorKind>(group_place(m, at, k) as u64),
{
    let all = declared_links(m.datasets, m.groups);
    let i = m.datasets.len() + k;
    lemma_in_order_len(all);
    law_order_keeps_links(all, i);
    let j = choose|j: int|
        0 <= j < links_of(m).len() && #[trigger] links_of(m)[j] == all[i];
    law_member_is_found(file, m, at, j);
}

/// Where the group is that the names lead to, from a group placed at `at`.
pub open spec fn group_below(m: GroupModel, at: nat, names: Seq<Seq<char>>) -> Option<
    (GroupModel, nat),
>
    decreases names.len(),
{
    if names.len() == 0 {
        Some((m, at))
    } else {
        match group_position(m.groups, names[0]) {
            None => None,
            Some(k) => group_below(m.groups[k], group_place(m, at, k), names.skip(1)),
        }
    }
}

/// The place of a group, as the reader sees it.
pub open spec fn written_place(m: GroupModel, at: nat) -> Place {
    Place {
        header: at as u64,
        table: Some((btree_place(m, at) as u64, heap_place(m, at) as u64)),
    }
}

/// The header of a written group leads to its B-tree and its local heap, and holds its
/// attributes.
pub proof fn law_group_opens(
    file: Seq<u8>,
    m: GroupModel,
    at: nat,
    map: Map<Seq<char>, u64>,
    gcol: nat,
    before: nat,
)
    requires
        file.len() <= usize::MAX,
        readable(m),
        holds_group(file, m, at, map, gcol, before),
    ensures
        place_at(file, at as u64) == Ok::<Place, ErrorKind>(written_place(m, at)),
        settled_pairs(m.attrs, map) is Ok,
        attributes_at(file, at as u64) == Ok::<Seq<AttributeModel>, ErrorKind>(
            read_attributes(settled_pairs(m.attrs, map)->Ok_0, attr_names(m.attrs)),
        ),
        heap_place(m, at) <= file.len(),
        header_has(file, at as u64, MSG_SYMBOL_TABLE),
{
    lemma_readable_small(m);
    lemma_group_parts(file, m, at, map, gcol, before);
    lemma_settled_named(m.attrs, map);
    lemma_in_order_len(declared_links(m.datasets, m.groups));
    lemma_table_len(m, at);
    law_group_header_reads_back(
        file,
        at as u64,
        btree_place(m, at),
        heap_place(m, at),
        settled_pairs(m.attrs, map)->Ok_0,
        attr_names(m.attrs),
    );
}

/// How many strings are stored before those of the group that the names lead to.
pub open spec fn strings_before(m: GroupModel, names: Seq<Seq<char>>) -> nat
    decreases names.len(),
{
    if names.len() == 0 {
        0
    } else {
        match group_position(m.groups, names[0]) {
            None => 0,
            Some(k) => datasets_strings(m.datasets).len() + groups_strings(
                m.groups,
                k as nat,
            ).len() + strings_before(m.groups[k], names.skip(1)),
        }
    }
}

/// Following names through a written file leads to the group of that path.
#[verifier::spinoff_prover]
#[verifier::rlimit(60)]
pub proof fn law_group_is_found(
    file: Seq<u8>,
    m: GroupModel,
    at: nat,
    map: Map<Seq<char>, u64>,
    gcol: nat,
    before: nat,
    names: Seq<Seq<char>>,
)
    requires
        file.len() <= usize::MAX,
        readable(m),
        holds_group(file, m, at, map, gcol, before),
        group_below(m, at, names) is Some,
    ensures
        ({
            let (found, place) = group_below(m, at, names)->0;
            &&& table_group(
                file,
                at as u64,
                (btree_place(m, at) as u64, heap_place(m, at) as u64),
                names,
            ) == Ok::<(u64, (u64, u64)), ErrorKind>(
                (
                    place as u64,
                    (btree_place(found, place) as u64, heap_place(found, place) as u64),
                ),
            )
            &&& readable(found)
            &&& holds_group(file, found, place, map, gcol, before + strings_before(m, names))
        }),
    decreases names.len(),
{
    if names.len() > 0 {
        let k = group_position(m.groups, names[0])->0;
        crate::write::tree::lemma_group_position(m.groups, names[0], 0);
        lemma_readable_small(m);
        lemma_group_parts(file, m, at, map, gcol, before);
        law_sub_group_is_found(file, m, at, k);
        lemma_one_readable(m.groups, m.groups.len(), k);
        lemma_all_readable_small(m.groups, m.groups.len());
        lemma_group_held(file, m, at, map, gcol, before, m.groups.len(), k);
        let inner = m.groups[k];
        let place = group_place(m, at, k);
        let seen = before + datasets_strings(m.datasets).len() + groups_strings(
            m.groups,
            k as nat,
        ).len();
        law_group_opens(file, inner, place, map, gcol, seen);
        law_group_is_found(file, inner, place, map, gcol, seen, names.skip(1));
    }
}

/// The superblock of a written file leads to its root group.
pub proof fn law_superblock_reads_back(file: Seq<u8>, btree: nat, heap: nat, eof: nat)
    requires
        held(file, 0, superblock_image(btree, heap, eof)),
    ensures
        superblock_of(file) == Ok::<Superblock, ErrorKind>(
            Superblock {
                size_of_offsets: 8,
                size_of_lengths: 8,
                base_address: 0,
                root_object_header_address: 96,
            },
        ),
{
    let image = superblock_image(btree, heap, eof);
    lemma_le_bytes_len(4, 2);
    lemma_le_bytes_len(16, 2);
    lemma_le_bytes_len(0, 4);
    lemma_le_bytes_len(1, 4);
    lemma_le_bytes_len(0, 8);
    lemma_le_bytes_len(96, 8);
    lemma_le_bytes_len(u64::MAX as nat, 8);
    lemma_le_bytes_len(eof, 8);
    lemma_le_bytes_len(btree, 8);
    lemma_le_bytes_len(heap, 8);
    lemma_pow256_values();
    assert(image.len() == 96);
    let sign = crate::superblock::signature();
    assert(image.subrange(0, 8) =~= sign);
    lemma_held_part(file, 0, image, 0, sign);
    assert(file.subrange(0, 8) == sign);
    lemma_held_bytes(file, 0, image);
    assert(image[8] == file[0int + 8]);
    assert(image[13] == file[0int + 13]);
    assert(image[14] == file[0int + 14]);
    assert(image.subrange(24, 32) =~= le_bytes(0, 8));
    lemma_held_part(file, 0, image, 24, le_bytes(0, 8));
    lemma_held_number(file, 24, 0, 8);
    assert(image.subrange(64, 72) =~= le_bytes(96, 8));
    lemma_held_part(file, 0, image, 64, le_bytes(96, 8));
    lemma_held_number(file, 64, 96, 8);
}

pub proof fn lemma_superblock_len(btree: nat, heap: nat, eof: nat)
    ensures
        superblock_image(btree, heap, eof).len() == 96,
{
    lemma_le_bytes_len(4, 2);
    lemma_le_bytes_len(16, 2);
    lemma_le_bytes_len(0, 4);
    lemma_le_bytes_len(1, 4);
    lemma_le_bytes_len(0, 8);
    lemma_le_bytes_len(96, 8);
    lemma_le_bytes_len(u64::MAX as nat, 8);
    lemma_le_bytes_len(eof, 8);
    lemma_le_bytes_len(btree, 8);
    lemma_le_bytes_len(heap, 8);
}

/// A written file holds its superblock, its groups and its strings.
#[verifier::spinoff_prover]
#[verifier::rlimit(40)]
pub proof fn lemma_file_parts(root: GroupModel, file: Seq<u8>)
    requires
        readable(root),
        file_image(root) == Ok::<Seq<u8>, ErrorKind>(file),
        file.len() <= usize::MAX,
    ensures
        root_place(file) == Ok::<Place, ErrorKind>(written_place(root, 96)),
        holds_group(file, root, 96, file_addresses(root), groups_end(root), 0),
        held(file, groups_end(root) as int, strings_image(root)),
{
    reveal(holds_group);
    reveal(file_image);
    let map = file_addresses(root);
    let a = superblock_image(
        btree_place(root, 96),
        heap_place(root, 96),
        groups_end(root) + strings_image(root).len(),
    );
    let b = group_image(root, 96, map, groups_end(root), 0)->Ok_0;
    let c = strings_image(root);
    lemma_superblock_len(
        btree_place(root, 96),
        heap_place(root, 96),
        groups_end(root) + strings_image(root).len(),
    );
    assert(held(file, 0, a + b + c)) by {
        assert(file.subrange(0, file.len() as int) =~= file);
    }
    lemma_held_parts(file, 0, a + b, c);
    lemma_held_parts(file, 0, a, b);
    lemma_readable_small(root);
    law_group_len(root, 96, map, groups_end(root), 0);
    law_superblock_reads_back(
        file,
        btree_place(root, 96),
        heap_place(root, 96),
        groups_end(root) + strings_image(root).len(),
    );
    law_group_opens(file, root, 96, map, groups_end(root), 0);
}

/// A written dataset as it is read.
pub open spec fn read_dataset_model(ds: DatasetDesc, map: Map<Seq<char>, u64>) -> DatasetModel {
    DatasetModel {
        data: ds.raw@,
        shape: ints(ds.shape@),
        dtype: dtype_of(ds.elem_type),
        attributes: read_attributes(settled_pairs(ds.attrs@, map)->Ok_0, attr_names(ds.attrs@)),
    }
}

/// What the file says of a written dataset: its extents, its type, its layout and its
/// attributes; and it holds its chunk index and its elements.
pub proof fn lemma_dataset_parts(
    file: Seq<u8>,
    ds: DatasetDesc,
    at: nat,
    map: Map<Seq<char>, u64>,
    gcol: nat,
    before: nat,
)
    requires
        file.len() <= usize::MAX,
        attrs_nul_free(ds.attrs@),
        dataset_image(ds, at, map, gcol, before) is Ok,
        held(file, at as int, dataset_image(ds, at, map, gcol, before)->Ok_0),
    ensures
        parts_at(file, at as u64) == Ok::<PartsModel, ErrorKind>(
            read_parts(ds, data_place(ds, at), index_place(ds, at)),
        ),
        settled_pairs(ds.attrs@, map) is Ok,
        attributes_at(file, at as u64) == Ok::<Seq<AttributeModel>, ErrorKind>(
            read_attributes(settled_pairs(ds.attrs@, map)->Ok_0, attr_names(ds.attrs@)),
        ),
        data_image(ds, gcol, before) is Ok,
        ds.storage is Contiguous ==> held(
            file,
            data_place(ds, at) as int,
            data_image(ds, gcol, before)->Ok_0,
        ),
        data_image(ds, gcol, before)->Ok_0.len() == ds.data_size(),
        held(file, index_start(ds, at) as int, index_image(ds, at)),
        held(
            file,
            data_place(ds, at) as int,
            elements_image(ds, data_image(ds, gcol, before)->Ok_0),
        ),
        rank_fits(ds),
        !header_has(file, at as u64, MSG_SYMBOL_TABLE),
        at < file.len(),
{
    let pairs = settled_pairs(ds.attrs@, map)->Ok_0;
    lemma_dataset_pieces(file, ds, at, map, gcol, before);
    lemma_settled_named(ds.attrs@, map);
    lemma_index_place(ds, at);
    law_dataset_header_reads_back(
        file,
        at as u64,
        ds,
        data_place(ds, at),
        index_place(ds, at),
        pairs,
        attr_names(ds.attrs@),
    );
}

/// The header, the chunk index and the elements of a written dataset are where they
/// belong.
proof fn lemma_dataset_pieces(
    file: Seq<u8>,
    ds: DatasetDesc,
    at: nat,
    map: Map<Seq<char>, u64>,
    gcol: nat,
    before: nat,
)
    requires
        file.len() <= usize::MAX,
        attrs_nul_free(ds.attrs@),
        dataset_image(ds, at, map, gcol, before) is Ok,
        held(file, at as int, dataset_image(ds, at, map, gcol, before)->Ok_0),
    ensures
        settled_pairs(ds.attrs@, map) is Ok,
        ({
            let pairs = settled_pairs(ds.attrs@, map)->Ok_0;
            let header = dataset_header(ds, data_place(ds, at), index_place(ds, at), pairs);
            &&& header is Ok
            &&& header->Ok_0.len() > 0
            &&& held(file, at as int, header->Ok_0)
        }),
        data_image(ds, gcol, before) is Ok,
        data_image(ds, gcol, before)->Ok_0.len() == ds.data_size(),
        held(file, index_start(ds, at) as int, index_image(ds, at)),
        held(
            file,
            data_place(ds, at) as int,
            elements_image(ds, data_image(ds, gcol, before)->Ok_0),
        ),
        ds.storage is Contiguous ==> held(
            file,
            data_place(ds, at) as int,
            data_image(ds, gcol, before)->Ok_0,
        ),
        data_place(ds, at) <= file.len(),
{
    reveal(dataset_image);
    let pairs = settled_pairs(ds.attrs@, map)->Ok_0;
    let header = dataset_header(ds, data_place(ds, at), index_place(ds, at), pairs)->Ok_0;
    let index = index_image(ds, at);
    let data = data_image(ds, gcol, before)->Ok_0;
    lemma_settled_wf(ds.attrs@, map);
    crate::write::emit::lemma_settled_len(ds.attrs@, map);
    crate::write::messages::law_dataset_header_len(
        ds,
        data_place(ds, at),
        index_place(ds, at),
        pairs,
    );
    crate::write::emit::lemma_data_len(ds, gcol, before);
    lemma_stored_len(ds, at, data);
    lemma_held_parts(file, at as int, header + index, elements_image(ds, data));
    lemma_held_parts(file, at as int, header, index);
    if ds.storage is Contiguous {
        let pad = padded(data).skip(data.len() as int);
        assert(padded(data) =~= data + pad);
        lemma_held_parts(file, data_place(ds, at) as int, data, pad);
    }
}

/// The root of a chunk index lies within it.
proof fn lemma_index_place(ds: DatasetDesc, at: nat)
    requires
        data_place(ds, at) <= usize::MAX,
    ensures
        index_place(ds, at) <= usize::MAX,
{
    if in_chunks(ds) {
        let n = chunk_count(ds);
        let nodes = tree_nodes(index_level(n), n);
        let room = chunk_node_room(ds.shape@.len());
        assert((nodes - 1) * room <= nodes * room) by (nonlinear_arith)
            requires
                room >= 0,
        ;
    }
}

} // verus!
