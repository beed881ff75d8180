//! What the flat file writer was given reads back.

use vstd::prelude::*;
use vstd::utf8::encode_utf8_decode_utf8;
use crate::bytes::{le_bytes, lemma_le_bytes_len};
use crate::chunk_record::RecordModel;
use crate::dataset::{Dataset, DatasetModel};
use crate::dims::ints;
use crate::error::{outcome, ErrorKind, OxiH5Error};
use crate::file::{dataset_at_path_read, root_listing};
use crate::object::{AttributeModel, FilterPipeline};
use crate::paths::{names_along, non_empty, parts_of, slash_from};
use crate::roundtrip::datasets::{law_contiguous_dataset_reads_back, leads_to_dataset};
use crate::roundtrip::file::{group_below, read_dataset_model, readable};
use crate::roundtrip::listing::{
    law_file_lists_datasets, names_listed, plain, plainly_named,
};
use crate::roundtrip::placed::attrs_nul_free;
use crate::roundtrip::table::{link_text, well_named};
use crate::utf8::nul_free;
use crate::write::attr::lemma_words_len;
use crate::write::elem::{datatype_image, dtype_of, law_datatype_body_size, ElemType};
use crate::write::emit::{
    dataset_image, datasets_image, file_addresses, file_image, group_image, groups_end,
    groups_image, lemma_link_target, settled_pairs,
};
use crate::write::layout::{
    btree_place, data_place, dataset_place, first_storage_error, heap_place, layout_error,
    storage_error,
};
use crate::write::links::{declared_links, links_of, LinkTarget};
use crate::write::messages::{
    contiguous_image, dataset_header, dataspace_image, fill_image, group_header, header_fits,
    max_extents, messages_len, nats, pipeline_msgs, MsgModel, MSG_DATASPACE, MSG_DATATYPE,
    MSG_FILL_VALUE, MSG_LAYOUT, MSG_SYMBOL_TABLE,
};
use crate::write::plan::datasets_strings;
use crate::write::tree::{dataset_position, empty_group, DatasetDesc, GroupModel};
use crate::write::{refused, with_dataset};

verus! {

/// Whether a dataset is one that the flat writer makes: in one run of bytes, without
/// attributes, under a name that is not empty and has no slash.
pub open spec fn flat_dataset(ds: DatasetDesc) -> bool {
    &&& ds.storage is Contiguous
    &&& ds.filter is None
    &&& ds.vlen_strings is None
    &&& ds.attrs@.len() == 0
    &&& ds.name@.len() > 0
    &&& !ds.name@.contains('/')
}

/// Whether a root group is one that the flat writer makes: at most eight datasets,
/// each under a name of its own.
pub open spec fn flat(m: GroupModel) -> bool {
    &&& m.groups.len() == 0
    &&& m.attrs.len() == 0
    &&& m.datasets.len() <= 8
    &&& forall|i: int| 0 <= i < m.datasets.len() ==> flat_dataset(#[trigger] m.datasets[i])
    &&& forall|i: int, j: int|
        0 <= i < j < m.datasets.len() ==> (#[trigger] m.datasets[i]).name@ != (
        #[trigger] m.datasets[j]).name@
}

/// A new writer is flat.
pub proof fn law_new_writer_is_flat()
    ensures
        flat(empty_group(Seq::empty())),
{
}

proof fn lemma_position_found(datasets: Seq<DatasetDesc>, name: Seq<char>, i: int)
    requires
        0 <= i < datasets.len(),
        datasets[i].name@ == name,
    ensures
        dataset_position(datasets, name) is Some,
    decreases datasets.len(),
{
    if i < datasets.len() - 1 {
        lemma_position_found(datasets.drop_last(), name, i);
    }
}

/// Whatever datasets a writer accepts, it stays flat: it holds no more than eight, and no
/// two of one name.
pub proof fn law_writer_stays_flat(
    m: GroupModel,
    new: GroupModel,
    name: Seq<char>,
    raw: Seq<u8>,
    shape: Seq<usize>,
    elem_type: ElemType,
)
    requires
        flat(m),
        !refused(m, name),
        with_dataset(m, new, name, raw, shape, elem_type),
    ensures
        flat(new),
        new.datasets.len() <= 8,
        forall|i: int, j: int|
            0 <= i < j < new.datasets.len() ==> (#[trigger] new.datasets[i]).name@ != (
            #[trigger] new.datasets[j]).name@,
{
    let n = m.datasets.len() as int;
    assert forall|i: int| 0 <= i < new.datasets.len() implies flat_dataset(
        #[trigger] new.datasets[i],
    ) by {
        if i < n {
            assert(new.datasets[i] == m.datasets[i]) by {
                assert(new.datasets.drop_last()[i] == m.datasets[i]);
            }
        }
    }
    assert forall|i: int, j: int| 0 <= i < j < new.datasets.len() implies (
    #[trigger] new.datasets[i]).name@ != (#[trigger] new.datasets[j]).name@ by {
        assert(new.datasets.drop_last()[i] == m.datasets[i]);
        if j < n {
            assert(new.datasets.drop_last()[j] == m.datasets[j]);
        } else if new.datasets[i].name@ == name {
            lemma_position_found(m.datasets, name, i);
        }
    }
}

proof fn lemma_no_slash(s: Seq<char>, from: int)
    requires
        0 <= from <= s.len(),
        !s.contains('/'),
    ensures
        slash_from(s, from) == s.len(),
    decreases s.len() - from,
{
    if from < s.len() {
        assert(s[from] != '/') by {
            if s[from] == '/' {
                assert(s.contains(s[from]));
            }
        }
        lemma_no_slash(s, from + 1);
    }
}

/// A name that is not empty and has no slash is a path of one name.
pub proof fn law_plain_name_is_path(name: Seq<char>)
    requires
        name.len() > 0,
        !name.contains('/'),
    ensures
        names_along(name) == seq![name],
{
    lemma_no_slash(name, 0);
    assert(name.subrange(0, name.len() as int) =~= name);
    assert(parts_of(name) =~= seq![name]);
    let parts = seq![name];
    assert(parts.drop_last() =~= Seq::<Seq<char>>::empty());
    assert(non_empty(Seq::<Seq<char>>::empty()) =~= Seq::<Seq<char>>::empty());
    assert(Seq::<Seq<char>>::empty().push(name) =~= parts);
}

/// Whether the names of the datasets have no NUL characters.
pub open spec fn names_nul_free(m: GroupModel) -> bool {
    forall|i: int| 0 <= i < m.datasets.len() ==> nul_free((#[trigger] m.datasets[i]).name@)
}

proof fn lemma_flat_readable(m: GroupModel)
    requires
        flat(m),
        names_nul_free(m),
    ensures
        readable(m),
        plainly_named(m),
{
    let links = declared_links(m.datasets, m.groups);
    assert forall|i: int, j: int| 0 <= i < j < links.len() implies (#[trigger] links[i]).name != (
    #[trigger] links[j]).name by {
        let a = m.datasets[i].name@;
        let b = m.datasets[j].name@;
        assert(a != b);
        encode_utf8_decode_utf8(a);
        encode_utf8_decode_utf8(b);
    }
    assert(well_named(m));
    assert forall|i: int| 0 <= i < m.datasets.len() implies attrs_nul_free(
        (#[trigger] m.datasets[i]).attrs@,
    ) by {
        assert(flat_dataset(m.datasets[i]));
    }
    assert forall|j: int| 0 <= j < links_of(m).len() implies #[trigger] plain(link_text(m, j)) by {
        lemma_link_target(m, j);
        let name = link_text(m, j);
        match links_of(m)[j].target {
            LinkTarget::Dataset(i) => {
                assert(flat_dataset(m.datasets[i as int]));
                if name[0] == '/' {
                    assert(name.contains(name[0]));
                }
            },
            LinkTarget::Group(i) => {},
        }
    }
}

/// Reading gives back what was written: each dataset of a flat file reads back under
/// its name, with its elements, its shape and its type.
pub proof fn law_flat_file_reads_back<
    P: Fn(&[u8], &FilterPipeline, u32, usize) -> Result<Vec<u8>, OxiH5Error>,
>(
    root: GroupModel,
    file: Seq<u8>,
    i: int,
    apply_pipeline: P,
    before: Map<(u64, usize), Seq<RecordModel>>,
    after: Map<(u64, usize), Seq<RecordModel>>,
    r: Result<Dataset, OxiH5Error>,
)
    requires
        flat(root),
        names_nul_free(root),
        file_image(root) == Ok::<Seq<u8>, ErrorKind>(file),
        file.len() <= usize::MAX,
        0 <= i < root.datasets.len(),
        dataset_at_path_read(
            file,
            root.datasets[i].name@,
            apply_pipeline,
            before,
            after,
            r,
        ),
    ensures
        outcome(r) == Ok::<DatasetModel, ErrorKind>(
            DatasetModel {
                data: root.datasets[i].raw@,
                shape: ints(root.datasets[i].shape@),
                dtype: dtype_of(root.datasets[i].elem_type),
                attributes: Seq::empty(),
            },
        ),
        after == before,
{
    let ds = root.datasets[i];
    assert(flat_dataset(ds));
    lemma_flat_readable(root);
    law_plain_name_is_path(ds.name@);
    assert(seq![ds.name@].drop_last() =~= Seq::<Seq<char>>::empty());
    assert(group_below(root, 96, Seq::empty()) == Some((root, 96nat)));
    assert(leads_to_dataset(root, ds.name@, root, 96, i));
    law_contiguous_dataset_reads_back(
        root,
        file,
        ds.name@,
        root,
        96,
        i,
        apply_pipeline,
        before,
        after,
        r,
    );
    let model = read_dataset_model(ds, file_addresses(root));
    assert(model.attributes =~= Seq::<AttributeModel>::empty());
}

/// A flat file lists its datasets, in the order of their names' bytes, and no groups.
pub proof fn law_flat_file_lists_datasets(root: GroupModel, file: Seq<u8>)
    requires
        flat(root),
        names_nul_free(root),
        file_image(root) == Ok::<Seq<u8>, ErrorKind>(file),
        file.len() <= usize::MAX,
    ensures
        root_listing(file, false) == Ok::<Seq<Seq<char>>, ErrorKind>(
            Seq::new(links_of(root).len(), |j: int| link_text(root, j)),
        ),
        root_listing(file, true) == Ok::<Seq<Seq<char>>, ErrorKind>(Seq::empty()),
{
    lemma_flat_readable(root);
    law_file_lists_datasets(root, file, false);
    law_file_lists_datasets(root, file, true);
    lemma_flat_names(root, links_of(root).len());
    let all = Seq::new(links_of(root).len(), |j: int| link_text(root, j));
    assert(all.take(links_of(root).len() as int) =~= all);
}

proof fn lemma_flat_names(m: GroupModel, k: nat)
    requires
        flat(m),
        k <= links_of(m).len(),
    ensures
        names_listed(m, true, k) == Seq::<Seq<char>>::empty(),
        names_listed(m, false, k) == Seq::new(links_of(m).len(), |j: int| link_text(m, j)).take(
            k as int,
        ),
    decreases k,
{
    let all = Seq::new(links_of(m).len(), |j: int| link_text(m, j));
    if k > 0 {
        lemma_flat_names(m, (k - 1) as nat);
        lemma_link_target(m, k - 1);
        assert(all.take(k - 1).push(all[k - 1]) =~= all.take(k as int));
    } else {
        assert(all.take(0) =~= Seq::<Seq<char>>::empty());
    }
}

proof fn lemma_flat_header(ds: DatasetDesc, data_addr: nat)
    requires
        flat_dataset(ds),
        ds.shape@.len() <= u8::MAX,
    ensures
        dataset_header(ds, data_addr, 0, Seq::empty()) is Ok,
{
    let shape = nats(ds.shape@);
    let a = MsgModel {
        kind: MSG_DATASPACE,
        flags: 0,
        body: dataspace_image(shape, ds.grows()),
    };
    let b = MsgModel { kind: MSG_DATATYPE, flags: 1, body: datatype_image(ds.elem_type) };
    let c = MsgModel { kind: MSG_FILL_VALUE, flags: 1, body: fill_image() };
    let d = MsgModel {
        kind: MSG_LAYOUT,
        flags: 0,
        body: contiguous_image(data_addr, ds.data_size()),
    };
    let msgs = seq![a, b, c, d];
    lemma_words_len(shape);
    lemma_words_len(max_extents(shape, ds.grows()));
    law_datatype_body_size(ds.elem_type);
    lemma_le_bytes_len(data_addr, 8);
    lemma_le_bytes_len(ds.data_size(), 8);
    assert(msgs.drop_last() =~= seq![a, b, c]);
    assert(seq![a, b, c].drop_last() =~= seq![a, b]);
    assert(seq![a, b].drop_last() =~= seq![a]);
    assert(seq![a].drop_last() =~= Seq::<MsgModel>::empty());
    reveal_with_fuel(messages_len, 5);
    assert(a.body.len() == 8 + ds.shape@.len() * 16);
    assert(b.body.len() <= 24);
    assert(c.body.len() == 8);
    assert(d.body.len() == 24);
    assert forall|i: int| 0 <= i < msgs.len() implies (#[trigger] msgs[i]).body.len()
        <= u16::MAX by {
        assert(i == 0 || i == 1 || i == 2 || i == 3);
    }
    assert(header_fits(msgs));
    assert(msgs + pipeline_msgs(ds) =~= msgs);
}

proof fn lemma_flat_dataset_written(
    ds: DatasetDesc,
    at: nat,
    map: Map<Seq<char>, u64>,
    gcol: nat,
    before: nat,
)
    requires
        flat_dataset(ds),
        ds.shape@.len() <= u8::MAX,
    ensures
        dataset_image(ds, at, map, gcol, before) is Ok,
{
    reveal(dataset_image);
    let pairs = settled_pairs(ds.attrs@, map)->Ok_0;
    assert(pairs =~= Seq::empty());
    lemma_flat_header(ds, data_place(ds, at));
}

proof fn lemma_flat_datasets_written(
    m: GroupModel,
    at: nat,
    map: Map<Seq<char>, u64>,
    gcol: nat,
    before: nat,
    n: nat,
)
    requires
        flat(m),
        forall|i: int|
            0 <= i < m.datasets.len() ==> (#[trigger] m.datasets[i]).shape@.len() <= u8::MAX,
        n <= m.datasets.len(),
    ensures
        datasets_image(m, at, map, gcol, before, n) is Ok,
        first_storage_error(m.datasets.take(n as int)) is None,
    decreases n,
{
    if n > 0 {
        lemma_flat_datasets_written(m, at, map, gcol, before, (n - 1) as nat);
        let ds = m.datasets[n - 1];
        assert(flat_dataset(ds));
        lemma_flat_dataset_written(
            ds,
            dataset_place(m, at, n - 1),
            map,
            gcol,
            before + datasets_strings(m.datasets.take(n - 1)).len(),
        );
        assert(m.datasets.take(n as int).drop_last() =~= m.datasets.take(n - 1));
        reveal(storage_error);
    } else {
        assert(m.datasets.take(0) =~= Seq::<DatasetDesc>::empty());
    }
}

proof fn lemma_flat_root_header(btree: nat, heap: nat)
    ensures
        group_header(btree, heap, Seq::empty()) is Ok,
{
    let body = le_bytes(btree, 8) + le_bytes(heap, 8);
    let a = MsgModel { kind: MSG_SYMBOL_TABLE, flags: 0, body };
    let msgs = seq![a];
    lemma_le_bytes_len(btree, 8);
    lemma_le_bytes_len(heap, 8);
    assert(msgs.drop_last() =~= Seq::<MsgModel>::empty());
    reveal_with_fuel(messages_len, 2);
    assert forall|i: int| 0 <= i < msgs.len() implies (#[trigger] msgs[i]).body.len()
        <= u16::MAX by {
        assert(i == 0);
    }
    assert(header_fits(msgs));
}

/// A flat file is written whatever its datasets hold, unless one has too many
/// dimensions.
pub proof fn law_flat_file_is_written(root: GroupModel)
    requires
        flat(root),
        forall|i: int|
            0 <= i < root.datasets.len() ==> (#[trigger] root.datasets[i]).shape@.len() <= u8::MAX,
    ensures
        file_image(root) is Ok,
{
    reveal(file_image);
    let map = file_addresses(root);
    let gcol = groups_end(root);
    lemma_flat_datasets_written(root, 96, map, gcol, 0, root.datasets.len());
    assert(root.datasets.take(root.datasets.len() as int) =~= root.datasets);
    assert(layout_error(root) is None);
    let pairs = settled_pairs(root.attrs, map)->Ok_0;
    assert(pairs =~= Seq::empty());
    lemma_flat_root_header(btree_place(root, 96), heap_place(root, 96));
    assert(groups_image(root, 96, map, gcol, 0, 0) is Ok);
    assert(group_image(root, 96, map, gcol, 0) is Ok);
}

} // verus!
