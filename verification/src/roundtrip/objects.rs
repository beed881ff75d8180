//! The object headers of written datasets and groups say what they were made of.

use vstd::prelude::*;
use vstd::utf8::encode_utf8;
use crate::bytes::{le_bytes, lemma_le_bytes_len, lemma_pow256_values};
use crate::dataset_reader::{
    attributes_at, attributes_in, parts_at, said_in, PartsModel, Said,
    MSG_ATTRIBUTE as READ_ATTRIBUTE,
};
use crate::dtype::DtypeModel;
use crate::error::ErrorKind;
use crate::file::{place_at, Place};
use crate::group::{has_type, header_has, symbol_table_from};
use crate::header::{messages_at, MessageModel, CONTINUATION};
use crate::datatype::datatype_in;
use crate::message::{dataspace_in, fill_value_in, layout_in, ExtentModel};
use crate::object::{AttributeModel, FilterModel, LayoutModel};
use crate::roundtrip::header::{
    law_header_reads_back, read_message, read_messages, self_contained,
};
use crate::roundtrip::held::{held, lemma_held_number, lemma_held_parts};
use crate::roundtrip::messages::{
    deflate_filter, deflate_text, law_attribute_reads_back, law_chunked_layout_reads_back,
    law_contiguous_layout_reads_back, law_dataspace_reads_back, law_datatype_reads_back,
    law_pipeline_v1_reads_back, read_attribute, words_of,
};
use crate::utf8::nul_free;
use crate::write::attr::{attr_image, AttrModel};
use crate::write::elem::{byte_size_of, datatype_image, dtype_of};
use crate::write::messages::{
    attrs_wf, dataset_header, dataset_msgs, dataspace_image, fill_image, full_chunk_shape,
    group_header, group_msgs, layout_image, max_extents, nats, pipeline_msgs, rank_fits,
    with_attr_msgs, MsgModel, MSG_ATTRIBUTE, MSG_DATASPACE, MSG_DATATYPE, MSG_FILL_VALUE,
    MSG_LAYOUT, MSG_SYMBOL_TABLE,
};
use crate::write::pipeline::{deflate_image, law_deflate_body_sizes};
use crate::write::tree::{DatasetDesc, Filter, Storage};

verus! {

/// Whether the attributes have these names, can be written and can be counted.
pub open spec fn attrs_named(pairs: Seq<(Seq<u8>, AttrModel)>, names: Seq<Seq<char>>) -> bool {
    &&& names.len() == pairs.len()
    &&& attrs_wf(pairs)
    &&& forall|i: int| 0 <= i < pairs.len() ==> #[trigger] attr_named(pairs[i], names[i])
}

/// Whether the attribute has that name, without NUL characters, and can be counted.
pub open spec fn attr_named(pair: (Seq<u8>, AttrModel), name: Seq<char>) -> bool {
    &&& pair.0 == encode_utf8(name)
    &&& nul_free(name)
    &&& pair.1.count() is Some ==> pair.1.count()->0 <= u64::MAX
}

/// Written attributes as they are read.
pub open spec fn read_attributes(
    pairs: Seq<(Seq<u8>, AttrModel)>,
    names: Seq<Seq<char>>,
) -> Seq<AttributeModel> {
    Seq::new(pairs.len(), |i: int| read_attribute(names[i], pairs[i].1))
}

/// The message of an attribute.
pub open spec fn attr_message(pair: (Seq<u8>, AttrModel)) -> MsgModel {
    MsgModel { kind: MSG_ATTRIBUTE, flags: 0, body: attr_image(pair.0, pair.1)->Ok_0 }
}

/// What messages with those of attributes behind them are.
proof fn lemma_with_attrs(base: Seq<MsgModel>, pairs: Seq<(Seq<u8>, AttrModel)>)
    requires
        with_attr_msgs(base, pairs) is Ok,
    ensures
        ({
            let msgs = with_attr_msgs(base, pairs)->Ok_0;
            &&& msgs.len() == base.len() + pairs.len()
            &&& forall|i: int| 0 <= i < base.len() ==> #[trigger] msgs[i] == base[i]
            &&& forall|i: int|
                base.len() <= i < msgs.len() ==> #[trigger] msgs[i] == attr_message(
                    pairs[i - base.len()],
                )
            &&& forall|i: int|
                0 <= i < pairs.len() ==> #[trigger] attr_image(pairs[i].0, pairs[i].1) is Ok
        }),
    decreases pairs.len(),
{
    if pairs.len() > 0 {
        let front = pairs.drop_last();
        lemma_with_attrs(base, front);
        let less = with_attr_msgs(base, front)->Ok_0;
        let msgs = with_attr_msgs(base, pairs)->Ok_0;
        assert forall|i: int| base.len() <= i < msgs.len() implies #[trigger] msgs[i]
            == attr_message(pairs[i - base.len()]) by {
            if i < less.len() {
                assert(msgs[i] == less[i]);
                assert(front[i - base.len()] == pairs[i - base.len()]);
            }
        }
        assert forall|i: int| 0 <= i < pairs.len() implies #[trigger] attr_image(
            pairs[i].0,
            pairs[i].1,
        ) is Ok by {
            if i < front.len() {
                assert(front[i] == pairs[i]);
                assert(attr_image(front[i].0, front[i].1) is Ok);
            }
        }
    }
}

/// The attributes behind other messages read back.
proof fn lemma_attributes_back(
    base: Seq<MsgModel>,
    pairs: Seq<(Seq<u8>, AttrModel)>,
    names: Seq<Seq<char>>,
    k: nat,
)
    requires
        with_attr_msgs(base, pairs) is Ok,
        attrs_named(pairs, names),
        forall|i: int| 0 <= i < base.len() ==> (#[trigger] base[i]).kind != READ_ATTRIBUTE,
        k <= base.len() + pairs.len(),
    ensures
        attributes_in(read_messages(with_attr_msgs(base, pairs)->Ok_0), k) == read_attributes(
            pairs,
            names,
        ).take(
            if k <= base.len() {
                0
            } else {
                k - base.len()
            },
        ),
    decreases k,
{
    let msgs = with_attr_msgs(base, pairs)->Ok_0;
    let models = read_messages(msgs);
    let all = read_attributes(pairs, names);
    lemma_with_attrs(base, pairs);
    if k == 0 {
        assert(all.take(0) =~= Seq::<AttributeModel>::empty());
    } else {
        lemma_attributes_back(base, pairs, names, (k - 1) as nat);
        let i = k - 1;
        assert(models[i] == read_message(msgs[i]));
        if i < base.len() {
            assert(msgs[i] == base[i]);
        } else {
            let j = i - base.len();
            assert(msgs[i] == attr_message(pairs[j]));
            assert(attr_image(pairs[j].0, pairs[j].1) is Ok);
            assert(attr_named(pairs[j], names[j]));
            law_attribute_reads_back(names[j], pairs[j].1);
            assert(all.take(j + 1) =~= all.take(j).push(all[j]));
        }
    }
}

/// Attributes say nothing of the dataset itself.
proof fn lemma_said_stays(messages: Seq<MessageModel>, n: nat, k: nat)
    requires
        n <= k <= messages.len(),
        forall|i: int| n <= i < k ==> (#[trigger] messages[i]).msg_type == READ_ATTRIBUTE,
    ensures
        said_in(messages, k) == said_in(messages, n),
    decreases k,
{
    if n < k {
        lemma_said_stays(messages, n, (k - 1) as nat);
        assert(messages[k - 1].msg_type == READ_ATTRIBUTE);
    }
}

/// A written layout as it is read.
pub open spec fn read_layout(ds: DatasetDesc, data_addr: nat, btree_addr: nat) -> LayoutModel {
    match ds.storage {
        Storage::Contiguous => LayoutModel::Contiguous {
            data_address: data_addr as u64,
            data_size: ds.data_size() as u64,
        },
        Storage::Chunked { .. } => LayoutModel::Chunked {
            data_address: btree_addr as u64,
            dimensionality: (ds.shape@.len() + 1) as u8,
            chunk_dims: words_of(full_chunk_shape(ds).push(byte_size_of(ds.elem_type))),
            index_type: 0,
        },
    }
}

/// A written dataset as its header is read.
pub open spec fn read_parts(ds: DatasetDesc, data_addr: nat, btree_addr: nat) -> PartsModel {
    PartsModel {
        extent: ExtentModel {
            dims: words_of(nats(ds.shape@)),
            max_dims: Some(words_of(max_extents(nats(ds.shape@), ds.grows()))),
        },
        dtype: dtype_of(ds.elem_type),
        layout: read_layout(ds, data_addr, btree_addr),
        filters: read_filters(ds),
        fill: Seq::empty(),
    }
}

/// The filter of a written dataset as it is read.
pub open spec fn read_filters(ds: DatasetDesc) -> Seq<FilterModel> {
    match ds.filter {
        None => Seq::empty(),
        Some(Filter::Deflate { level }) => seq![deflate_filter(level, Some(deflate_text()))],
    }
}

proof fn lemma_layout_back(ds: DatasetDesc, data_addr: nat, btree_addr: nat)
    requires
        layout_image(ds, data_addr, btree_addr) is Ok,
        rank_fits(ds),
        data_addr <= u64::MAX,
        btree_addr <= u64::MAX,
        ds.storage is Contiguous ==> ds.data_size() <= u64::MAX,
    ensures
        layout_in(layout_image(ds, data_addr, btree_addr)->Ok_0) == Ok::<LayoutModel, ErrorKind>(
            read_layout(ds, data_addr, btree_addr),
        ),
{
    match ds.storage {
        Storage::Contiguous => {
            law_contiguous_layout_reads_back(data_addr, ds.data_size());
        },
        Storage::Chunked { .. } => {
            let shape = full_chunk_shape(ds);
            assert forall|i: int| 0 <= i < shape.len() implies #[trigger] shape[i] <= u32::MAX by {}
            law_chunked_layout_reads_back(btree_addr, shape, byte_size_of(ds.elem_type));
        },
    }
}

/// The fill value of a written dataset has no bytes.
proof fn lemma_fill_back()
    ensures
        ({
            let m = MsgModel { kind: MSG_FILL_VALUE, flags: 1, body: fill_image() };
            fill_value_in(read_message(m).data) == Ok::<Seq<u8>, ErrorKind>(Seq::empty())
        }),
{
    let m = MsgModel { kind: MSG_FILL_VALUE, flags: 1, body: fill_image() };
    let data = read_message(m).data;
    assert(data =~= fill_image());
    reveal_with_fuel(crate::bytes::le_at, 5);
    assert(crate::bytes::le_at(data, 4, 4) == 0);
    assert(data.subrange(8, 8) =~= Seq::empty());
}

/// What a dataspace, a datatype, a fill value and a layout say together.
proof fn lemma_said_by_four(models: Seq<MessageModel>, expected: PartsModel)
    requires
        models.len() >= 4,
        models[0].msg_type == 0x0001,
        dataspace_in(models[0].data) == Ok::<ExtentModel, ErrorKind>(expected.extent),
        models[1].msg_type == 0x0003,
        datatype_in(models[1].data) == Ok::<DtypeModel, ErrorKind>(expected.dtype),
        models[2].msg_type == 0x0005,
        fill_value_in(models[2].data) == Ok::<Seq<u8>, ErrorKind>(expected.fill),
        expected.fill == Seq::<u8>::empty(),
        models[3].msg_type == 0x0008,
        layout_in(models[3].data) == Ok::<LayoutModel, ErrorKind>(expected.layout),
    ensures
        said_in(models, 4) == Ok::<Said, ErrorKind>(
            Said {
                extent: Some(expected.extent),
                dtype: Some(expected.dtype),
                layout: Some(expected.layout),
                filters: None,
                fill: Seq::empty(),
            },
        ),
{
    let none = Said {
        extent: None,
        dtype: None,
        layout: None,
        filters: None,
        fill: Seq::empty(),
    };
    let one = Said { extent: Some(expected.extent), ..none };
    let two = Said { dtype: Some(expected.dtype), ..one };
    assert(said_in(models, 0) == Ok::<Said, ErrorKind>(none));
    assert(said_in(models, 1) == Ok::<Said, ErrorKind>(one));
    assert(said_in(models, 2) == Ok::<Said, ErrorKind>(two));
    assert(said_in(models, 3) == Ok::<Said, ErrorKind>(two));
}

/// What a filter pipeline behind the first four messages adds.
proof fn lemma_said_by_filter(
    ds: DatasetDesc,
    models: Seq<MessageModel>,
    said: Said,
)
    requires
        models.len() >= 4 + pipeline_msgs(ds).len(),
        said_in(models, 4) == Ok::<Said, ErrorKind>(said),
        said.filters is None,
        ds.filter is Some ==> models[4] == read_message(pipeline_msgs(ds)[0]),
    ensures
        said_in(models, 4 + pipeline_msgs(ds).len()) == Ok::<Said, ErrorKind>(
            Said {
                filters: if ds.filter is Some {
                    Some(read_filters(ds))
                } else {
                    None
                },
                ..said
            },
        ),
{
    if let Some(Filter::Deflate { level }) = ds.filter {
        law_pipeline_v1_reads_back(level);
        law_deflate_body_sizes(level);
        assert(models[4].data =~= deflate_image(level));
        assert(said_in(models, 5) == Ok::<Said, ErrorKind>(
            Said { filters: Some(read_filters(ds)), ..said },
        ));
    }
}

/// The first messages of a dataset's header: all but its attributes.
pub open spec fn first_messages(ds: DatasetDesc, layout: Seq<u8>) -> Seq<MsgModel> {
    seq![
        MsgModel {
            kind: MSG_DATASPACE,
            flags: 0,
            body: dataspace_image(nats(ds.shape@), ds.grows()),
        },
        MsgModel { kind: MSG_DATATYPE, flags: 1, body: datatype_image(ds.elem_type) },
        MsgModel { kind: MSG_FILL_VALUE, flags: 1, body: fill_image() },
        MsgModel { kind: MSG_LAYOUT, flags: 0, body: layout },
    ] + pipeline_msgs(ds)
}

/// The messages of a written dataset's header.
proof fn lemma_dataset_messages(
    file: Seq<u8>,
    addr: u64,
    ds: DatasetDesc,
    data_addr: nat,
    btree_addr: nat,
    pairs: Seq<(Seq<u8>, AttrModel)>,
) -> (models: Seq<MessageModel>)
    requires
        dataset_header(ds, data_addr, btree_addr, pairs) is Ok,
        held(file, addr as int, dataset_header(ds, data_addr, btree_addr, pairs)->Ok_0),
    ensures
        layout_image(ds, data_addr, btree_addr) is Ok,
        rank_fits(ds),
        ({
            let base = first_messages(ds, layout_image(ds, data_addr, btree_addr)->Ok_0);
            &&& with_attr_msgs(base, pairs) is Ok
            &&& models == read_messages(with_attr_msgs(base, pairs)->Ok_0)
            &&& models.len() == base.len() + pairs.len()
            &&& forall|i: int| 0 <= i < base.len() ==> #[trigger] models[i] == read_message(base[i])
            &&& forall|i: int|
                base.len() <= i < models.len() ==> (#[trigger] models[i]).msg_type == READ_ATTRIBUTE
        }),
        messages_at(file, addr as int) == Ok::<Seq<MessageModel>, ErrorKind>(models),
{
    let msgs = dataset_msgs(ds, data_addr, btree_addr, pairs)->Ok_0;
    let layout = layout_image(ds, data_addr, btree_addr)->Ok_0;
    let base = first_messages(ds, layout);
    lemma_with_attrs(base, pairs);
    assert(self_contained(msgs)) by {
        assert forall|i: int| 0 <= i < msgs.len() implies (#[trigger] msgs[i]).kind
            != CONTINUATION by {
            if i < base.len() {
                assert(msgs[i] == base[i]);
            } else {
                assert(msgs[i] == attr_message(pairs[i - base.len()]));
            }
        }
    }
    law_header_reads_back(file, addr as int, msgs);
    let models = read_messages(msgs);
    assert forall|i: int| 0 <= i < base.len() implies #[trigger] models[i] == read_message(
        base[i],
    ) by {
        assert(msgs[i] == base[i]);
    }
    assert forall|i: int| base.len() <= i < models.len() implies (#[trigger] models[i]).msg_type
        == READ_ATTRIBUTE by {
        assert(msgs[i] == attr_message(pairs[i - base.len()]));
    }
    models
}

/// Reading gives back what was written: wherever a file holds the object header of a
/// dataset, it says the dataset's extents, type, layout and attributes.
pub proof fn law_dataset_header_reads_back(
    file: Seq<u8>,
    addr: u64,
    ds: DatasetDesc,
    data_addr: nat,
    btree_addr: nat,
    pairs: Seq<(Seq<u8>, AttrModel)>,
    names: Seq<Seq<char>>,
)
    requires
        dataset_header(ds, data_addr, btree_addr, pairs) is Ok,
        held(file, addr as int, dataset_header(ds, data_addr, btree_addr, pairs)->Ok_0),
        attrs_named(pairs, names),
        data_addr <= u64::MAX,
        btree_addr <= u64::MAX,
        ds.storage is Contiguous ==> ds.data_size() <= u64::MAX,
    ensures
        parts_at(file, addr) == Ok::<PartsModel, ErrorKind>(
            read_parts(ds, data_addr, btree_addr),
        ),
        attributes_at(file, addr) == Ok::<Seq<AttributeModel>, ErrorKind>(
            read_attributes(pairs, names),
        ),
        !header_has(file, addr, MSG_SYMBOL_TABLE),
        rank_fits(ds),
{
    let models = lemma_dataset_messages(file, addr, ds, data_addr, btree_addr, pairs);
    let base = first_messages(ds, layout_image(ds, data_addr, btree_addr)->Ok_0);
    let all = read_attributes(pairs, names);
    lemma_attributes_back(base, pairs, names, (base.len() + pairs.len()) as nat);
    assert(all.take(pairs.len() as int) =~= all);
    law_dataspace_reads_back(ds.shape@, ds.grows());
    law_datatype_reads_back(ds.elem_type);
    lemma_layout_back(ds, data_addr, btree_addr);
    lemma_fill_back();
    assert(models[0] == read_message(base[0]));
    assert(models[1] == read_message(base[1]));
    assert(models[2] == read_message(base[2]));
    assert(models[3] == read_message(base[3]));
    let parts = read_parts(ds, data_addr, btree_addr);
    lemma_said_by_four(models, parts);
    if ds.filter is Some {
        assert(base[4] == pipeline_msgs(ds)[0]);
        assert(models[4] == read_message(base[4]));
    }
    lemma_said_by_filter(
        ds,
        models,
        Said {
            extent: Some(parts.extent),
            dtype: Some(parts.dtype),
            layout: Some(parts.layout),
            filters: None,
            fill: Seq::empty(),
        },
    );
    lemma_said_stays(models, base.len(), models.len());
    assert forall|i: int| 0 <= i < models.len() implies (#[trigger] models[i]).msg_type
        != MSG_SYMBOL_TABLE by {
        if i >= base.len() {
            assert(models[i].msg_type == READ_ATTRIBUTE);
        } else {
            assert(models[i] == read_message(base[i]));
        }
    }
}

/// Reading gives back what was written: wherever a file holds the object header of a
/// group, it says where the group's B-tree and local heap are, and its attributes.
pub proof fn law_group_header_reads_back(
    file: Seq<u8>,
    addr: u64,
    btree_addr: nat,
    heap_addr: nat,
    pairs: Seq<(Seq<u8>, AttrModel)>,
    names: Seq<Seq<char>>,
)
    requires
        group_header(btree_addr, heap_addr, pairs) is Ok,
        held(file, addr as int, group_header(btree_addr, heap_addr, pairs)->Ok_0),
        attrs_named(pairs, names),
        btree_addr <= u64::MAX,
        heap_addr <= u64::MAX,
    ensures
        place_at(file, addr) == Ok::<Place, ErrorKind>(
            Place { header: addr, table: Some((btree_addr as u64, heap_addr as u64)) },
        ),
        attributes_at(file, addr) == Ok::<Seq<AttributeModel>, ErrorKind>(
            read_attributes(pairs, names),
        ),
        header_has(file, addr, MSG_SYMBOL_TABLE),
{
    let msgs = group_msgs(btree_addr, heap_addr, pairs)->Ok_0;
    let body = le_bytes(btree_addr, 8) + le_bytes(heap_addr, 8);
    let base = seq![MsgModel { kind: MSG_SYMBOL_TABLE, flags: 0, body }];
    lemma_with_attrs(base, pairs);
    assert(self_contained(msgs)) by {
        assert forall|i: int| 0 <= i < msgs.len() implies (#[trigger] msgs[i]).kind
            != CONTINUATION by {
            if i < 1 {
                assert(msgs[i] == base[i]);
            } else {
                assert(msgs[i] == attr_message(pairs[i - 1]));
            }
        }
    }
    law_header_reads_back(file, addr as int, msgs);
    let models = read_messages(msgs);
    let all = read_attributes(pairs, names);
    lemma_attributes_back(base, pairs, names, (1 + pairs.len()) as nat);
    assert(all.take(pairs.len() as int) =~= all);
    assert(models[0] == read_message(base[0]));
    lemma_le_bytes_len(btree_addr, 8);
    lemma_le_bytes_len(heap_addr, 8);
    lemma_pow256_values();
    assert(held(body, 0, body)) by {
        assert(body.subrange(0, body.len() as int) =~= body);
    }
    lemma_held_parts(body, 0, le_bytes(btree_addr, 8), le_bytes(heap_addr, 8));
    lemma_held_number(body, 0, btree_addr, 8);
    lemma_held_number(body, 8, heap_addr, 8);
    assert(symbol_table_from(models, 0) == Some((btree_addr as u64, heap_addr as u64)));
    assert(has_type(models, MSG_SYMBOL_TABLE)) by {
        assert(models[0].msg_type == MSG_SYMBOL_TABLE);
    }
}

} // verus!
