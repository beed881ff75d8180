//! Object headers and the messages in them.
//!
//! An object header is the version 1, a reserved byte, the number of messages (2
//! bytes), a reference count of 1 (4), the size of all messages (4) and four bytes
//! of padding, then the messages. A message is its type (2), the size of its body
//! (2), flags, three reserved bytes, and the body, padded to a multiple of 8.

use vstd::prelude::*;
use crate::bytes::{le_bytes, lemma_le_bytes_len, push_le, push_zeros, put, put_bytes, zeros};
use crate::dtype::views;
use crate::error::{outcome, ErrorKind, OxiH5Error};
use crate::global_heap::align8;
use crate::write::attr::{
    attr_body_len, attr_image, law_attr_body_size, lemma_words_len, narrow_u16, narrow_u32, pad8,
    padded, push_padded, words_image, AttrModel, ResolvedAttr,
};
use crate::write::elem::{
    byte_size_of, datatype_bytes, datatype_image, dt_body_size_of, law_datatype_body_size, ElemType,
};
use crate::write::format::{msg_head, GROUP_OH_SIZE};
use crate::write::pipeline::{
    deflate_image, law_deflate_body_sizes, write_deflate_body, V1_BODY,
};
use crate::write::tree::{DatasetDesc, Filter, Storage};

verus! {

/// A message of an object header.
pub struct Msg {
    pub kind: u16,
    pub flags: u8,
    pub body: Vec<u8>,
}

/// A [`Msg`] as a mathematical value.
pub struct MsgModel {
    pub kind: u16,
    pub flags: u8,
    pub body: Seq<u8>,
}

impl View for Msg {
    type V = MsgModel;

    open spec fn view(&self) -> MsgModel {
        MsgModel { kind: self.kind, flags: self.flags, body: self.body@ }
    }
}

/// The bytes that a message with a body of that size takes.
pub open spec fn msg_len(body: nat) -> nat {
    (8 + align8(body as int)) as nat
}

/// The bytes that a message with a body of that size takes.
pub fn msg_total(body_size: usize) -> (r: usize)
    requires
        msg_len(body_size as nat) <= usize::MAX,
    ensures
        r == msg_len(body_size as nat),
{
    8 + pad8(body_size)
}

/// One message.
pub open spec fn message_image(m: MsgModel) -> Seq<u8> {
    msg_head(m.kind as nat, m.body.len(), m.flags) + padded(m.body)
}

/// Messages, one after the other.
pub open spec fn messages_image(msgs: Seq<MsgModel>) -> Seq<u8>
    decreases msgs.len(),
{
    if msgs.len() == 0 {
        Seq::empty()
    } else {
        messages_image(msgs.drop_last()) + message_image(msgs.last())
    }
}

/// The bytes that messages take.
pub open spec fn messages_len(msgs: Seq<MsgModel>) -> nat
    decreases msgs.len(),
{
    if msgs.len() == 0 {
        0
    } else {
        messages_len(msgs.drop_last()) + msg_len(msgs.last().body.len())
    }
}

/// Whether the numbers of an object header fit their fields.
pub open spec fn header_fits(msgs: Seq<MsgModel>) -> bool {
    &&& msgs.len() <= u16::MAX
    &&& messages_len(msgs) <= u32::MAX
    &&& forall|i: int| 0 <= i < msgs.len() ==> (#[trigger] msgs[i]).body.len() <= u16::MAX
}

/// An object header.
pub open spec fn header_image(msgs: Seq<MsgModel>) -> Seq<u8> {
    seq![1u8, 0u8] + le_bytes(msgs.len(), 2) + le_bytes(1, 4) + le_bytes(messages_len(msgs), 4)
        + zeros(4) + messages_image(msgs)
}

/// An object header, where its numbers fit their fields.
pub open spec fn object_header(msgs: Seq<MsgModel>) -> Result<Seq<u8>, ErrorKind> {
    if header_fits(msgs) {
        Ok(header_image(msgs))
    } else {
        Err(ErrorKind::Format)
    }
}

pub proof fn lemma_message_len(m: MsgModel)
    ensures
        message_image(m).len() == msg_len(m.body.len()),
{
    lemma_le_bytes_len(m.kind as nat, 2);
    lemma_le_bytes_len(m.body.len(), 2);
}

pub proof fn lemma_messages_len(msgs: Seq<MsgModel>)
    ensures
        messages_image(msgs).len() == messages_len(msgs),
        messages_len(msgs) % 8 == 0,
    decreases msgs.len(),
{
    if msgs.len() > 0 {
        lemma_messages_len(msgs.drop_last());
        lemma_message_len(msgs.last());
    }
}

pub proof fn lemma_header_len(msgs: Seq<MsgModel>)
    ensures
        header_image(msgs).len() == 16 + messages_len(msgs),
{
    lemma_messages_len(msgs);
    lemma_le_bytes_len(msgs.len(), 2);
    lemma_le_bytes_len(1, 4);
    lemma_le_bytes_len(messages_len(msgs), 4);
}

/// Fewer messages take fewer bytes.
proof fn lemma_messages_len_take(msgs: Seq<MsgModel>, i: int)
    requires
        0 <= i <= msgs.len(),
    ensures
        messages_len(msgs.take(i)) <= messages_len(msgs),
    decreases msgs.len() - i,
{
    if i < msgs.len() {
        lemma_messages_len_take(msgs, i + 1);
        assert(msgs.take(i + 1).drop_last() =~= msgs.take(i));
    } else {
        assert(msgs.take(i) =~= msgs);
    }
}

fn push_message(out: &mut Vec<u8>, m: &Msg)
    requires
        m.body@.len() <= u16::MAX,
    ensures
        final(out)@ == old(out)@ + message_image(m@),
{
    let ghost before = out@;
    push_le(out, m.kind as u64, 2);
    push_le(out, m.body.len() as u64, 2);
    out.push(m.flags);
    push_zeros(out, 3);
    proof {
        assert(out@ =~= before + msg_head(m.kind as nat, m.body@.len(), m.flags));
    }
    push_padded(out, &m.body);
    proof {
        assert(out@ =~= before + message_image(m@));
    }
}

/// An object header with these messages.
pub fn header_bytes(msgs: &[Msg]) -> (r: Result<Vec<u8>, OxiH5Error>)
    ensures
        outcome(r) == object_header(views(msgs@)),
{
    let ghost all = views(msgs@);
    let count: u16 = narrow_u16("number of header messages", msgs.len())?;
    let mut total: u64 = 0;
    proof {
        assert(all.take(0) =~= Seq::<MsgModel>::empty());
    }
    for i in 0..msgs.len()
        invariant
            all == views(msgs@),
            total == messages_len(all.take(i as int)),
            total <= i * 0x10010,
            i <= msgs@.len() <= u16::MAX,
            forall|k: int| 0 <= k < i ==> (#[trigger] all[k]).body.len() <= u16::MAX,
    {
        proof {
            assert(all.take(i + 1).drop_last() =~= all.take(i as int));
            assert(all.take(i + 1).last() == msgs@[i as int]@);
            assert(all[i as int] == msgs@[i as int]@);
        }
        let size: u16 = narrow_u16("header message size", msgs[i].body.len())?;
        total = total + msg_total(size as usize) as u64;
    }
    proof {
        assert(all.take(msgs@.len() as int) =~= all);
    }
    if total > 0xffff_ffff {
        return Err(OxiH5Error::Format("internal writer error: object header too large".to_string()));
    }
    let mut out: Vec<u8> = vec![1u8, 0];
    proof {
        assert(out@ =~= seq![1u8, 0u8]);
    }
    push_le(&mut out, count as u64, 2);
    push_le(&mut out, 1, 4);
    push_le(&mut out, total, 4);
    push_zeros(&mut out, 4);
    let ghost head = out@;
    proof {
        assert(head + Seq::<u8>::empty() =~= head);
    }
    for i in 0..msgs.len()
        invariant
            all == views(msgs@),
            forall|k: int| 0 <= k < msgs@.len() ==> (#[trigger] all[k]).body.len() <= u16::MAX,
            out@ == head + messages_image(all.take(i as int)),
    {
        proof {
            assert(all.take(i + 1).drop_last() =~= all.take(i as int));
            assert(all.take(i + 1).last() == msgs@[i as int]@);
            assert(all[i as int] == msgs@[i as int]@);
        }
        push_message(&mut out, &msgs[i]);
        proof {
            assert(out@ =~= head + messages_image(all.take(i + 1)));
        }
    }
    Ok(out)
}

/// Type of a dataspace message.
pub const MSG_DATASPACE: u16 = 0x0001;

/// Type of a datatype message.
pub const MSG_DATATYPE: u16 = 0x0003;

/// Type of a fill value message.
pub const MSG_FILL_VALUE: u16 = 0x0005;

/// Type of a data layout message.
pub const MSG_LAYOUT: u16 = 0x0008;

/// Type of an attribute message.
pub const MSG_ATTRIBUTE: u16 = 0x000C;

/// Type of a filter pipeline message.
pub const MSG_FILTER_PIPELINE: u16 = 0x000B;

/// Type of a symbol table message.
pub const MSG_SYMBOL_TABLE: u16 = 0x0011;

/// The largest extents of a dataset: the present ones, but for a first dimension
/// that may grow without bound.
pub open spec fn max_extents(shape: Seq<nat>, grows: bool) -> Seq<nat> {
    Seq::new(
        shape.len(),
        |i: int|
            if grows && i == 0 {
                u64::MAX as nat
            } else {
                shape[i]
            },
    )
}

/// A dataspace body: version 1, the rank, the flag that largest extents are there,
/// five reserved bytes, the extents, the largest extents.
pub open spec fn dataspace_image(shape: Seq<nat>, grows: bool) -> Seq<u8> {
    seq![1u8, shape.len() as u8, 1u8] + zeros(5) + words_image(shape) + words_image(
        max_extents(shape, grows),
    )
}

/// A fill value body: version 2, late allocation, written if set, defined, of no bytes.
pub open spec fn fill_image() -> Seq<u8> {
    seq![2u8, 2u8, 2u8, 1u8] + zeros(4)
}

/// A contiguous layout body: version 3, class 1, the address and size of the data,
/// padding.
pub open spec fn contiguous_image(data_addr: nat, data_size: nat) -> Seq<u8> {
    seq![3u8, 1u8] + le_bytes(data_addr, 8) + le_bytes(data_size, 8) + zeros(6)
}

/// Extents of four bytes each.
pub open spec fn halves_image(dims: Seq<nat>) -> Seq<u8>
    decreases dims.len(),
{
    if dims.len() == 0 {
        Seq::empty()
    } else {
        halves_image(dims.drop_last()) + le_bytes(dims.last(), 4)
    }
}

/// A chunked layout body: version 3, class 2, the rank and one more, the address of
/// the index, the chunk shape and the element size.
pub open spec fn chunked_image(btree_addr: nat, chunk_shape: Seq<nat>, elem_size: nat) -> Seq<u8> {
    seq![3u8, 2u8, (chunk_shape.len() + 1) as u8] + le_bytes(btree_addr, 8) + halves_image(
        chunk_shape.push(elem_size),
    )
}

pub proof fn lemma_halves_len(dims: Seq<nat>)
    ensures
        halves_image(dims).len() == dims.len() * 4,
    decreases dims.len(),
{
    if dims.len() > 0 {
        lemma_halves_len(dims.drop_last());
        lemma_le_bytes_len(dims.last(), 4);
    }
}

/// Machine numbers as mathematical ones.
pub open spec fn nats(dims: Seq<usize>) -> Seq<nat> {
    Seq::new(dims.len(), |i: int| dims[i] as nat)
}

/// The chunk shape of a chunked dataset, completed from the dataset's shape.
pub open spec fn full_chunk_shape(ds: DatasetDesc) -> Seq<nat> {
    match ds.storage {
        Storage::Chunked { chunk_shape, .. } => Seq::new(
            ds.shape@.len(),
            |i: int|
                if i < chunk_shape@.len() {
                    chunk_shape@[i] as nat
                } else {
                    ds.shape@[i] as nat
                },
        ),
        _ => Seq::empty(),
    }
}

/// The layout body of a dataset, where its chunk extents fit their fields.
pub open spec fn layout_image(ds: DatasetDesc, data_addr: nat, btree_addr: nat) -> Result<
    Seq<u8>,
    ErrorKind,
> {
    match ds.storage {
        Storage::Contiguous => Ok(contiguous_image(data_addr, ds.data_size())),
        Storage::Chunked { .. } => {
            let shape = full_chunk_shape(ds);
            if forall|i: int| 0 <= i < shape.len() ==> #[trigger] shape[i] <= u32::MAX {
                Ok(chunked_image(btree_addr, shape, byte_size_of(ds.elem_type)))
            } else {
                Err(ErrorKind::Format)
            }
        },
    }
}

/// The size of the layout body of a dataset.
pub open spec fn layout_len(ndims: nat, chunked: bool) -> nat {
    if chunked {
        11 + (ndims + 1) * 4
    } else {
        24
    }
}

/// An attribute as the writer knows it: the bytes of its name, and its value.
pub open spec fn attr_pair(attr: ResolvedAttr) -> (Seq<u8>, AttrModel) {
    (attr.name_bytes(), attr.kind@)
}

/// Attributes as the writer knows them.
pub open spec fn attr_pairs(attrs: Seq<ResolvedAttr>) -> Seq<(Seq<u8>, AttrModel)> {
    Seq::new(attrs.len(), |i: int| attr_pair(attrs[i]))
}

/// `msgs` and a message for each attribute.
pub open spec fn with_attr_msgs(msgs: Seq<MsgModel>, attrs: Seq<(Seq<u8>, AttrModel)>) -> Result<
    Seq<MsgModel>,
    ErrorKind,
>
    decreases attrs.len(),
{
    if attrs.len() == 0 {
        Ok(msgs)
    } else {
        match with_attr_msgs(msgs, attrs.drop_last()) {
            Err(kind) => Err(kind),
            Ok(front) => match attr_image(attrs.last().0, attrs.last().1) {
                Err(kind) => Err(kind),
                Ok(body) => Ok(front.push(MsgModel { kind: MSG_ATTRIBUTE, flags: 0, body })),
            },
        }
    }
}

/// Whether the number of dimensions fits its fields. That of a chunked layout counts one
/// more, the element.
pub open spec fn rank_fits(ds: DatasetDesc) -> bool {
    if ds.storage is Chunked {
        ds.shape@.len() < u8::MAX
    } else {
        ds.shape@.len() <= u8::MAX
    }
}

/// The message of a dataset's filter, if it has one.
pub open spec fn pipeline_msgs(ds: DatasetDesc) -> Seq<MsgModel> {
    match ds.filter {
        None => Seq::empty(),
        Some(Filter::Deflate { level }) => seq![
            MsgModel { kind: MSG_FILTER_PIPELINE, flags: 1, body: deflate_image(level) },
        ],
    }
}

/// The bytes that the message of a dataset's filter takes.
pub open spec fn pipeline_len(ds: DatasetDesc) -> nat {
    if ds.filter is Some {
        40
    } else {
        0
    }
}

/// The messages of a dataset: dataspace, datatype, fill value, layout, filter, attributes.
pub open spec fn dataset_msgs(
    ds: DatasetDesc,
    data_addr: nat,
    btree_addr: nat,
    attrs: Seq<(Seq<u8>, AttrModel)>,
) -> Result<Seq<MsgModel>, ErrorKind> {
    if !rank_fits(ds) {
        Err(ErrorKind::Format)
    } else {
        match layout_image(ds, data_addr, btree_addr) {
            Err(kind) => Err(kind),
            Ok(layout) => with_attr_msgs(
                seq![
                    MsgModel {
                        kind: MSG_DATASPACE,
                        flags: 0,
                        body: dataspace_image(nats(ds.shape@), ds.grows()),
                    },
                    MsgModel {
                        kind: MSG_DATATYPE,
                        flags: 1,
                        body: datatype_image(ds.elem_type),
                    },
                    MsgModel { kind: MSG_FILL_VALUE, flags: 1, body: fill_image() },
                    MsgModel { kind: MSG_LAYOUT, flags: 0, body: layout },
                ] + pipeline_msgs(ds),
                attrs,
            ),
        }
    }
}

/// The object header of a dataset.
pub open spec fn dataset_header(
    ds: DatasetDesc,
    data_addr: nat,
    btree_addr: nat,
    attrs: Seq<(Seq<u8>, AttrModel)>,
) -> Result<Seq<u8>, ErrorKind> {
    match dataset_msgs(ds, data_addr, btree_addr, attrs) {
        Err(kind) => Err(kind),
        Ok(msgs) => object_header(msgs),
    }
}

/// The messages of a group: the addresses of its B-tree and local heap, attributes.
pub open spec fn group_msgs(
    btree_addr: nat,
    heap_addr: nat,
    attrs: Seq<(Seq<u8>, AttrModel)>,
) -> Result<Seq<MsgModel>, ErrorKind> {
    with_attr_msgs(
        seq![
            MsgModel {
                kind: MSG_SYMBOL_TABLE,
                flags: 0,
                body: le_bytes(btree_addr, 8) + le_bytes(heap_addr, 8),
            },
        ],
        attrs,
    )
}

/// The object header of a group.
pub open spec fn group_header(
    btree_addr: nat,
    heap_addr: nat,
    attrs: Seq<(Seq<u8>, AttrModel)>,
) -> Result<Seq<u8>, ErrorKind> {
    match group_msgs(btree_addr, heap_addr, attrs) {
        Err(kind) => Err(kind),
        Ok(msgs) => object_header(msgs),
    }
}

/// The bytes that the messages of attributes take.
pub open spec fn attrs_len(attrs: Seq<(Seq<u8>, AttrModel)>) -> nat
    decreases attrs.len(),
{
    if attrs.len() == 0 {
        0
    } else {
        attrs_len(attrs.drop_last()) + msg_len(attr_body_len(attrs.last().0, attrs.last().1))
    }
}

/// The bytes that the object header of a dataset takes.
pub open spec fn dataset_header_len(
    ndims: nat,
    elem_type: ElemType,
    chunked: bool,
    attrs: Seq<(Seq<u8>, AttrModel)>,
) -> nat {
    16 + msg_len(8 + ndims * 16) + msg_len(dt_body_size_of(elem_type)) + msg_len(8) + msg_len(
        layout_len(ndims, chunked),
    ) + attrs_len(attrs)
}

/// The bytes that the object header of a group takes.
pub open spec fn group_header_len(attrs: Seq<(Seq<u8>, AttrModel)>) -> nat {
    40 + attrs_len(attrs)
}

/// Whether every list of strings among the attributes is well formed.
pub open spec fn attrs_wf(attrs: Seq<(Seq<u8>, AttrModel)>) -> bool {
    forall|i: int| 0 <= i < attrs.len() ==> (#[trigger] attrs[i]).1.wf()
}

proof fn lemma_with_attrs_len(msgs: Seq<MsgModel>, attrs: Seq<(Seq<u8>, AttrModel)>)
    requires
        attrs_wf(attrs),
    ensures
        with_attr_msgs(msgs, attrs) is Ok ==> messages_len(with_attr_msgs(msgs, attrs)->Ok_0)
            == messages_len(msgs) + attrs_len(attrs),
    decreases attrs.len(),
{
    if attrs.len() > 0 {
        let front = attrs.drop_last();
        assert forall|i: int| 0 <= i < front.len() implies (#[trigger] front[i]).1.wf() by {
            assert(front[i] == attrs[i]);
        }
        lemma_with_attrs_len(msgs, front);
        assert(attrs[attrs.len() - 1].1.wf());
        law_attr_body_size(attrs.last().0, attrs.last().1);
        if with_attr_msgs(msgs, attrs) is Ok {
            let all = with_attr_msgs(msgs, attrs)->Ok_0;
            assert(all.drop_last() =~= with_attr_msgs(msgs, front)->Ok_0);
        }
    }
}

proof fn lemma_pipeline_len(msgs: Seq<MsgModel>, ds: DatasetDesc)
    ensures
        messages_len(msgs + pipeline_msgs(ds)) == messages_len(msgs) + pipeline_len(ds),
{
    match ds.filter {
        None => {
            assert(msgs + pipeline_msgs(ds) =~= msgs);
        },
        Some(Filter::Deflate { level }) => {
            law_deflate_body_sizes(level);
            assert((msgs + pipeline_msgs(ds)).drop_last() =~= msgs);
        },
    }
}

/// The object header of a dataset takes as many bytes as are set aside for it.
pub proof fn law_dataset_header_len(
    ds: DatasetDesc,
    data_addr: nat,
    btree_addr: nat,
    attrs: Seq<(Seq<u8>, AttrModel)>,
)
    requires
        attrs_wf(attrs),
    ensures
        dataset_header(ds, data_addr, btree_addr, attrs) is Ok ==> dataset_header(
            ds,
            data_addr,
            btree_addr,
            attrs,
        )->Ok_0.len() == dataset_header_len(
            ds.shape@.len(),
            ds.elem_type,
            ds.storage is Chunked,
            attrs,
        ) + pipeline_len(ds),
{
    if let Ok(layout) = layout_image(ds, data_addr, btree_addr) {
        let space = dataspace_image(nats(ds.shape@), ds.grows());
        let a = MsgModel { kind: MSG_DATASPACE, flags: 0, body: space };
        let b = MsgModel { kind: MSG_DATATYPE, flags: 1, body: datatype_image(ds.elem_type) };
        let c = MsgModel { kind: MSG_FILL_VALUE, flags: 1, body: fill_image() };
        let d = MsgModel { kind: MSG_LAYOUT, flags: 0, body: layout };
        let msgs = seq![a, b, c, d];
        lemma_words_len(nats(ds.shape@));
        lemma_words_len(max_extents(nats(ds.shape@), ds.grows()));
        law_datatype_body_size(ds.elem_type);
        lemma_le_bytes_len(data_addr, 8);
        lemma_le_bytes_len(btree_addr, 8);
        lemma_le_bytes_len(ds.data_size(), 8);
        lemma_halves_len(full_chunk_shape(ds).push(byte_size_of(ds.elem_type)));
        lemma_pipeline_len(msgs, ds);
        lemma_with_attrs_len(msgs + pipeline_msgs(ds), attrs);
        assert(msgs.drop_last() =~= seq![a, b, c]);
        assert(seq![a, b, c].drop_last() =~= seq![a, b]);
        assert(seq![a, b].drop_last() =~= seq![a]);
        assert(seq![a].drop_last() =~= Seq::<MsgModel>::empty());
        reveal_with_fuel(messages_len, 5);
        assert(space.len() == 8 + ds.shape@.len() * 16);
        assert(layout.len() == layout_len(ds.shape@.len(), ds.storage is Chunked));
        if let Ok(all) = dataset_msgs(ds, data_addr, btree_addr, attrs) {
            lemma_header_len(all);
        }
    }
}

/// The object header of a group takes as many bytes as are set aside for it.
pub proof fn law_group_header_len(
    btree_addr: nat,
    heap_addr: nat,
    attrs: Seq<(Seq<u8>, AttrModel)>,
)
    requires
        attrs_wf(attrs),
    ensures
        group_header(btree_addr, heap_addr, attrs) is Ok ==> group_header(
            btree_addr,
            heap_addr,
            attrs,
        )->Ok_0.len() == group_header_len(attrs),
{
    let m = MsgModel {
        kind: MSG_SYMBOL_TABLE,
        flags: 0,
        body: le_bytes(btree_addr, 8) + le_bytes(heap_addr, 8),
    };
    lemma_le_bytes_len(btree_addr, 8);
    lemma_le_bytes_len(heap_addr, 8);
    lemma_with_attrs_len(seq![m], attrs);
    assert(seq![m].drop_last() =~= Seq::<MsgModel>::empty());
    reveal_with_fuel(messages_len, 2);
    if let Ok(all) = group_msgs(btree_addr, heap_addr, attrs) {
        lemma_header_len(all);
    }
}

fn dataspace_bytes(shape: &[usize], grows: bool) -> (r: Vec<u8>)
    requires
        shape@.len() <= u8::MAX,
    ensures
        r@ == dataspace_image(nats(shape@), grows),
{
    let mut body: Vec<u8> = vec![1u8, shape.len() as u8, 1];
    let ghost dims = nats(shape@);
    let ghost largest = max_extents(dims, grows);
    proof {
        assert(body@ =~= seq![1u8, shape@.len() as u8, 1u8]);
    }
    push_zeros(&mut body, 5);
    let ghost head = body@;
    proof {
        assert(dims.take(0) =~= Seq::<nat>::empty());
        assert(largest.take(0) =~= Seq::<nat>::empty());
        assert(head + Seq::<u8>::empty() =~= head);
    }
    for i in 0..shape.len()
        invariant
            dims == nats(shape@),
            body@ == head + words_image(dims.take(i as int)),
    {
        push_le(&mut body, shape[i] as u64, 8);
        proof {
            assert(dims.take(i + 1).drop_last() =~= dims.take(i as int));
            assert(body@ =~= head + words_image(dims.take(i + 1)));
        }
    }
    let ghost middle = body@;
    proof {
        assert(dims.take(shape@.len() as int) =~= dims);
        assert(middle + Seq::<u8>::empty() =~= middle);
    }
    for i in 0..shape.len()
        invariant
            dims == nats(shape@),
            largest == max_extents(dims, grows),
            body@ == middle + words_image(largest.take(i as int)),
    {
        let extent: u64 = if grows && i == 0 {
            u64::MAX
        } else {
            shape[i] as u64
        };
        push_le(&mut body, extent, 8);
        proof {
            assert(largest.take(i + 1).drop_last() =~= largest.take(i as int));
            assert(body@ =~= middle + words_image(largest.take(i + 1)));
        }
    }
    proof {
        assert(largest.take(shape@.len() as int) =~= largest);
    }
    body
}

fn fill_bytes() -> (r: Vec<u8>)
    ensures
        r@ == fill_image(),
{
    let mut body: Vec<u8> = vec![2u8, 2, 2, 1];
    proof {
        assert(body@ =~= seq![2u8, 2u8, 2u8, 1u8]);
    }
    push_zeros(&mut body, 4);
    body
}

/// A contiguous layout body.
pub fn contiguous_layout_body(data_addr: u64, data_size: u64) -> (r: Vec<u8>)
    ensures
        r@ == contiguous_image(data_addr as nat, data_size as nat),
{
    let mut body: Vec<u8> = vec![3u8, 1];
    proof {
        assert(body@ =~= seq![3u8, 1u8]);
    }
    push_le(&mut body, data_addr, 8);
    push_le(&mut body, data_size, 8);
    push_zeros(&mut body, 6);
    body
}

/// A chunked layout body; the chunk shape is completed from the dataset's shape.
pub fn chunked_layout_body(ds: &DatasetDesc, chunk_shape: &[usize], btree_addr: u64) -> (r: Result<
    Vec<u8>,
    OxiH5Error,
>)
    requires
        ds.storage is Chunked,
        ds.storage->chunk_shape@ == chunk_shape@,
        ds.shape@.len() < u8::MAX,
    ensures
        outcome(r) == layout_image(*ds, 0, btree_addr as nat),
{
    let n: usize = ds.shape.len();
    let ghost shape = full_chunk_shape(*ds);
    let ghost all = shape.push(byte_size_of(ds.elem_type));
    let mut body: Vec<u8> = vec![3u8, 2, n as u8 + 1];
    proof {
        assert(body@ =~= seq![3u8, 2u8, (shape.len() + 1) as u8]);
    }
    push_le(&mut body, btree_addr, 8);
    let ghost head = body@;
    proof {
        assert(all.take(0) =~= Seq::<nat>::empty());
        assert(head + Seq::<u8>::empty() =~= head);
    }
    for i in 0..n
        invariant
            n == ds.shape@.len(),
            ds.storage is Chunked,
            ds.storage->chunk_shape@ == chunk_shape@,
            shape == full_chunk_shape(*ds),
            shape.len() == n,
            all == shape.push(byte_size_of(ds.elem_type)),
            forall|k: int| 0 <= k < i ==> #[trigger] shape[k] <= u32::MAX,
            body@ == head + halves_image(all.take(i as int)),
    {
        let extent: usize = if i < chunk_shape.len() {
            chunk_shape[i]
        } else {
            ds.shape[i]
        };
        assert(shape[i as int] == extent);
        let field: u32 = narrow_u32("chunk extent", extent)?;
        push_le(&mut body, field as u64, 4);
        proof {
            assert(all.take(i + 1).drop_last() =~= all.take(i as int));
            assert(body@ =~= head + halves_image(all.take(i + 1)));
        }
    }
    push_le(&mut body, ds.elem_type.byte_size() as u64, 4);
    proof {
        assert(all.take(n + 1).drop_last() =~= all.take(n as int));
        assert(all.take(n + 1) =~= all);
        assert(body@ =~= head + halves_image(all));
    }
    Ok(body)
}

fn layout_bytes(ds: &DatasetDesc, data_addr: u64, btree_addr: u64) -> (r: Result<
    Vec<u8>,
    OxiH5Error,
>)
    requires
        rank_fits(*ds),
        ds.data_size() <= usize::MAX,
    ensures
        outcome(r) == layout_image(*ds, data_addr as nat, btree_addr as nat),
{
    match ds.chunked() {
        None => Ok(contiguous_layout_body(data_addr, ds.data_len() as u64)),
        Some((chunk_shape, _)) => chunked_layout_body(ds, chunk_shape, btree_addr),
    }
}

/// Append a message for each attribute.
fn push_attr_msgs<'a>(msgs: &mut Vec<Msg>, attrs: &[ResolvedAttr<'a>]) -> (r: Result<
    (),
    OxiH5Error,
>)
    requires
        attrs_wf(attr_pairs(attrs@)),
        attrs_len(attr_pairs(attrs@)) <= usize::MAX,
    ensures
        match with_attr_msgs(views(old(msgs)@), attr_pairs(attrs@)) {
            Ok(all) => r is Ok && views(final(msgs)@) == all,
            Err(kind) => r is Err && r->Err_0@ == kind,
        },
{
    let ghost front = views(msgs@);
    let ghost all = attr_pairs(attrs@);
    proof {
        assert(all.take(0) =~= Seq::<(Seq<u8>, AttrModel)>::empty());
    }
    for i in 0..attrs.len()
        invariant
            all == attr_pairs(attrs@),
            attrs_wf(all),
            attrs_len(all) <= usize::MAX,
            front == views(old(msgs)@),
            with_attr_msgs(front, all.take(i as int)) == Ok::<Seq<MsgModel>, ErrorKind>(
                views(msgs@),
            ),
    {
        let ghost before = views(msgs@);
        proof {
            assert(all.take(i + 1).drop_last() =~= all.take(i as int));
            assert(all.take(i + 1).last() == attr_pair(attrs@[i as int]));
            assert(all[i as int].1.wf());
            lemma_attrs_len_take(all, i + 1);
            if attr_image(attrs@[i as int].name_bytes(), attrs@[i as int].kind@) is Err {
                lemma_attr_msgs_fail(front, all, i + 1);
            }
        }
        let body: Vec<u8> = attrs[i].body_bytes()?;
        msgs.push(Msg { kind: MSG_ATTRIBUTE, flags: 0, body });
        proof {
            assert(views(msgs@) =~= before.push(
                MsgModel { kind: MSG_ATTRIBUTE, flags: 0, body: body@ },
            ));
        }
    }
    proof {
        assert(all.take(attrs@.len() as int) =~= all);
    }
    Ok(())
}

pub proof fn lemma_attrs_len_take(attrs: Seq<(Seq<u8>, AttrModel)>, i: int)
    requires
        0 <= i <= attrs.len(),
    ensures
        attrs_len(attrs.take(i)) <= attrs_len(attrs),
    decreases attrs.len() - i,
{
    if i < attrs.len() {
        lemma_attrs_len_take(attrs, i + 1);
        assert(attrs.take(i + 1).drop_last() =~= attrs.take(i));
    } else {
        assert(attrs.take(i) =~= attrs);
    }
}

proof fn lemma_attr_msgs_fail(msgs: Seq<MsgModel>, attrs: Seq<(Seq<u8>, AttrModel)>, i: int)
    requires
        0 <= i <= attrs.len(),
        with_attr_msgs(msgs, attrs.take(i)) is Err,
    ensures
        with_attr_msgs(msgs, attrs) == with_attr_msgs(msgs, attrs.take(i)),
    decreases attrs.len(),
{
    if i < attrs.len() {
        assert(attrs.drop_last().take(i) =~= attrs.take(i));
        lemma_attr_msgs_fail(msgs, attrs.drop_last(), i);
    } else {
        assert(attrs.take(i) =~= attrs);
    }
}

/// The object header of a dataset whose data, or whose index, is at that address.
pub fn dataset_header_bytes<'a>(
    ds: &DatasetDesc,
    data_addr: u64,
    btree_addr: u64,
    attrs: &[ResolvedAttr<'a>],
) -> (r: Result<Vec<u8>, OxiH5Error>)
    requires
        ds.data_size() <= usize::MAX,
        attrs_wf(attr_pairs(attrs@)),
        attrs_len(attr_pairs(attrs@)) <= usize::MAX,
    ensures
        outcome(r) == dataset_header(
            *ds,
            data_addr as nat,
            btree_addr as nat,
            attr_pairs(attrs@),
        ),
{
    let most: usize = if ds.chunked().is_some() {
        254
    } else {
        255
    };
    if ds.shape.len() > most {
        return Err(OxiH5Error::Format("dataset has too many dimensions".to_string()));
    }
    let layout: Vec<u8> = layout_bytes(ds, data_addr, btree_addr)?;
    let mut msgs: Vec<Msg> = Vec::new();
    msgs.push(
        Msg {
            kind: MSG_DATASPACE,
            flags: 0,
            body: dataspace_bytes(&ds.shape, ds.unlimited_dim0()),
        },
    );
    msgs.push(Msg { kind: MSG_DATATYPE, flags: 1, body: datatype_bytes(ds.elem_type) });
    msgs.push(Msg { kind: MSG_FILL_VALUE, flags: 1, body: fill_bytes() });
    msgs.push(Msg { kind: MSG_LAYOUT, flags: 0, body: layout });
    if let Some(Filter::Deflate { level }) = &ds.filter {
        let mut body: Vec<u8> = Vec::new();
        push_zeros(&mut body, V1_BODY);
        write_deflate_body(&mut body, 0, *level);
        proof {
            law_deflate_body_sizes(*level);
            assert(body@ =~= deflate_image(*level));
        }
        msgs.push(Msg { kind: MSG_FILTER_PIPELINE, flags: 1, body });
    }
    proof {
        assert(views(msgs@) =~= seq![
            MsgModel {
                kind: MSG_DATASPACE,
                flags: 0,
                body: dataspace_image(nats(ds.shape@), ds.grows()),
            },
            MsgModel { kind: MSG_DATATYPE, flags: 1, body: datatype_image(ds.elem_type) },
            MsgModel { kind: MSG_FILL_VALUE, flags: 1, body: fill_image() },
            MsgModel { kind: MSG_LAYOUT, flags: 0, body: layout@ },
        ] + pipeline_msgs(*ds));
    }
    push_attr_msgs(&mut msgs, attrs)?;
    header_bytes(&msgs)
}

/// The object header of a group.
pub fn group_header_bytes<'a>(btree_addr: u64, heap_addr: u64, attrs: &[ResolvedAttr<'a>]) -> (r:
    Result<Vec<u8>, OxiH5Error>)
    requires
        attrs_wf(attr_pairs(attrs@)),
        attrs_len(attr_pairs(attrs@)) <= usize::MAX,
    ensures
        outcome(r) == group_header(btree_addr as nat, heap_addr as nat, attr_pairs(attrs@)),
{
    let mut body: Vec<u8> = Vec::new();
    push_le(&mut body, btree_addr, 8);
    push_le(&mut body, heap_addr, 8);
    let mut msgs: Vec<Msg> = Vec::new();
    msgs.push(Msg { kind: MSG_SYMBOL_TABLE, flags: 0, body });
    proof {
        assert(body@ =~= le_bytes(btree_addr as nat, 8) + le_bytes(heap_addr as nat, 8));
        assert(views(msgs@) =~= seq![
            MsgModel {
                kind: MSG_SYMBOL_TABLE,
                flags: 0,
                body: le_bytes(btree_addr as nat, 8) + le_bytes(heap_addr as nat, 8),
            },
        ]);
    }
    push_attr_msgs(&mut msgs, attrs)?;
    header_bytes(&msgs)
}

/// The bytes that the messages of attributes take.
pub fn attrs_total<'a>(attrs: &[ResolvedAttr<'a>]) -> (r: usize)
    requires
        attrs_len(attr_pairs(attrs@)) <= usize::MAX,
    ensures
        r == attrs_len(attr_pairs(attrs@)),
{
    let ghost all = attr_pairs(attrs@);
    let mut total: usize = 0;
    proof {
        assert(all.take(0) =~= Seq::<(Seq<u8>, AttrModel)>::empty());
    }
    for i in 0..attrs.len()
        invariant
            all == attr_pairs(attrs@),
            attrs_len(all) <= usize::MAX,
            total == attrs_len(all.take(i as int)),
    {
        proof {
            assert(all.take(i + 1).drop_last() =~= all.take(i as int));
            assert(all.take(i + 1).last() == attr_pair(attrs@[i as int]));
            lemma_attrs_len_take(all, i + 1);
        }
        total = total + msg_total(attrs[i].body_size());
    }
    proof {
        assert(all.take(attrs@.len() as int) =~= all);
    }
    total
}

/// The bytes that the object header of a dataset takes.
pub fn compute_oh_size<'a>(
    ndims: usize,
    elem_type: ElemType,
    attrs: &[ResolvedAttr<'a>],
    chunked: bool,
) -> (r: usize)
    requires
        dataset_header_len(ndims as nat, elem_type, chunked, attr_pairs(attrs@)) <= usize::MAX,
    ensures
        r == dataset_header_len(ndims as nat, elem_type, chunked, attr_pairs(attrs@)),
{
    let layout: usize = if chunked {
        11 + (ndims + 1) * 4
    } else {
        24
    };
    16 + msg_total(8 + ndims * 16) + msg_total(elem_type.dt_body_size()) + msg_total(8) + msg_total(
        layout,
    ) + attrs_total(attrs)
}

/// The bytes that the object header of a group takes.
pub fn compute_group_oh_size<'a>(attrs: &[ResolvedAttr<'a>]) -> (r: usize)
    requires
        group_header_len(attr_pairs(attrs@)) <= usize::MAX,
    ensures
        r == group_header_len(attr_pairs(attrs@)),
{
    GROUP_OH_SIZE + attrs_total(attrs)
}

/// Write the object header of a dataset at `oh_addr`.
pub fn write_dataset_oh<'a>(
    buf: &mut Vec<u8>,
    oh_addr: usize,
    ds: &DatasetDesc,
    data_addr: u64,
    btree_addr: u64,
    attrs: &[ResolvedAttr<'a>],
) -> (r: Result<(), OxiH5Error>)
    requires
        ds.data_size() <= usize::MAX,
        attrs_wf(attr_pairs(attrs@)),
        oh_addr + dataset_header_len(
            ds.shape@.len(),
            ds.elem_type,
            ds.storage is Chunked,
            attr_pairs(attrs@),
        ) + pipeline_len(*ds) <= old(buf)@.len(),
    ensures
        match dataset_header(*ds, data_addr as nat, btree_addr as nat, attr_pairs(attrs@)) {
            Ok(image) => r is Ok && final(buf)@ == put(old(buf)@, oh_addr as int, image),
            Err(kind) => r is Err && r->Err_0@ == kind && final(buf)@ == old(buf)@,
        },
{
    assert(buf.len() <= usize::MAX);
    proof {
        law_dataset_header_len(*ds, data_addr as nat, btree_addr as nat, attr_pairs(attrs@));
    }
    let image: Vec<u8> = dataset_header_bytes(ds, data_addr, btree_addr, attrs)?;
    put_bytes(buf, oh_addr, &image);
    Ok(())
}

/// Write the object header of a group at `base`.
pub fn write_group_oh<'a>(
    buf: &mut Vec<u8>,
    base: usize,
    btree_addr: u64,
    heap_addr: u64,
    attrs: &[ResolvedAttr<'a>],
) -> (r: Result<(), OxiH5Error>)
    requires
        attrs_wf(attr_pairs(attrs@)),
        base + group_header_len(attr_pairs(attrs@)) <= old(buf)@.len(),
    ensures
        match group_header(btree_addr as nat, heap_addr as nat, attr_pairs(attrs@)) {
            Ok(image) => r is Ok && final(buf)@ == put(old(buf)@, base as int, image),
            Err(kind) => r is Err && r->Err_0@ == kind && final(buf)@ == old(buf)@,
        },
{
    assert(buf.len() <= usize::MAX);
    proof {
        law_group_header_len(btree_addr as nat, heap_addr as nat, attr_pairs(attrs@));
    }
    let image: Vec<u8> = group_header_bytes(btree_addr, heap_addr, attrs)?;
    put_bytes(buf, base, &image);
    Ok(())
}

} // verus!
