//! Objects: what the messages of a header make of a dataset.

use vstd::prelude::*;
use crate::chunk_reader::ChunkIndexCache;
use crate::dataset::{attribute_named, Dataset};
use crate::dataset_reader::{
    attributes_in, parse_parts, parts_at, read_attributes_from_header,
    read_dataset_from_object_header, said_in, DatasetParts, PartsModel, Said, MSG_ATTRIBUTE,
    MSG_DATASPACE, MSG_DATATYPE, MSG_FILL_VALUE, MSG_LAYOUT, MSG_PIPELINE,
};
use crate::datatype::datatype_in;
use crate::dims::ints;
use crate::dtype::{views, DtypeModel};
use crate::error::{outcome, outcomes, ErrorKind, OxiH5Error};
use crate::header::{messages_at, MessageModel};
use crate::message::{
    attribute_in, dataspace_in, fill_value_in, layout_in, pipeline_in, ExtentModel,
};
use crate::object::{Attribute, AttributeModel, FilterModel, FilterPipeline, LayoutModel};

verus! {

/// Whether the message at `at` is the only one of that type.
pub open spec fn only_message(messages: Seq<MessageModel>, at: int, msg_type: u16) -> bool {
    &&& 0 <= at < messages.len()
    &&& forall|i: int|
        0 <= i < messages.len() ==> ((#[trigger] messages[i]).msg_type == msg_type <==> i == at)
}

/// Whether there is no message of that type.
pub open spec fn no_message(messages: Seq<MessageModel>, msg_type: u16) -> bool {
    forall|i: int| 0 <= i < messages.len() ==> (#[trigger] messages[i]).msg_type != msg_type
}

/// The header of a dataset says its extent, its type, its layout, its filters and its fill
/// value in one message each, whatever their order; without a message there are no filters,
/// and there is no fill value.
pub proof fn law_parts_of_dataset(
    file: &[u8],
    address: u64,
    name: &str,
    messages: Seq<MessageModel>,
    space: int,
    dtype: int,
    layout: int,
    pipeline: Option<int>,
    fill: Option<int>,
    parts: PartsModel,
    r: Result<DatasetParts, OxiH5Error>,
)
    requires
        messages_at(file@, address as int) == Ok::<Seq<MessageModel>, ErrorKind>(messages),
        only_message(messages, space, MSG_DATASPACE),
        only_message(messages, dtype, MSG_DATATYPE),
        only_message(messages, layout, MSG_LAYOUT),
        match pipeline {
            Some(at) => only_message(messages, at, MSG_PIPELINE),
            None => no_message(messages, MSG_PIPELINE),
        },
        match fill {
            Some(at) => only_message(messages, at, MSG_FILL_VALUE),
            None => no_message(messages, MSG_FILL_VALUE),
        },
        dataspace_in(messages[space].data) == Ok::<ExtentModel, ErrorKind>(parts.extent),
        datatype_in(messages[dtype].data) == Ok::<DtypeModel, ErrorKind>(parts.dtype),
        layout_in(messages[layout].data) == Ok::<LayoutModel, ErrorKind>(parts.layout),
        match pipeline {
            Some(at) => pipeline_in(messages[at].data) == Ok::<Seq<FilterModel>, ErrorKind>(
                parts.filters,
            ),
            None => parts.filters.len() == 0,
        },
        match fill {
            Some(at) => fill_value_in(messages[at].data) == Ok::<Seq<u8>, ErrorKind>(parts.fill),
            None => parts.fill.len() == 0,
        },
        call_ensures(parse_parts, (file, address, name), r),
    ensures
        outcome(r) == Ok::<PartsModel, ErrorKind>(parts),
{
    lemma_said(messages, space, dtype, layout, pipeline, fill, parts, messages.len());
    assert(parts.filters.len() == 0 ==> parts.filters =~= Seq::empty());
    assert(parts.fill.len() == 0 ==> parts.fill =~= Seq::empty());
}

proof fn lemma_said(
    messages: Seq<MessageModel>,
    space: int,
    dtype: int,
    layout: int,
    pipeline: Option<int>,
    fill: Option<int>,
    parts: PartsModel,
    k: nat,
)
    requires
        k <= messages.len(),
        only_message(messages, space, MSG_DATASPACE),
        only_message(messages, dtype, MSG_DATATYPE),
        only_message(messages, layout, MSG_LAYOUT),
        match pipeline {
            Some(at) => only_message(messages, at, MSG_PIPELINE),
            None => no_message(messages, MSG_PIPELINE),
        },
        match fill {
            Some(at) => only_message(messages, at, MSG_FILL_VALUE),
            None => no_message(messages, MSG_FILL_VALUE),
        },
        dataspace_in(messages[space].data) == Ok::<ExtentModel, ErrorKind>(parts.extent),
        datatype_in(messages[dtype].data) == Ok::<DtypeModel, ErrorKind>(parts.dtype),
        layout_in(messages[layout].data) == Ok::<LayoutModel, ErrorKind>(parts.layout),
        match pipeline {
            Some(at) => pipeline_in(messages[at].data) == Ok::<Seq<FilterModel>, ErrorKind>(
                parts.filters,
            ),
            None => parts.filters.len() == 0,
        },
        match fill {
            Some(at) => fill_value_in(messages[at].data) == Ok::<Seq<u8>, ErrorKind>(parts.fill),
            None => parts.fill.len() == 0,
        },
    ensures
        said_in(messages, k) == Ok::<Said, ErrorKind>(
            Said {
                extent: if space < k {
                    Some(parts.extent)
                } else {
                    None
                },
                dtype: if dtype < k {
                    Some(parts.dtype)
                } else {
                    None
                },
                layout: if layout < k {
                    Some(parts.layout)
                } else {
                    None
                },
                filters: if pipeline is Some && pipeline->0 < k {
                    Some(parts.filters)
                } else {
                    None
                },
                fill: if fill is Some && fill->0 < k {
                    parts.fill
                } else {
                    Seq::empty()
                },
            },
        ),
    decreases k,
{
    if k > 0 {
        lemma_said(messages, space, dtype, layout, pipeline, fill, parts, (k - 1) as nat);
        let last = messages[k - 1];
        assert(last.msg_type == MSG_DATASPACE <==> k - 1 == space);
        assert(last.msg_type == MSG_DATATYPE <==> k - 1 == dtype);
        assert(last.msg_type == MSG_LAYOUT <==> k - 1 == layout);
        assert(last.msg_type == MSG_PIPELINE <==> pipeline == Some(k - 1));
        assert(last.msg_type == MSG_FILL_VALUE <==> fill == Some(k - 1));
    }
}

/// The elements of a dataset with a compact layout are those in its layout message, and
/// those of one with a contiguous layout the bytes of the file at the address in its layout
/// message; the dataset has the extents and the type that its messages say.
pub proof fn law_dataset_without_chunks<
    P: Fn(&[u8], &FilterPipeline, u32, usize) -> Result<Vec<u8>, OxiH5Error>,
>(
    file: &[u8],
    address: u64,
    name: &str,
    cache: &mut ChunkIndexCache,
    apply_pipeline: &P,
    parts: PartsModel,
    r: Result<Dataset, OxiH5Error>,
    d: int,
)
    requires
        parts_at(file@, address) == Ok::<PartsModel, ErrorKind>(parts),
        call_ensures(
            read_dataset_from_object_header::<P>,
            (file, address, name, cache, apply_pipeline),
            r,
        ),
        0 <= d < parts.extent.dims.len(),
        parts.extent.dims[d] <= usize::MAX,
    ensures
        parts.layout matches LayoutModel::Compact { data } ==> r is Ok && r->Ok_0.data@ == data,
        parts.layout matches LayoutModel::Contiguous { data_address, data_size } ==> {
            &&& r is Ok <==> data_address + data_size <= file@.len()
            &&& r is Ok ==> r->Ok_0.data@ == file@.subrange(
                data_address as int,
                data_address + data_size,
            )
        },
        (parts.layout is Compact || parts.layout is Contiguous) && r is Ok ==> {
            &&& r->Ok_0.dtype@ == parts.dtype
            &&& r->Ok_0.shape@.len() == parts.extent.dims.len()
            &&& r->Ok_0.shape@[d] == parts.extent.dims[d]
        },
{
    if (parts.layout is Compact || parts.layout is Contiguous) && r is Ok {
        let shape = ints(r->Ok_0.shape@);
        assert(shape == crate::dataset_reader::shape_of(parts.extent.dims));
        assert(shape.len() == r->Ok_0.shape@.len());
        assert(shape[d] == r->Ok_0.shape@[d]);
    }
}

/// The attributes of an object are those of its attribute messages, one for each, in their
/// order.
pub proof fn law_attributes_of_object(
    file: &[u8],
    address: u64,
    messages: Seq<MessageModel>,
    at: Seq<int>,
    attributes: Seq<AttributeModel>,
    r: Result<Vec<Attribute>, OxiH5Error>,
)
    requires
        messages_at(file@, address as int) == Ok::<Seq<MessageModel>, ErrorKind>(messages),
        at.len() == attributes.len(),
        forall|i: int| 0 <= i < at.len() ==> 0 <= #[trigger] at[i] < messages.len(),
        forall|i: int, j: int| 0 <= i < j < at.len() ==> #[trigger] at[i] < #[trigger] at[j],
        forall|k: int|
            0 <= k < messages.len() && (#[trigger] messages[k]).msg_type == MSG_ATTRIBUTE
                ==> at.contains(k),
        forall|i: int|
            0 <= i < at.len() ==> {
                &&& messages[#[trigger] at[i]].msg_type == MSG_ATTRIBUTE
                &&& attribute_in(messages[at[i]].data) == Ok::<AttributeModel, ErrorKind>(
                    attributes[i],
                )
            },
        call_ensures(read_attributes_from_header, (file, address), r),
    ensures
        outcomes(r) == Ok::<Seq<AttributeModel>, ErrorKind>(attributes),
{
    lemma_attributes(messages, at, attributes, messages.len(), at.len());
    assert(attributes.take(at.len() as int) =~= attributes);
}

proof fn lemma_attributes(
    messages: Seq<MessageModel>,
    at: Seq<int>,
    attributes: Seq<AttributeModel>,
    k: nat,
    n: nat,
)
    requires
        at.len() == attributes.len(),
        k <= messages.len(),
        n <= at.len(),
        forall|i: int| 0 <= i < at.len() ==> 0 <= #[trigger] at[i] < messages.len(),
        forall|i: int, j: int| 0 <= i < j < at.len() ==> #[trigger] at[i] < #[trigger] at[j],
        forall|j: int|
            0 <= j < messages.len() && (#[trigger] messages[j]).msg_type == MSG_ATTRIBUTE
                ==> at.contains(j),
        forall|i: int|
            0 <= i < at.len() ==> {
                &&& messages[#[trigger] at[i]].msg_type == MSG_ATTRIBUTE
                &&& attribute_in(messages[at[i]].data) == Ok::<AttributeModel, ErrorKind>(
                    attributes[i],
                )
            },
        forall|i: int| 0 <= i < n ==> #[trigger] at[i] < k,
        forall|i: int| n <= i < at.len() ==> k <= #[trigger] at[i],
    ensures
        attributes_in(messages, k) == attributes.take(n as int),
    decreases k,
{
    if k == 0 {
        if n > 0 {
            assert(at[0] < k);
        }
        assert(attributes.take(n as int) =~= Seq::empty());
    } else {
        let last = messages[k - 1];
        if last.msg_type == MSG_ATTRIBUTE {
            assert(at.contains(k - 1));
            let i = choose|i: int| 0 <= i < at.len() && at[i] == k - 1;
            assert(i < n) by {
                if i >= n {
                    assert(k <= at[i]);
                }
            }
            assert(i == n - 1) by {
                if i < n - 1 {
                    assert(at[i] < at[n - 1]);
                }
            }
            assert forall|j: int| 0 <= j < n - 1 implies #[trigger] at[j] < k - 1 by {
                assert(at[j] < at[n - 1]);
            }
            lemma_attributes(messages, at, attributes, (k - 1) as nat, (n - 1) as nat);
            assert(attributes.take(n - 1).push(attributes[i]) =~= attributes.take(n as int));
        } else {
            assert forall|j: int| 0 <= j < n implies #[trigger] at[j] < k - 1 by {
                assert(messages[at[j]].msg_type == MSG_ATTRIBUTE);
                assert(at[j] < k);
            }
            lemma_attributes(messages, at, attributes, (k - 1) as nat, n);
        }
    }
}

/// The attribute that is found by a name is the first of that name; none is found where no
/// attribute has it.
pub proof fn law_first_attribute_is_found(ds: &Dataset, name: &str, r: Option<&Attribute>, i: int)
    requires
        call_ensures(Dataset::attr, (ds, name), r),
    ensures
        0 <= i < ds.attributes@.len() && ds.attributes@[i].name@ == name@ && (forall|j: int|
            0 <= j < i ==> (#[trigger] ds.attributes@[j]).name@ != name@) ==> r is Some && r->0@
            == ds.attributes@[i]@,
        (forall|j: int|
            0 <= j < ds.attributes@.len() ==> (#[trigger] ds.attributes@[j]).name@ != name@)
            ==> r is None,
{
    let all = views(ds.attributes@);
    assert(all == ds@.attributes);
    if 0 <= i < ds.attributes@.len() && ds.attributes@[i].name@ == name@ && (forall|j: int|
        0 <= j < i ==> (#[trigger] ds.attributes@[j]).name@ != name@) {
        assert(all[i] == ds.attributes@[i]@);
        assert forall|j: int| 0 <= j < i implies (#[trigger] all[j]).name != name@ by {
            assert(all[j] == ds.attributes@[j]@);
        }
        lemma_first_attribute(all, name@, i);
    }
    if forall|j: int|
        0 <= j < ds.attributes@.len() ==> (#[trigger] ds.attributes@[j]).name@ != name@ {
        assert forall|j: int| 0 <= j < all.len() implies (#[trigger] all[j]).name != name@ by {
            assert(all[j] == ds.attributes@[j]@);
        }
        lemma_no_attribute(all, name@);
    }
}

proof fn lemma_first_attribute(all: Seq<AttributeModel>, name: Seq<char>, i: int)
    requires
        0 <= i < all.len(),
        all[i].name == name,
        forall|j: int| 0 <= j < i ==> (#[trigger] all[j]).name != name,
    ensures
        attribute_named(all, name) == Some(all[i]),
    decreases all.len(),
{
    if i > 0 {
        assert(all[0].name != name);
        let rest = all.skip(1);
        assert(rest[i - 1] == all[i]);
        assert forall|j: int| 0 <= j < i - 1 implies (#[trigger] rest[j]).name != name by {
            assert(rest[j] == all[j + 1]);
        }
        lemma_first_attribute(rest, name, i - 1);
    }
}

proof fn lemma_no_attribute(all: Seq<AttributeModel>, name: Seq<char>)
    requires
        forall|j: int| 0 <= j < all.len() ==> (#[trigger] all[j]).name != name,
    ensures
        attribute_named(all, name) is None,
    decreases all.len(),
{
    if all.len() > 0 {
        assert(all[0].name != name);
        let rest = all.skip(1);
        assert forall|j: int| 0 <= j < rest.len() implies (#[trigger] rest[j]).name != name by {
            assert(rest[j] == all[j + 1]);
        }
        lemma_no_attribute(rest, name);
    }
}

} // verus!
