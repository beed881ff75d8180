//! Messages of object headers: what their bytes say.

use vstd::prelude::*;
use vstd::utf8::encode_utf8;
use crate::bytes::{
    le_at, le_bytes, lemma_le_bytes_len, lemma_pow256_values, pow256, zeros,
};
use crate::chunk_reader::{index_named, ChunkIndex};
use crate::dtype::{views, ByteOrder, DtypeModel};
use crate::error::{outcome, ErrorKind, OxiH5Error};
use crate::global_heap::align8;
use crate::laws::datatypes::{
    describable, law_type_reads_back, lemma_spelled_all_len, lemma_spelled_at, spelled_all,
    type_image,
};
use crate::link_msg::{flag, link_in, name_len_pos, parse_link, target_in, LinkModel, ParsedLink};
use crate::message::{
    attribute_parts, field_name, filter_at, filters_at, narrow_numbers_at, parse_attribute,
    parse_dataspace, parse_fill_value, parse_filter_pipeline, parse_layout, parse_space,
    parse_symbol_table, DataspaceInfo, ExtentModel, SymbolTableInfo,
};
use crate::object::{
    Attribute, Dataspace, DataspaceModel, FilterModel, FilterPipeline, LayoutInfo, LayoutModel,
};
use crate::roundtrip::held::{held, lemma_held_bytes, lemma_held_number, lemma_held_parts};
use crate::roundtrip::messages::{lemma_words_back, words_of};
use crate::utf8::{lemma_encoded_text, lemma_text_at, nul_free};
use crate::write::attr::{lemma_words_len, padded, words_image};

verus! {

/// 64-bit numbers as mathematical ones.
pub open spec fn wide(dims: Seq<u64>) -> Seq<nat> {
    Seq::new(dims.len(), |i: int| dims[i] as nat)
}

pub proof fn lemma_wide(s: Seq<u8>, pos: int, dims: Seq<u64>)
    requires
        held(s, pos, words_image(wide(dims))),
    ensures
        crate::message::numbers_at(s, pos, dims.len()) == dims,
        words_image(wide(dims)).len() == dims.len() * 8,
{
    lemma_words_len(wide(dims));
    lemma_words_back(s, pos, wide(dims));
    assert(words_of(wide(dims)) =~= dims);
}

pub proof fn lemma_itself(s: Seq<u8>)
    ensures
        held(s, 0, s),
{
    assert(s.subrange(0, s.len() as int) =~= s);
}

/// A dataspace message of version 1 or 2: the version, the number of dimensions, whether
/// there are largest extents; in version 1 five more bytes, in version 2 the kind of
/// dataspace; the extents; the largest extents.
pub open spec fn space_image(
    version: u8,
    kind: u8,
    dims: Seq<u64>,
    max_dims: Option<Seq<u64>>,
) -> Seq<u8> {
    let flags = if max_dims is Some {
        1u8
    } else {
        0u8
    };
    (if version == 1 {
        seq![1u8, dims.len() as u8, flags] + zeros(5)
    } else {
        seq![2u8, dims.len() as u8, flags, kind]
    }) + words_image(wide(dims)) + (match max_dims {
        Some(most) => words_image(wide(most)),
        None => Seq::empty(),
    })
}

/// A dataspace is read as its extents; without dimensions it is a single element, and none
/// where its kind says so.
pub proof fn law_dataspace_message(
    data: &[u8],
    version: u8,
    kind: u8,
    dims: Seq<u64>,
    max_dims: Option<Seq<u64>>,
    extent: Result<DataspaceInfo, OxiH5Error>,
    space: Result<Dataspace, OxiH5Error>,
)
    requires
        version == 1 || version == 2,
        dims.len() <= u8::MAX,
        max_dims is Some ==> max_dims->0.len() == dims.len(),
        data@ == space_image(version, kind, dims, max_dims),
        call_ensures(parse_dataspace, (data,), extent),
        call_ensures(parse_space, (data,), space),
    ensures
        outcome(extent) == Ok::<ExtentModel, ErrorKind>(ExtentModel { dims, max_dims }),
        outcome(space) == Ok::<DataspaceModel, ErrorKind>(
            if version == 2 && kind == 2 {
                DataspaceModel::Null
            } else if dims.len() == 0 {
                DataspaceModel::Scalar
            } else {
                DataspaceModel::Simple { dims, max_dims }
            },
        ),
{
    let s = data@;
    let flags = if max_dims is Some {
        1u8
    } else {
        0u8
    };
    let head = if version == 1 {
        seq![1u8, dims.len() as u8, flags] + zeros(5)
    } else {
        seq![2u8, dims.len() as u8, flags, kind]
    };
    let a = words_image(wide(dims));
    let b = match max_dims {
        Some(most) => words_image(wide(most)),
        None => Seq::empty(),
    };
    lemma_itself(s);
    lemma_held_parts(s, 0, head + a, b);
    lemma_held_parts(s, 0, head, a);
    lemma_held_bytes(s, 0, head);
    assert(head[0] == s[0] && head[1] == s[1] && head[2] == s[2] && head[3] == s[3]);
    lemma_wide(s, head.len() as int, dims);
    if let Some(most) = max_dims {
        lemma_wide(s, (head.len() + dims.len() * 8) as int, most);
    }
}

/// A symbol table message is read as the two addresses in it.
pub proof fn law_symbol_table_message(
    data: &[u8],
    btree: u64,
    heap: u64,
    r: Result<SymbolTableInfo, OxiH5Error>,
)
    requires
        data@ == le_bytes(btree as nat, 8) + le_bytes(heap as nat, 8),
        call_ensures(parse_symbol_table, (data,), r),
    ensures
        r is Ok,
        r->Ok_0.btree_address == btree,
        r->Ok_0.heap_address == heap,
{
    lemma_itself(data@);
    lemma_le_bytes_len(btree as nat, 8);
    lemma_le_bytes_len(heap as nat, 8);
    lemma_pow256_values();
    lemma_held_parts(data@, 0, le_bytes(btree as nat, 8), le_bytes(heap as nat, 8));
    lemma_held_number(data@, 0, btree as nat, 8);
    lemma_held_number(data@, 8, heap as nat, 8);
}

/// A compact layout holds the elements themselves.
pub proof fn law_compact_layout(
    data: &[u8],
    version: u8,
    elements: Seq<u8>,
    r: Result<LayoutInfo, OxiH5Error>,
)
    requires
        version == 3 || version == 4,
        elements.len() <= u16::MAX,
        data@ == seq![version, 0u8] + le_bytes(elements.len(), 2) + elements,
        call_ensures(parse_layout, (data,), r),
    ensures
        outcome(r) == Ok::<LayoutModel, ErrorKind>(LayoutModel::Compact { data: elements }),
{
    let s = data@;
    lemma_itself(s);
    lemma_le_bytes_len(elements.len(), 2);
    lemma_pow256_values();
    let head = seq![version, 0u8];
    lemma_held_parts(s, 0, head + le_bytes(elements.len(), 2), elements);
    lemma_held_parts(s, 0, head, le_bytes(elements.len(), 2));
    lemma_held_bytes(s, 0, head);
    assert(head[0] == s[0] && head[1] == s[1]);
    lemma_held_number(s, 2, elements.len(), 2);
}

/// A contiguous layout says where the elements are, and how many bytes they take.
pub proof fn law_contiguous_layout(
    data: &[u8],
    version: u8,
    address: u64,
    size: u64,
    r: Result<LayoutInfo, OxiH5Error>,
)
    requires
        version == 3 || version == 4,
        data@ == seq![version, 1u8] + le_bytes(address as nat, 8) + le_bytes(size as nat, 8),
        call_ensures(parse_layout, (data,), r),
    ensures
        outcome(r) == Ok::<LayoutModel, ErrorKind>(
            LayoutModel::Contiguous { data_address: address, data_size: size },
        ),
{
    let s = data@;
    lemma_itself(s);
    let head = seq![version, 1u8];
    let a = le_bytes(address as nat, 8);
    let b = le_bytes(size as nat, 8);
    lemma_le_bytes_len(address as nat, 8);
    lemma_le_bytes_len(size as nat, 8);
    lemma_pow256_values();
    lemma_held_parts(s, 0, head + a, b);
    lemma_held_parts(s, 0, head, a);
    lemma_held_bytes(s, 0, head);
    assert(head[0] == s[0] && head[1] == s[1]);
    lemma_held_number(s, 2, address as nat, 8);
    lemma_held_number(s, 10, size as nat, 8);
}

proof fn lemma_narrow(s: Seq<u8>, pos: int, dims: Seq<u64>, width: nat)
    requires
        held(s, pos, spelled_all(wide(dims), width, ByteOrder::Little)),
        forall|i: int| 0 <= i < dims.len() ==> #[trigger] dims[i] < pow256(width),
    ensures
        narrow_numbers_at(s, pos, dims.len(), width) == dims,
        spelled_all(wide(dims), width, ByteOrder::Little).len() == dims.len() * width,
{
    lemma_spelled_all_len(wide(dims), width, ByteOrder::Little);
    let found = narrow_numbers_at(s, pos, dims.len(), width);
    assert forall|i: int| 0 <= i < dims.len() implies #[trigger] found[i] == dims[i] by {
        assert(dims[i] < pow256(width));
        assert(wide(dims)[i] == dims[i]);
        lemma_spelled_at(s, pos, wide(dims), width, ByteOrder::Little, i);
    }
    assert(found =~= dims);
}

/// A chunked layout of version 3 says where the B-tree over the chunks is, and the extents
/// of a chunk with the size of an element behind them.
pub proof fn law_chunked_layout(
    data: &[u8],
    address: u64,
    dims: Seq<u64>,
    r: Result<LayoutInfo, OxiH5Error>,
)
    requires
        dims.len() <= u8::MAX,
        forall|i: int| 0 <= i < dims.len() ==> #[trigger] dims[i] <= u32::MAX,
        data@ == seq![3u8, 2u8, dims.len() as u8] + le_bytes(address as nat, 8) + spelled_all(
            wide(dims),
            4,
            ByteOrder::Little,
        ),
        call_ensures(parse_layout, (data,), r),
    ensures
        r is Ok,
        r->Ok_0@ is Chunked,
        r->Ok_0@->Chunked_data_address == address,
        r->Ok_0@->chunk_dims == dims,
        index_named(r->Ok_0@->index_type) == Some(ChunkIndex::BTreeV1),
{
    let s = data@;
    lemma_itself(s);
    lemma_pow256_values();
    let head = seq![3u8, 2u8, dims.len() as u8];
    let a = le_bytes(address as nat, 8);
    let b = spelled_all(wide(dims), 4, ByteOrder::Little);
    lemma_le_bytes_len(address as nat, 8);
    lemma_held_parts(s, 0, head + a, b);
    lemma_held_parts(s, 0, head, a);
    lemma_held_bytes(s, 0, head);
    assert(head[0] == s[0] && head[1] == s[1] && head[2] == s[2]);
    lemma_held_number(s, 3, address as nat, 8);
    lemma_narrow(s, 11, dims, 4);
}

/// What a version 4 layout says about an index before its address: for a fixed array a
/// byte, for an extensible array five, for a B-tree six.
pub open spec fn index_details(index: ChunkIndex) -> nat {
    match index {
        ChunkIndex::FixedArray => 1,
        ChunkIndex::ExtensibleArray => 5,
        _ => 6,
    }
}

/// The number of an index in a version 4 layout.
pub open spec fn index_number(index: ChunkIndex) -> u8 {
    match index {
        ChunkIndex::FixedArray => 3,
        ChunkIndex::ExtensibleArray => 4,
        _ => 5,
    }
}

/// A chunked layout of version 4 says the extents of a chunk in numbers of a given width,
/// which index lists the chunks, and where it is.
pub proof fn law_chunked_layout_v4(
    data: &[u8],
    flags: u8,
    width: u8,
    address: u64,
    dims: Seq<u64>,
    index: ChunkIndex,
    details: Seq<u8>,
    r: Result<LayoutInfo, OxiH5Error>,
)
    requires
        index != ChunkIndex::BTreeV1,
        1 <= width <= 8,
        dims.len() <= u8::MAX,
        forall|i: int| 0 <= i < dims.len() ==> #[trigger] dims[i] < pow256(width as nat),
        details.len() == index_details(index),
        data@ == seq![4u8, 2u8, flags, dims.len() as u8, width] + spelled_all(
            wide(dims),
            width as nat,
            ByteOrder::Little,
        ) + seq![index_number(index)] + details + le_bytes(address as nat, 8),
        call_ensures(parse_layout, (data,), r),
    ensures
        r is Ok,
        r->Ok_0@ is Chunked,
        r->Ok_0@->Chunked_data_address == address,
        r->Ok_0@->chunk_dims == dims,
        index_named(r->Ok_0@->index_type) == Some(index),
{
    let s = data@;
    lemma_itself(s);
    lemma_pow256_values();
    let head = seq![4u8, 2u8, flags, dims.len() as u8, width];
    let a = spelled_all(wide(dims), width as nat, ByteOrder::Little);
    let b = seq![index_number(index)];
    let c = le_bytes(address as nat, 8);
    lemma_le_bytes_len(address as nat, 8);
    lemma_held_parts(s, 0, head + a + b + details, c);
    lemma_held_parts(s, 0, head + a + b, details);
    lemma_held_parts(s, 0, head + a, b);
    lemma_held_parts(s, 0, head, a);
    lemma_held_bytes(s, 0, head);
    assert(head[0] == s[0] && head[1] == s[1] && head[3] == s[3] && head[4] == s[4]);
    lemma_narrow(s, 5, dims, width as nat);
    let at = 5 + a.len();
    lemma_held_bytes(s, at as int, b);
    assert(b[0] == s[at as int]);
    lemma_held_number(s, (at + 1 + details.len()) as int, address as nat, 8);
}

/// A virtual layout says which object of which collection lists the sources.
pub proof fn law_virtual_layout(
    data: &[u8],
    address: u64,
    index: u32,
    r: Result<LayoutInfo, OxiH5Error>,
)
    requires
        data@ == seq![4u8, 3u8] + le_bytes(address as nat, 8) + le_bytes(index as nat, 4),
        call_ensures(parse_layout, (data,), r),
    ensures
        outcome(r) == Ok::<LayoutModel, ErrorKind>(
            LayoutModel::VirtualDataset { heap_address: address, heap_index: index },
        ),
{
    let s = data@;
    lemma_itself(s);
    lemma_pow256_values();
    let head = seq![4u8, 3u8];
    let a = le_bytes(address as nat, 8);
    let b = le_bytes(index as nat, 4);
    lemma_le_bytes_len(address as nat, 8);
    lemma_le_bytes_len(index as nat, 4);
    lemma_held_parts(s, 0, head + a, b);
    lemma_held_parts(s, 0, head, a);
    lemma_held_bytes(s, 0, head);
    assert(head[0] == s[0] && head[1] == s[1]);
    lemma_held_number(s, 2, address as nat, 8);
    lemma_held_number(s, 10, index as nat, 4);
}

/// A fill value message is read as the value in it, and as none where it defines none.
pub proof fn law_fill_value_message(
    data: &[u8],
    version: u8,
    a: u8,
    b: u8,
    value: Seq<u8>,
    r: Result<Vec<u8>, OxiH5Error>,
)
    requires
        value.len() <= u32::MAX,
        call_ensures(parse_fill_value, (data,), r),
    ensures
        (version == 1 || version == 2) && data@ == seq![version, a, b, 1u8] + le_bytes(
            value.len(),
            4,
        ) + value ==> r is Ok && r->Ok_0@ == value,
        (version == 1 || version == 2) && data@ == seq![version, a, b, 0u8] ==> r is Ok
            && r->Ok_0@.len() == 0,
        data@ == seq![3u8, (a % 32 + 32) as u8] + le_bytes(value.len(), 4) + value ==> r is Ok
            && r->Ok_0@ == value,
        data@ == seq![3u8, (a % 32) as u8] ==> r is Ok && r->Ok_0@.len() == 0,
{
    let s = data@;
    lemma_itself(s);
    lemma_pow256_values();
    let n = le_bytes(value.len(), 4);
    lemma_le_bytes_len(value.len(), 4);
    let one = seq![version, a, b, 1u8];
    if (version == 1 || version == 2) && s == one + n + value {
        lemma_held_parts(s, 0, one + n, value);
        lemma_held_parts(s, 0, one, n);
        lemma_held_bytes(s, 0, one);
        assert(one[0] == s[0] && one[3] == s[3]);
        lemma_held_number(s, 4, value.len(), 4);
    }
    let two = seq![3u8, (a % 32 + 32) as u8];
    if s == two + n + value {
        lemma_held_parts(s, 0, two + n, value);
        lemma_held_parts(s, 0, two, n);
        lemma_held_bytes(s, 0, two);
        assert(two[0] == s[0] && two[1] == s[1]);
        lemma_held_number(s, 2, value.len(), 4);
    }
}

/// The name of a filter as it is stored: with the zero byte that ends it, padded in
/// version 1; nothing where there is none.
pub open spec fn filter_name(name: Option<Seq<char>>, version: u8) -> Seq<u8> {
    match name {
        None => Seq::empty(),
        Some(chars) => if version == 1 {
            padded(encode_utf8(chars).push(0u8))
        } else {
            encode_utf8(chars).push(0u8)
        },
    }
}

/// The client values of a filter, padded to an even number in version 1.
pub open spec fn client_image(values: Seq<u32>, version: u8) -> Seq<u8> {
    spelled_all(
        Seq::new(values.len(), |i: int| values[i] as nat),
        4,
        ByteOrder::Little,
    ) + if version == 1 && values.len() % 2 == 1 {
        zeros(4)
    } else {
        Seq::empty()
    }
}

/// The description of a filter. Version 2 leaves out the name of a filter below 256.
pub open spec fn filter_image(f: FilterModel, version: u8) -> Seq<u8> {
    let name = filter_name(f.name, version);
    le_bytes(f.id as nat, 2) + (if version == 2 && f.id < 256 {
        Seq::empty()
    } else {
        le_bytes(name.len(), 2)
    }) + le_bytes(f.flags as nat, 2) + le_bytes(f.client_data.len(), 2) + name + client_image(
        f.client_data,
        version,
    )
}

/// Whether a filter can be described: its fields fit, and its name has no NUL characters.
pub open spec fn filter_fits(f: FilterModel, version: u8) -> bool {
    &&& f.client_data.len() <= u16::MAX
    &&& filter_name(f.name, version).len() <= u16::MAX
    &&& f.name is Some ==> nul_free(f.name->0)
    &&& version == 2 && f.id < 256 ==> f.name is None
}

proof fn lemma_filter_name(name: Option<Seq<char>>, version: u8)
    requires
        name is Some ==> nul_free(name->0),
    ensures
        field_name(filter_name(name, version)) == Ok::<Option<Seq<char>>, ErrorKind>(name),
        version == 1 ==> align8(filter_name(name, version).len() as int) == filter_name(
            name,
            version,
        ).len(),
{
    if let Some(chars) = name {
        let field = filter_name(name, version);
        let e = encode_utf8(chars);
        let part = e.push(0u8);
        assert(field.subrange(0, e.len() as int) =~= e);
        assert(field[e.len() as int] == part[e.len() as int]);
        lemma_text_at(field, 0, chars);
    }
}

proof fn lemma_filter(s: Seq<u8>, pos: int, f: FilterModel, version: u8)
    requires
        version == 1 || version == 2,
        filter_fits(f, version),
        held(s, pos, filter_image(f, version)),
    ensures
        filter_at(s, pos, version) == Ok::<(FilterModel, int), ErrorKind>(
            (f, pos + filter_image(f, version).len()),
        ),
{
    lemma_pow256_values();
    let name = filter_name(f.name, version);
    lemma_filter_name(f.name, version);
    let short = version == 2 && f.id < 256;
    let a = le_bytes(f.id as nat, 2);
    let b = if short {
        Seq::<u8>::empty()
    } else {
        le_bytes(name.len(), 2)
    };
    let c = le_bytes(f.flags as nat, 2);
    let d = le_bytes(f.client_data.len(), 2);
    let values = Seq::new(f.client_data.len(), |i: int| f.client_data[i] as nat);
    let e = spelled_all(values, 4, ByteOrder::Little);
    let pad = if version == 1 && f.client_data.len() % 2 == 1 {
        zeros(4)
    } else {
        Seq::<u8>::empty()
    };
    lemma_le_bytes_len(f.id as nat, 2);
    lemma_le_bytes_len(name.len(), 2);
    lemma_le_bytes_len(f.flags as nat, 2);
    lemma_le_bytes_len(f.client_data.len(), 2);
    lemma_spelled_all_len(values, 4, ByteOrder::Little);
    assert(filter_image(f, version) =~= a + b + c + d + name + e + pad);
    lemma_held_parts(s, pos, a + b + c + d + name + e, pad);
    lemma_held_parts(s, pos, a + b + c + d + name, e);
    lemma_held_parts(s, pos, a + b + c + d, name);
    lemma_held_parts(s, pos, a + b + c, d);
    lemma_held_parts(s, pos, a + b, c);
    lemma_held_parts(s, pos, a, b);
    lemma_held_number(s, pos, f.id as nat, 2);
    let head = 6 + b.len();
    if !short {
        lemma_held_number(s, pos + 2, name.len(), 2);
    }
    lemma_held_number(s, pos + 2 + b.len(), f.flags as nat, 2);
    lemma_held_number(s, pos + 4 + b.len(), f.client_data.len(), 2);
    let from = pos + head + name.len();
    assert(s.subrange(pos + head, from) == name);
    let found = Seq::new(f.client_data.len(), |i: int| le_at(s, from + i * 4, 4) as u32);
    assert forall|i: int| 0 <= i < f.client_data.len() implies #[trigger] found[i]
        == f.client_data[i] by {
        assert(values[i] == f.client_data[i] as nat);
        lemma_spelled_at(s, from, values, 4, ByteOrder::Little, i);
    }
    assert(found =~= f.client_data);
}

/// Descriptions of filters, one after the other.
pub open spec fn filters_image(filters: Seq<FilterModel>, version: u8) -> Seq<u8>
    decreases filters.len(),
{
    if filters.len() == 0 {
        Seq::empty()
    } else {
        filters_image(filters.drop_last(), version) + filter_image(filters.last(), version)
    }
}

proof fn lemma_filters(s: Seq<u8>, pos: int, filters: Seq<FilterModel>, version: u8)
    requires
        version == 1 || version == 2,
        forall|i: int| 0 <= i < filters.len() ==> filter_fits(#[trigger] filters[i], version),
        held(s, pos, filters_image(filters, version)),
    ensures
        filters_at(s, pos, filters.len(), version) == Ok::<(Seq<FilterModel>, int), ErrorKind>(
            (filters, pos + filters_image(filters, version).len()),
        ),
    decreases filters.len(),
{
    if filters.len() > 0 {
        let front = filters.drop_last();
        assert forall|i: int| 0 <= i < front.len() implies filter_fits(
            #[trigger] front[i],
            version,
        ) by {
            assert(front[i] == filters[i]);
        }
        let before = filters_image(front, version);
        lemma_held_parts(s, pos, before, filter_image(filters.last(), version));
        lemma_filters(s, pos, front, version);
        assert(filter_fits(filters[filters.len() - 1], version));
        lemma_filter(s, pos + before.len(), filters.last(), version);
        assert(front.push(filters.last()) =~= filters);
    } else {
        assert(filters =~= Seq::<FilterModel>::empty());
    }
}

/// A filter pipeline message is read as the filters that it describes, in order.
pub proof fn law_pipeline_message(
    data: &[u8],
    version: u8,
    filters: Seq<FilterModel>,
    r: Result<FilterPipeline, OxiH5Error>,
)
    requires
        version == 1 || version == 2,
        filters.len() <= u8::MAX,
        forall|i: int| 0 <= i < filters.len() ==> filter_fits(#[trigger] filters[i], version),
        data@ == seq![version, filters.len() as u8] + (if version == 1 {
            zeros(6)
        } else {
            Seq::empty()
        }) + filters_image(filters, version),
        call_ensures(parse_filter_pipeline, (data,), r),
    ensures
        r is Ok,
        views(r->Ok_0.filters@) == filters,
{
    let s = data@;
    lemma_itself(s);
    let head = seq![version, filters.len() as u8];
    let gap = if version == 1 {
        zeros(6)
    } else {
        Seq::<u8>::empty()
    };
    lemma_held_parts(s, 0, head + gap, filters_image(filters, version));
    lemma_held_parts(s, 0, head, gap);
    lemma_held_bytes(s, 0, head);
    assert(head[0] == s[0] && head[1] == s[1]);
    lemma_filters(s, (2 + gap.len()) as int, filters, version);
}

/// A part of an attribute message as it is stored: padded in version 1.
pub open spec fn part_image(part: Seq<u8>, version: u8) -> Seq<u8> {
    if version == 1 {
        padded(part)
    } else {
        part
    }
}

/// An attribute message: the version, flags, the sizes of the name, the datatype and the
/// dataspace, in version 3 the character set; the three parts; the data.
pub open spec fn attribute_image(
    version: u8,
    flags: u8,
    charset: u8,
    name: Seq<u8>,
    dtype: Seq<u8>,
    space: Seq<u8>,
    value: Seq<u8>,
) -> Seq<u8> {
    seq![version, flags] + le_bytes(name.len(), 2) + le_bytes(dtype.len(), 2) + le_bytes(
        space.len(),
        2,
    ) + (if version == 3 {
        seq![charset]
    } else {
        Seq::empty()
    }) + part_image(name, version) + part_image(dtype, version) + part_image(space, version)
        + value
}

/// An attribute message is read as the name, the type, the dataspace and the data that it
/// is made of.
pub proof fn law_attribute_message(
    data: &[u8],
    version: u8,
    flags: u8,
    charset: u8,
    name: Seq<char>,
    m: DtypeModel,
    type_version: int,
    space_version: u8,
    dims: Seq<u64>,
    max_dims: Option<Seq<u64>>,
    value: Seq<u8>,
    r: Result<Attribute, OxiH5Error>,
    space_data: &[u8],
    extent: Result<DataspaceInfo, OxiH5Error>,
    space: Result<Dataspace, OxiH5Error>,
)
    requires
        1 <= version <= 3,
        nul_free(name),
        describable(m, type_version),
        space_version == 1 || space_version == 2,
        dims.len() <= u8::MAX,
        max_dims is Some ==> max_dims->0.len() == dims.len(),
        encode_utf8(name).len() < u16::MAX,
        type_image(m, type_version).len() <= u16::MAX,
        space_data@ == space_image(space_version, 1, dims, max_dims),
        space_data@.len() <= u16::MAX,
        call_ensures(parse_dataspace, (space_data,), extent),
        call_ensures(parse_space, (space_data,), space),
        data@ == attribute_image(
            version,
            flags,
            charset,
            encode_utf8(name).push(0u8),
            type_image(m, type_version),
            space_data@,
            value,
        ),
        call_ensures(parse_attribute, (data,), r),
    ensures
        r is Ok,
        r->Ok_0@.name == name,
        r->Ok_0@.dtype == m,
        r->Ok_0@.dataspace == if dims.len() == 0 {
            DataspaceModel::Scalar
        } else {
            DataspaceModel::Simple { dims, max_dims }
        },
        r->Ok_0@.data == value,
{
    let n = encode_utf8(name).push(0u8);
    let t = type_image(m, type_version);
    let p = space_data@;
    law_dataspace_message(space_data, space_version, 1, dims, max_dims, extent, space);
    lemma_itself(t);
    law_type_reads_back(t, 0, m, type_version);
    lemma_attribute(data@, version, flags, charset, n, t, p, value);
    let e = encode_utf8(name);
    assert(n.subrange(0, e.len() as int) =~= e);
    lemma_text_at(n, 0, name);
}

/// What an attribute message says of its parts, and where they are.
proof fn lemma_attribute(
    s: Seq<u8>,
    version: u8,
    flags: u8,
    charset: u8,
    n: Seq<u8>,
    t: Seq<u8>,
    p: Seq<u8>,
    value: Seq<u8>,
)
    requires
        1 <= version <= 3,
        n.len() <= u16::MAX,
        t.len() <= u16::MAX,
        p.len() <= u16::MAX,
        s == attribute_image(version, flags, charset, n, t, p, value),
    ensures
        s.len() >= 8,
        s[0] == version,
        le_at(s, 2, 2) == n.len(),
        le_at(s, 4, 2) == t.len(),
        le_at(s, 6, 2) == p.len(),
        ({
            let (name_at, dtype_at, space_at, data_at) = attribute_parts(s);
            &&& data_at <= s.len()
            &&& s.subrange(name_at, name_at + n.len()) == n
            &&& s.subrange(dtype_at, dtype_at + t.len()) == t
            &&& s.subrange(space_at, space_at + p.len()) == p
            &&& s.subrange(data_at, s.len() as int) == value
        }),
{
    lemma_itself(s);
    let d = if version == 3 {
        seq![charset]
    } else {
        Seq::<u8>::empty()
    };
    let front = seq![version, flags] + le_bytes(n.len(), 2) + le_bytes(t.len(), 2) + le_bytes(
        p.len(),
        2,
    ) + d;
    let x = part_image(n, version);
    let y = part_image(t, version);
    let z = part_image(p, version);
    lemma_held_parts(s, 0, front + x + y + z, value);
    lemma_held_parts(s, 0, front + x + y, z);
    lemma_held_parts(s, 0, front + x, y);
    lemma_held_parts(s, 0, front, x);
    lemma_attribute_front(s, version, flags, n.len(), t.len(), p.len(), d);
    let at = front.len() as int;
    lemma_part(s, at, n, version);
    lemma_part(s, at + x.len(), t, version);
    lemma_part(s, at + x.len() + y.len(), p, version);
    assert(at == 8 + d.len());
}

proof fn lemma_attribute_front(
    s: Seq<u8>,
    version: u8,
    flags: u8,
    n: nat,
    t: nat,
    p: nat,
    d: Seq<u8>,
)
    requires
        n <= u16::MAX,
        t <= u16::MAX,
        p <= u16::MAX,
        held(
            s,
            0,
            seq![version, flags] + le_bytes(n, 2) + le_bytes(t, 2) + le_bytes(p, 2) + d,
        ),
    ensures
        s.len() >= 8,
        s[0] == version,
        le_at(s, 2, 2) == n,
        le_at(s, 4, 2) == t,
        le_at(s, 6, 2) == p,
        (seq![version, flags] + le_bytes(n, 2) + le_bytes(t, 2) + le_bytes(p, 2) + d).len() == 8
            + d.len(),
{
    let head = seq![version, flags];
    let a = le_bytes(n, 2);
    let b = le_bytes(t, 2);
    let c = le_bytes(p, 2);
    lemma_pow256_values();
    lemma_le_bytes_len(n, 2);
    lemma_le_bytes_len(t, 2);
    lemma_le_bytes_len(p, 2);
    lemma_held_parts(s, 0, head + a + b + c, d);
    lemma_held_parts(s, 0, head + a + b, c);
    lemma_held_parts(s, 0, head + a, b);
    lemma_held_parts(s, 0, head, a);
    lemma_held_bytes(s, 0, head);
    assert(head[0] == s[0]);
    lemma_held_number(s, 2, n, 2);
    lemma_held_number(s, 4, t, 2);
    lemma_held_number(s, 6, p, 2);
}

proof fn lemma_part(s: Seq<u8>, pos: int, part: Seq<u8>, version: u8)
    requires
        held(s, pos, part_image(part, version)),
    ensures
        s.subrange(pos, pos + part.len()) == part,
        version == 1 ==> part_image(part, version).len() == align8(part.len() as int),
        version != 1 ==> part_image(part, version).len() == part.len(),
{
    if version == 1 {
        let rest = part_image(part, version).skip(part.len() as int);
        assert(part_image(part, version) =~= part + rest);
        lemma_held_parts(s, pos, part, rest);
    }
}

/// The bytes behind the name of a link: of a hard link the address; of any other their
/// number, and then the path, or the flags, the file and the path.
pub open spec fn target_image(link: LinkModel, width: nat, flags: u8) -> Seq<u8> {
    match link {
        LinkModel::Hard { address } => le_bytes(address as nat, width),
        LinkModel::Soft { path } => le_bytes(encode_utf8(path).len(), 2) + encode_utf8(path),
        LinkModel::External { file, path } => le_bytes(
            encode_utf8(file).len() + encode_utf8(path).len() + 3,
            2,
        ) + seq![flags] + encode_utf8(file).push(0u8) + encode_utf8(path).push(0u8),
    }
}

/// The number of a kind of link.
pub open spec fn link_number(link: LinkModel) -> u8 {
    match link {
        LinkModel::Hard { .. } => 0,
        LinkModel::Soft { .. } => 1,
        LinkModel::External { .. } => 64,
    }
}

/// The flags of a link message: how long the length of the name is, and whether the
/// creation order, the kind and the character set are there.
pub open spec fn link_flags(code: int, ordered: bool, kinds: bool, charset: bool) -> int {
    code + (if ordered {
        4int
    } else {
        0
    }) + (if kinds {
        8int
    } else {
        0
    }) + (if charset {
        16int
    } else {
        0
    })
}

/// What stands before the length of the name: version 1, flags, the kind, the creation
/// order, the character set.
pub open spec fn link_front(
    link: LinkModel,
    code: int,
    order: Option<u64>,
    charset: Option<u8>,
) -> Seq<u8> {
    seq![1u8, link_flags(code, order is Some, !(link is Hard), charset is Some) as u8] + (
    if !(link is Hard) {
        seq![link_number(link)]
    } else {
        Seq::empty()
    }) + (match order {
        Some(n) => le_bytes(n as nat, 8),
        None => Seq::empty(),
    }) + (match charset {
        Some(c) => seq![c],
        None => Seq::empty(),
    })
}

/// A link message: the front, the length of the name in `2^code` bytes, the name, the
/// target.
pub open spec fn link_image(
    name: Seq<char>,
    link: LinkModel,
    code: int,
    order: Option<u64>,
    charset: Option<u8>,
    width: nat,
    flags: u8,
) -> Seq<u8> {
    let lengths: nat = if code == 0 {
        1
    } else if code == 1 {
        2
    } else if code == 2 {
        4
    } else {
        8
    };
    link_front(link, code, order, charset) + le_bytes(encode_utf8(name).len(), lengths)
        + encode_utf8(name) + target_image(link, width, flags)
}

/// Whether the parts of a link fit their fields.
pub open spec fn link_fits(name: Seq<char>, link: LinkModel, code: int, width: nat) -> bool {
    &&& 0 <= code <= 3
    &&& width == 1 || width == 2 || width == 4 || width == 8
    &&& encode_utf8(name).len() <= if code == 0 {
        0xffint
    } else if code == 1 {
        0xffffint
    } else {
        0xffff_ffffint
    }
    &&& match link {
        LinkModel::Hard { address } => address < pow256(width),
        LinkModel::Soft { path } => encode_utf8(path).len() <= u16::MAX,
        LinkModel::External { file, path } => {
            &&& nul_free(file)
            &&& nul_free(path)
            &&& encode_utf8(file).len() + encode_utf8(path).len() + 3 <= u16::MAX
        },
    }
}

proof fn lemma_target(s: Seq<u8>, at: int, link: LinkModel, width: nat, flags: u8)
    requires
        width == 1 || width == 2 || width == 4 || width == 8,
        held(s, at, target_image(link, width, flags)),
        match link {
            LinkModel::Hard { address } => address < pow256(width),
            LinkModel::Soft { path } => encode_utf8(path).len() <= u16::MAX,
            LinkModel::External { file, path } => {
                &&& nul_free(file)
                &&& nul_free(path)
                &&& encode_utf8(file).len() + encode_utf8(path).len() + 3 <= u16::MAX
            },
        },
    ensures
        target_in(s, at, link_number(link), width as int) == Ok::<LinkModel, ErrorKind>(link),
{
    lemma_pow256_values();
    match link {
        LinkModel::Hard { address } => {
            lemma_le_bytes_len(address as nat, width);
            lemma_held_number(s, at, address as nat, width);
        },
        LinkModel::Soft { path } => {
            let e = encode_utf8(path);
            lemma_le_bytes_len(e.len(), 2);
            lemma_held_parts(s, at, le_bytes(e.len(), 2), e);
            lemma_held_number(s, at, e.len(), 2);
            lemma_encoded_text(path);
        },
        LinkModel::External { file, path } => {
            let f = encode_utf8(file);
            let p = encode_utf8(path);
            let n = f.len() + p.len() + 3;
            let part = seq![flags] + f.push(0u8) + p.push(0u8);
            lemma_le_bytes_len(n, 2);
            assert(target_image(link, width, flags) =~= le_bytes(n, 2) + part);
            lemma_held_parts(s, at, le_bytes(n, 2), part);
            lemma_held_number(s, at, n, 2);
            assert(s.subrange(at + 2, at + 2 + n) == part);
            assert(part.subrange(1, (1 + f.len()) as int) =~= f);
            lemma_text_at(part, 1, file);
            let b = 2 + f.len();
            assert(part.subrange(b as int, (b + p.len()) as int) =~= p);
            lemma_text_at(part, b as int, path);
        },
    }
}

/// A link message is read as the name and the target in it: hard, soft or external, with
/// or without a creation order and a character set, and however long the length of the
/// name is.
pub proof fn law_link_message(
    data: &[u8],
    offset_size: u8,
    name: Seq<char>,
    link: LinkModel,
    code: int,
    order: Option<u64>,
    charset: Option<u8>,
    flags: u8,
    r: Result<ParsedLink, OxiH5Error>,
)
    requires
        link_fits(name, link, code, offset_size as nat),
        data@ == link_image(name, link, code, order, charset, offset_size as nat, flags),
        call_ensures(parse_link, (data, offset_size), r),
    ensures
        outcome(r) == Ok::<(Seq<char>, LinkModel), ErrorKind>((name, link)),
{
    lemma_link_back(data@, offset_size, name, link, code, order, charset, flags);
}

/// A link reads back from its bytes.
pub proof fn lemma_link_back(
    s: Seq<u8>,
    width: u8,
    name: Seq<char>,
    link: LinkModel,
    code: int,
    order: Option<u64>,
    charset: Option<u8>,
    flags: u8,
)
    requires
        link_fits(name, link, code, width as nat),
        s == link_image(name, link, code, order, charset, width as nat, flags),
    ensures
        link_in(s, width as int) == Ok::<(Seq<char>, LinkModel), ErrorKind>((name, link)),
{
    let kinds = !(link is Hard);
    let lengths: nat = if code == 0 {
        1
    } else if code == 1 {
        2
    } else if code == 2 {
        4
    } else {
        8
    };
    let f = link_flags(code, order is Some, kinds, charset is Some);
    let front = link_front(link, code, order, charset);
    let e = encode_utf8(name);
    let d = le_bytes(e.len(), lengths);
    let t = target_image(link, width as nat, flags);
    lemma_itself(s);
    lemma_pow256_values();
    lemma_le_bytes_len(e.len(), lengths);
    lemma_held_parts(s, 0, front + d + e, t);
    lemma_held_parts(s, 0, front + d, e);
    lemma_held_parts(s, 0, front, d);
    lemma_link_front(s, link, code, order, charset);
    lemma_link_flags(code, order is Some, kinds, charset is Some);
    let pos = front.len() as int;
    lemma_held_number(s, pos, e.len(), lengths);
    lemma_encoded_text(name);
    lemma_target(s, pos + lengths + e.len(), link, width as nat, flags);
}

proof fn lemma_link_flags(code: int, ordered: bool, kinds: bool, charset: bool)
    requires
        0 <= code <= 3,
    ensures
        ({
            let v = link_flags(code, ordered, kinds, charset) as u8;
            &&& link_flags(code, ordered, kinds, charset) <= 31
            &&& flag(v, 8) <==> kinds
            &&& flag(v, 4) <==> ordered
            &&& flag(v, 16) <==> charset
            &&& v % 4 == code
        }),
{
}

proof fn lemma_link_front(
    s: Seq<u8>,
    link: LinkModel,
    code: int,
    order: Option<u64>,
    charset: Option<u8>,
)
    requires
        0 <= code <= 3,
        held(s, 0, link_front(link, code, order, charset)),
    ensures
        s.len() >= 2,
        s[0] == 1,
        s[1] == link_flags(code, order is Some, !(link is Hard), charset is Some),
        !(link is Hard) ==> s[2] == link_number(link),
        name_len_pos(s[1]) == link_front(link, code, order, charset).len(),
{
    let kinds = !(link is Hard);
    let f = link_flags(code, order is Some, kinds, charset is Some);
    lemma_link_flags(code, order is Some, kinds, charset is Some);
    let head = seq![1u8, f as u8];
    let a = if kinds {
        seq![link_number(link)]
    } else {
        Seq::<u8>::empty()
    };
    let b = match order {
        Some(n) => le_bytes(n as nat, 8),
        None => Seq::<u8>::empty(),
    };
    let c = match charset {
        Some(c) => seq![c],
        None => Seq::<u8>::empty(),
    };
    if let Some(n) = order {
        lemma_le_bytes_len(n as nat, 8);
    }
    lemma_held_parts(s, 0, head + a + b, c);
    lemma_held_parts(s, 0, head + a, b);
    lemma_held_parts(s, 0, head, a);
    lemma_held_bytes(s, 0, head);
    assert(head[0] == s[0] && head[1] == s[1]);
    if kinds {
        lemma_held_bytes(s, 2, a);
        assert(a[0] == s[2]);
    }
}

} // verus!
