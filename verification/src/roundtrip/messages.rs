//! The bodies of messages read back as what they were made of.

use vstd::prelude::*;
use vstd::utf8::encode_utf8;
use crate::bytes::{le_at, le_bytes, lemma_le_bytes_len, lemma_pow256_values, zeros};
use crate::datatype::{datatype_in, type_at};
use crate::dtype::{ByteOrder, Charset, DtypeModel, RefType};
use crate::error::ErrorKind;
use crate::global_heap::align8;
use crate::message::{
    attribute_in, attribute_parts, dataspace_in, filter_at, filters_at, layout_in,
    narrow_numbers_at, numbers_at, pipeline_in, space_in, ExtentModel,
};
use crate::object::{AttributeModel, DataspaceModel, FilterModel, LayoutModel};
use crate::roundtrip::held::{
    held, lemma_held_bytes, lemma_held_number, lemma_held_part, lemma_held_parts,
};
use crate::utf8::{lemma_text_at, nul_free};
use crate::write::attr::{
    attr_image, lemma_kind_lens, lemma_words_len, padded, words_image, AttrModel,
};
use crate::write::elem::{
    datatype_image, dtype_of, encoding_of, exponent_bits, fixed_image, float_image,
    lemma_image_lens, ref_image, string_image, vlen_image, ElemSpec, ElemType,
};
use crate::write::messages::{
    chunked_image, contiguous_image, dataspace_image, halves_image, lemma_halves_len, max_extents,
    nats,
};
use crate::write::pipeline::{deflate_name, deflate_v1_image, deflate_v2_image};

verus! {

/// Numbers with 64 bits.
pub open spec fn words_of(words: Seq<nat>) -> Seq<u64> {
    Seq::new(words.len(), |i: int| words[i] as u64)
}

pub proof fn lemma_words_back(s: Seq<u8>, pos: int, words: Seq<nat>)
    requires
        held(s, pos, words_image(words)),
        forall|i: int| 0 <= i < words.len() ==> #[trigger] words[i] <= u64::MAX,
    ensures
        numbers_at(s, pos, words.len()) == words_of(words),
    decreases words.len(),
{
    if words.len() > 0 {
        let front = words.drop_last();
        let n = front.len();
        lemma_words_len(front);
        lemma_held_parts(s, pos, words_image(front), le_bytes(words.last(), 8));
        assert forall|i: int| 0 <= i < front.len() implies #[trigger] front[i] <= u64::MAX by {
            assert(front[i] == words[i]);
        }
        lemma_words_back(s, pos, front);
        lemma_pow256_values();
        assert(words[n as int] <= u64::MAX);
        lemma_held_number(s, pos + n * 8, words.last(), 8);
        assert(numbers_at(s, pos, words.len()) =~= numbers_at(s, pos, n).push(
            words.last() as u64,
        ));
        assert(words_of(words) =~= words_of(front).push(words.last() as u64));
    } else {
        assert(numbers_at(s, pos, 0) =~= words_of(words));
    }
}

proof fn lemma_halves_back(s: Seq<u8>, pos: int, dims: Seq<nat>)
    requires
        held(s, pos, halves_image(dims)),
        forall|i: int| 0 <= i < dims.len() ==> #[trigger] dims[i] <= u32::MAX,
    ensures
        narrow_numbers_at(s, pos, dims.len(), 4) == words_of(dims),
    decreases dims.len(),
{
    if dims.len() > 0 {
        let front = dims.drop_last();
        let n = front.len();
        lemma_halves_len(front);
        lemma_held_parts(s, pos, halves_image(front), le_bytes(dims.last(), 4));
        assert forall|i: int| 0 <= i < front.len() implies #[trigger] front[i] <= u32::MAX by {
            assert(front[i] == dims[i]);
        }
        lemma_halves_back(s, pos, front);
        lemma_pow256_values();
        assert(dims[n as int] <= u32::MAX);
        lemma_held_number(s, pos + n * 4, dims.last(), 4);
        assert(narrow_numbers_at(s, pos, dims.len(), 4) =~= narrow_numbers_at(s, pos, n, 4).push(
            dims.last() as u64,
        ));
        assert(words_of(dims) =~= words_of(front).push(dims.last() as u64));
    } else {
        assert(narrow_numbers_at(s, pos, 0, 4) =~= words_of(dims));
    }
}

/// A dataset's extents read back, with the largest ones.
pub proof fn law_dataspace_reads_back(shape: Seq<usize>, grows: bool)
    requires
        shape.len() <= u8::MAX,
    ensures
        dataspace_in(dataspace_image(nats(shape), grows)) == Ok::<ExtentModel, ErrorKind>(
            ExtentModel {
                dims: words_of(nats(shape)),
                max_dims: Some(words_of(max_extents(nats(shape), grows))),
            },
        ),
{
    let dims = nats(shape);
    let most = max_extents(dims, grows);
    let data = dataspace_image(dims, grows);
    let a = seq![1u8, dims.len() as u8, 1u8];
    let b = zeros(5);
    let c = words_image(dims);
    let d = words_image(most);
    lemma_words_len(dims);
    lemma_words_len(most);
    assert(held(data, 0, data)) by {
        assert(data.subrange(0, data.len() as int) =~= data);
    }
    lemma_held_parts(data, 0, a + b + c, d);
    lemma_held_parts(data, 0, a + b, c);
    lemma_words_back(data, 8, dims);
    lemma_words_back(data, 8 + dims.len() as int * 8, most);
}

/// Written datatypes read back, wherever they are.
pub proof fn lemma_fixed_back(s: Seq<u8>, pos: int, size: u8, signed: bool)
    requires
        held(s, pos, fixed_image(size, signed)),
    ensures
        type_at(s, pos) == Ok::<(DtypeModel, int), ErrorKind>(
            (
                DtypeModel::Int { size: size as nat, signed, order: ByteOrder::Little },
                pos + 12,
            ),
        ),
{
    lemma_image_lens(1);
    let image = fixed_image(size, signed);
    let a = image.subrange(0, 4);
    lemma_le_bytes_len(size as nat, 4);
    lemma_le_bytes_len(size as nat * 8, 2);
    lemma_pow256_values();
    assert(image.subrange(4, 8) =~= le_bytes(size as nat, 4));
    lemma_held_part(s, pos, image, 4, le_bytes(size as nat, 4));
    lemma_held_number(s, pos + 4, size as nat, 4);
    lemma_held_bytes(s, pos, image);
    assert(image[0] == s[pos + 0]);
    assert(image[1] == s[pos + 1]);
    assert(image[0] == 0x10u8);
    assert(0x10u8 % 16 == 0u8);
}

proof fn lemma_float_back(s: Seq<u8>, pos: int, size: u8, exponent: u8)
    requires
        held(s, pos, float_image(size, exponent)),
    ensures
        type_at(s, pos) == Ok::<(DtypeModel, int), ErrorKind>(
            (DtypeModel::Float { size: size as nat, order: ByteOrder::Little }, pos + 20),
        ),
{
    lemma_image_lens(1);
    let image = float_image(size, exponent);
    lemma_le_bytes_len(size as nat, 4);
    lemma_pow256_values();
    assert(image.subrange(4, 8) =~= le_bytes(size as nat, 4));
    lemma_held_part(s, pos, image, 4, le_bytes(size as nat, 4));
    lemma_held_number(s, pos + 4, size as nat, 4);
    lemma_held_bytes(s, pos, image);
    assert(image[0] == s[pos + 0]);
    assert(image[1] == s[pos + 1]);
    assert(image[0] == 0x11u8 && image[1] == 0x20u8);
    assert(0x11u8 % 16 == 1u8 && 0x20u8 % 2 == 0u8);
}

proof fn lemma_string_back(s: Seq<u8>, pos: int, len: nat)
    requires
        held(s, pos, string_image(len)),
        len <= u32::MAX,
    ensures
        type_at(s, pos) == Ok::<(DtypeModel, int), ErrorKind>(
            (DtypeModel::String { fixed_len: Some(len), charset: Charset::Utf8 }, pos + 8),
        ),
{
    lemma_image_lens(len);
    let image = string_image(len);
    lemma_le_bytes_len(len, 4);
    lemma_pow256_values();
    assert(image.subrange(4, 8) =~= le_bytes(len, 4));
    lemma_held_part(s, pos, image, 4, le_bytes(len, 4));
    lemma_held_number(s, pos + 4, len, 4);
    lemma_held_bytes(s, pos, image);
    assert(image[0] == s[pos + 0]);
    assert(image[1] == s[pos + 1]);
    assert(image[0] == 0x13u8 && image[1] == 0x10u8);
    assert(0x13u8 % 16 == 3u8 && 0x10u8 / 16 == 1u8);
}

proof fn lemma_ref_back(s: Seq<u8>, pos: int)
    requires
        held(s, pos, ref_image()),
    ensures
        type_at(s, pos) == Ok::<(DtypeModel, int), ErrorKind>(
            (DtypeModel::Reference { ref_type: RefType::Object }, pos + 8),
        ),
{
    lemma_image_lens(1);
    let image = ref_image();
    lemma_held_bytes(s, pos, image);
    assert(image[0] == s[pos + 0]);
    assert(image[1] == s[pos + 1]);
    assert(image[0] == 0x17u8 && image[1] == 0u8);
    assert(0x17u8 % 16 == 7u8);
}

proof fn lemma_vlen_back(s: Seq<u8>, pos: int)
    requires
        held(s, pos, vlen_image()),
    ensures
        type_at(s, pos) == Ok::<(DtypeModel, int), ErrorKind>(
            (DtypeModel::String { fixed_len: None, charset: Charset::Utf8 }, pos + 16),
        ),
{
    lemma_image_lens(1);
    let image = vlen_image();
    lemma_le_bytes_len(16, 4);
    lemma_held_parts(s, pos, seq![0x19u8, 1u8, 0u8, 0u8] + le_bytes(16, 4), string_image(1));
    lemma_string_back(s, pos + 8, 1);
    lemma_held_bytes(s, pos, image);
    assert(image[0] == s[pos + 0]);
    assert(image[1] == s[pos + 1]);
    assert(image[0] == 0x19u8 && image[1] == 1u8);
    assert(0x19u8 % 16 == 9u8);
}

/// The datatype body of every element type reads back as the type that it is written
/// as.
pub proof fn law_datatype_reads_back(e: ElemType)
    ensures
        datatype_in(datatype_image(e)) == Ok::<DtypeModel, ErrorKind>(dtype_of(e)),
{
    let data = datatype_image(e);
    assert(held(data, 0, data)) by {
        assert(data.subrange(0, data.len() as int) =~= data);
    }
    match encoding_of(e) {
        ElemSpec::Fixed { size, signed } => lemma_fixed_back(data, 0, size, signed),
        ElemSpec::FloatIeee { size } => lemma_float_back(data, 0, size, exponent_bits(size)->0),
        ElemSpec::VlenStr => lemma_vlen_back(data, 0),
    }
}

/// A contiguous layout reads back.
pub proof fn law_contiguous_layout_reads_back(data_addr: nat, data_size: nat)
    requires
        data_addr <= u64::MAX,
        data_size <= u64::MAX,
    ensures
        layout_in(contiguous_image(data_addr, data_size)) == Ok::<LayoutModel, ErrorKind>(
            LayoutModel::Contiguous {
                data_address: data_addr as u64,
                data_size: data_size as u64,
            },
        ),
{
    let data = contiguous_image(data_addr, data_size);
    let a = seq![3u8, 1u8];
    let b = le_bytes(data_addr, 8);
    let c = le_bytes(data_size, 8);
    lemma_le_bytes_len(data_addr, 8);
    lemma_le_bytes_len(data_size, 8);
    lemma_pow256_values();
    assert(data.subrange(2, 10) =~= b);
    assert(data.subrange(10, 18) =~= c);
    lemma_held_number(data, 2, data_addr, 8);
    lemma_held_number(data, 10, data_size, 8);
}

/// A chunked layout reads back, with the element size behind the chunk shape.
pub proof fn law_chunked_layout_reads_back(btree_addr: nat, chunk_shape: Seq<nat>, elem_size: nat)
    requires
        btree_addr <= u64::MAX,
        chunk_shape.len() < u8::MAX,
        elem_size <= u32::MAX,
        forall|i: int| 0 <= i < chunk_shape.len() ==> #[trigger] chunk_shape[i] <= u32::MAX,
    ensures
        layout_in(chunked_image(btree_addr, chunk_shape, elem_size)) == Ok::<
            LayoutModel,
            ErrorKind,
        >(
            LayoutModel::Chunked {
                data_address: btree_addr as u64,
                dimensionality: (chunk_shape.len() + 1) as u8,
                chunk_dims: words_of(chunk_shape.push(elem_size)),
                index_type: 0,
            },
        ),
{
    let data = chunked_image(btree_addr, chunk_shape, elem_size);
    let dims = chunk_shape.push(elem_size);
    let a = seq![3u8, 2u8, (chunk_shape.len() + 1) as u8];
    let b = le_bytes(btree_addr, 8);
    lemma_le_bytes_len(btree_addr, 8);
    lemma_halves_len(dims);
    lemma_pow256_values();
    assert(held(data, 0, data)) by {
        assert(data.subrange(0, data.len() as int) =~= data);
    }
    lemma_held_parts(data, 0, a + b, halves_image(dims));
    lemma_held_parts(data, 0, a, b);
    lemma_held_number(data, 3, btree_addr, 8);
    assert forall|i: int| 0 <= i < dims.len() implies #[trigger] dims[i] <= u32::MAX by {
        if i < chunk_shape.len() {
            assert(dims[i] == chunk_shape[i]);
        }
    }
    lemma_halves_back(data, 11, dims);
}

/// A DEFLATE filter as it is read.
pub open spec fn deflate_filter(level: u8, name: Option<Seq<char>>) -> FilterModel {
    FilterModel { id: 1, name, flags: 0, client_data: seq![level as u32] }
}

/// A filter pipeline message of version 2 reads back as one filter without a name.
pub proof fn law_pipeline_v2_reads_back(level: u8)
    ensures
        pipeline_in(deflate_v2_image(level)) == Ok::<Seq<FilterModel>, ErrorKind>(
            seq![deflate_filter(level, None)],
        ),
{
    let data = deflate_v2_image(level);
    lemma_le_bytes_len(0, 2);
    lemma_le_bytes_len(1, 2);
    lemma_le_bytes_len(level as nat, 4);
    lemma_pow256_values();
    assert(data.subrange(2, 4) =~= le_bytes(1, 2));
    lemma_held_number(data, 2, 1, 2);
    assert(data.subrange(4, 6) =~= le_bytes(0, 2));
    lemma_held_number(data, 4, 0, 2);
    assert(data.subrange(6, 8) =~= le_bytes(1, 2));
    lemma_held_number(data, 6, 1, 2);
    assert(data.subrange(8, 12) =~= le_bytes(level as nat, 4));
    lemma_held_number(data, 8, level as nat, 4);
    let found = filter_at(data, 2, 2)->Ok_0.0;
    assert(found.client_data =~= seq![level as u32]);
    reveal_with_fuel(filters_at, 2);
    assert(Seq::<FilterModel>::empty().push(found) =~= seq![deflate_filter(level, None)]);
}

/// The text `deflate`.
pub open spec fn deflate_text() -> Seq<char> {
    seq!['d', 'e', 'f', 'l', 'a', 't', 'e']
}

proof fn lemma_deflate_text()
    ensures
        encode_utf8(deflate_text()) == deflate_name().take(7),
        nul_free(deflate_text()),
{
    let t = deflate_text();
    reveal_with_fuel(encode_utf8, 8);
    assert(t.drop_first() =~= seq!['e', 'f', 'l', 'a', 't', 'e']);
    assert(seq!['e', 'f', 'l', 'a', 't', 'e'].drop_first() =~= seq!['f', 'l', 'a', 't', 'e']);
    assert(seq!['f', 'l', 'a', 't', 'e'].drop_first() =~= seq!['l', 'a', 't', 'e']);
    assert(seq!['l', 'a', 't', 'e'].drop_first() =~= seq!['a', 't', 'e']);
    assert(seq!['a', 't', 'e'].drop_first() =~= seq!['t', 'e']);
    assert(seq!['t', 'e'].drop_first() =~= seq!['e']);
    assert(seq!['e'].drop_first() =~= Seq::<char>::empty());
    assert forall|c: u32| 0 < c < 0x80 implies #[trigger] (c & 0x7F) == c by {
        assert(0 < c < 0x80 ==> (c & 0x7F) == c) by (bit_vector);
    }
    assert(encode_utf8(t) =~= deflate_name().take(7));
}

/// A filter pipeline message of version 1 reads back as one filter with its name.
pub proof fn law_pipeline_v1_reads_back(level: u8)
    ensures
        pipeline_in(deflate_v1_image(level)) == Ok::<Seq<FilterModel>, ErrorKind>(
            seq![deflate_filter(level, Some(deflate_text()))],
        ),
{
    let data = deflate_v1_image(level);
    lemma_le_bytes_len(0, 2);
    lemma_le_bytes_len(1, 2);
    lemma_le_bytes_len(8, 2);
    lemma_le_bytes_len(level as nat, 4);
    lemma_pow256_values();
    assert(data.subrange(8, 10) =~= le_bytes(1, 2));
    lemma_held_number(data, 8, 1, 2);
    assert(data.subrange(10, 12) =~= le_bytes(8, 2));
    lemma_held_number(data, 10, 8, 2);
    assert(data.subrange(12, 14) =~= le_bytes(0, 2));
    lemma_held_number(data, 12, 0, 2);
    assert(data.subrange(14, 16) =~= le_bytes(1, 2));
    lemma_held_number(data, 14, 1, 2);
    assert(data.subrange(24, 28) =~= le_bytes(level as nat, 4));
    lemma_held_number(data, 24, level as nat, 4);
    let field = data.subrange(16, 24);
    assert(field =~= deflate_name());
    lemma_deflate_text();
    assert(field.subrange(0, 7) =~= deflate_name().take(7));
    lemma_text_at(field, 0, deflate_text());
    let found = filter_at(data, 8, 1)->Ok_0.0;
    assert(found.client_data =~= seq![level as u32]);
    reveal_with_fuel(filters_at, 2);
    assert(Seq::<FilterModel>::empty().push(found) =~= seq![
        deflate_filter(level, Some(deflate_text())),
    ]);
}

/// The type that an attribute value is written as.
pub open spec fn attr_dtype(kind: AttrModel) -> DtypeModel {
    match kind {
        AttrModel::FixedStr(s) => DtypeModel::String {
            fixed_len: Some(s.len()),
            charset: Charset::Utf8,
        },
        AttrModel::StrArray { width, .. } => DtypeModel::String {
            fixed_len: Some(width),
            charset: Charset::Utf8,
        },
        AttrModel::F64(_) => DtypeModel::Float { size: 8, order: ByteOrder::Little },
        AttrModel::F64Array(_) => DtypeModel::Float { size: 8, order: ByteOrder::Little },
        AttrModel::I64(_) => DtypeModel::Int { size: 8, signed: true, order: ByteOrder::Little },
        AttrModel::I64Array(_) => DtypeModel::Int {
            size: 8,
            signed: true,
            order: ByteOrder::Little,
        },
        AttrModel::I32(_) => DtypeModel::Int { size: 4, signed: true, order: ByteOrder::Little },
        AttrModel::ObjRefs(_) => DtypeModel::Reference { ref_type: RefType::Object },
    }
}

/// The extent of an attribute value: a single element, or a list.
pub open spec fn attr_space(kind: AttrModel) -> DataspaceModel {
    match kind.count() {
        None => DataspaceModel::Scalar,
        Some(n) => DataspaceModel::Simple {
            dims: seq![n as u64],
            max_dims: Some(seq![n as u64]),
        },
    }
}

/// A written attribute as it is read.
pub open spec fn read_attribute(name: Seq<char>, kind: AttrModel) -> AttributeModel {
    AttributeModel {
        name,
        dtype: attr_dtype(kind),
        dataspace: attr_space(kind),
        data: kind.data_image(),
    }
}

proof fn lemma_attr_dtype_back(kind: AttrModel)
    requires
        kind.dtype_image() is Ok,
    ensures
        datatype_in(kind.dtype_image()->Ok_0) == Ok::<DtypeModel, ErrorKind>(attr_dtype(kind)),
{
    let data = kind.dtype_image()->Ok_0;
    assert(held(data, 0, data)) by {
        assert(data.subrange(0, data.len() as int) =~= data);
    }
    match kind {
        AttrModel::FixedStr(s) => lemma_string_back(data, 0, s.len()),
        AttrModel::StrArray { width, .. } => lemma_string_back(data, 0, width),
        AttrModel::F64(_) => lemma_float_back(data, 0, 8, 11),
        AttrModel::F64Array(_) => lemma_float_back(data, 0, 8, 11),
        AttrModel::I64(_) => lemma_fixed_back(data, 0, 8, true),
        AttrModel::I64Array(_) => lemma_fixed_back(data, 0, 8, true),
        AttrModel::I32(_) => lemma_fixed_back(data, 0, 4, true),
        AttrModel::ObjRefs(_) => lemma_ref_back(data, 0),
    }
}

proof fn lemma_attr_space_back(kind: AttrModel)
    requires
        kind.count() is Some ==> kind.count()->0 <= u64::MAX,
    ensures
        space_in(kind.dspace_image()) == Ok::<DataspaceModel, ErrorKind>(attr_space(kind)),
{
    let data = kind.dspace_image();
    match kind.count() {
        None => {},
        Some(n) => {
            lemma_le_bytes_len(n, 8);
            lemma_pow256_values();
            assert(data.subrange(8, 16) =~= le_bytes(n, 8));
            lemma_held_number(data, 8, n, 8);
            assert(data.subrange(16, 24) =~= le_bytes(n, 8));
            lemma_held_number(data, 16, n, 8);
            assert(numbers_at(data, 8, 1) =~= seq![n as u64]);
            assert(numbers_at(data, 16, 1) =~= seq![n as u64]);
        },
    }
}

/// An attribute reads back with its name, its type, its extent and its value.
pub proof fn law_attribute_reads_back(name: Seq<char>, kind: AttrModel)
    requires
        nul_free(name),
        kind.wf(),
        kind.count() is Some ==> kind.count()->0 <= u64::MAX,
    ensures
        attr_image(encode_utf8(name), kind) is Ok ==> attribute_in(
            attr_image(encode_utf8(name), kind)->Ok_0,
        ) == Ok::<AttributeModel, ErrorKind>(read_attribute(name, kind)),
{
    let bytes = encode_utf8(name);
    if let Ok(data) = attr_image(bytes, kind) {
        let dtype = kind.dtype_image()->Ok_0;
        let space = kind.dspace_image();
        let value = kind.data_image();
        let text = bytes.push(0u8);
        lemma_kind_lens(kind);
        let a = seq![1u8, 0u8];
        let b = le_bytes(bytes.len() + 1, 2);
        let c = le_bytes(kind.dtype_size(), 2);
        let d = le_bytes(kind.dspace_size(), 2);
        let head = a + b + c + d;
        lemma_le_bytes_len(bytes.len() + 1, 2);
        lemma_le_bytes_len(kind.dtype_size(), 2);
        lemma_le_bytes_len(kind.dspace_size(), 2);
        lemma_pow256_values();
        assert(held(data, 0, data)) by {
            assert(data.subrange(0, data.len() as int) =~= data);
        }
        let front = head + padded(text) + padded(dtype) + padded(space);
        assert(data =~= front + value);
        lemma_held_parts(data, 0, front, value);
        lemma_held_parts(data, 0, head + padded(text) + padded(dtype), padded(space));
        lemma_held_parts(data, 0, head + padded(text), padded(dtype));
        lemma_held_parts(data, 0, head, padded(text));
        lemma_held_parts(data, 0, a + b + c, d);
        lemma_held_parts(data, 0, a + b, c);
        lemma_held_parts(data, 0, a, b);
        lemma_held_number(data, 2, bytes.len() + 1, 2);
        lemma_held_number(data, 4, kind.dtype_size(), 2);
        lemma_held_number(data, 6, kind.dspace_size(), 2);
        lemma_held_bytes(data, 0, a);
        assert(a[0] == data[0int + 0]);
        let (name_at, dtype_at, space_at, data_at) = attribute_parts(data);
        lemma_padded_held(data, name_at, text);
        lemma_padded_held(data, dtype_at, dtype);
        lemma_padded_held(data, space_at, space);
        assert(data_at == front.len());
        assert(data.subrange(data_at, data.len() as int) =~= value);
        let field = data.subrange(name_at, name_at + le_at(data, 2, 2));
        assert(field == text);
        assert(field.subrange(0, bytes.len() as int) =~= bytes);
        lemma_text_at(field, 0, name);
        lemma_attr_dtype_back(kind);
        lemma_attr_space_back(kind);
    }
}

proof fn lemma_padded_held(s: Seq<u8>, pos: int, part: Seq<u8>)
    requires
        held(s, pos, padded(part)),
    ensures
        held(s, pos, part),
        padded(part).len() == align8(part.len() as int),
{
    let pad = padded(part).skip(part.len() as int);
    assert(padded(part) =~= part + pad);
    lemma_held_parts(s, pos, part, pad);
}

} // verus!
