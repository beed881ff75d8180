//! Structured values: what bytes hold a value, and that decoding them gives it.

use vstd::prelude::*;
use vstd::utf8::encode_utf8;
use crate::attr_view::AttrView;
use crate::bytes::{fits_signed, lemma_pow256_values, lemma_signed_back, pow256, signed_bits};
use crate::dims::product;
use crate::dtype::{
    extent_of, size_of, views, ByteOrder, CompoundField, Dtype, DtypeModel, FieldModel, RefType,
};
use crate::error::{outcome, outcomes, try_each, ErrorKind, OxiH5Error};
use crate::float::{half_to_single, Float};
use crate::global_heap_writer::{holds_collection, law_collection_reads_back, numbered};
use crate::laws::attributes::lemma_listed;
use crate::laws::spelling::{
    law_number_reads_back, law_padded_text_reads_back, lemma_piece, lemma_spelled_len, listed,
    padded_text, piece, runs, spelled,
};
use crate::roundtrip::values::lemma_try_each_is;
use crate::utf8::{lemma_text_at, nul_free};
use crate::values::{
    compound_in, compounds_in, decode_compound, decode_dataset_compound, decode_object_refs,
    decode_vlen_sequences, decode_vlen_strings, element, fields_in, file_heaps, heap_object,
    law_vlen_ref_reads_back, run_in, run_items, sequence_in, sequences_in, value_in, vlen_ref_image,
    vlen_ref_in, vlen_strings_in, vlen_text, Heaps, Value, ValueModel, MAX_DECODE_DEPTH,
};

verus! {

/// Whether bytes are a reference, of that length, to an object that is `raw`.
pub open spec fn refers(heaps: Heaps, bytes: Seq<u8>, length: nat, raw: Seq<u8>) -> bool {
    &&& length <= u32::MAX
    &&& exists|index: u16, address: u64|
        {
            &&& bytes == #[trigger] vlen_ref_image(length, index as nat, address as nat)
            &&& heaps(address) is Ok
            &&& heaps(address)->Ok_0.contains_key(index)
            &&& heaps(address)->Ok_0[index] == raw
        }
}

/// Whether bytes are a reference of length zero, to whatever object.
pub open spec fn refers_to_nothing(bytes: Seq<u8>) -> bool {
    exists|index: u16, address: u64|
        bytes == #[trigger] vlen_ref_image(0, index as nat, address as nat)
}

/// Whether bytes are values of type `base`, one after the other.
pub open spec fn holds_run(
    heaps: Heaps,
    raw: Seq<u8>,
    base: DtypeModel,
    items: Seq<ValueModel>,
) -> bool
    decreases base, 1nat,
{
    &&& size_of(base) is Some
    &&& runs(raw, items.len(), size_of(base)->0)
    &&& forall|i: int|
        0 <= i < items.len() ==> holds(
            heaps,
            piece(raw, i, size_of(base)->0),
            base,
            #[trigger] items[i],
        )
}

/// Whether a field of a compound element lies where its offset says, and holds a value.
pub open spec fn holds_field(
    heaps: Heaps,
    bytes: Seq<u8>,
    field: FieldModel,
    pair: (Seq<char>, ValueModel),
) -> bool
    decreases field, 1nat,
{
    &&& pair.0 == field.name
    &&& size_of(field.dtype) is Some
    &&& field.offset + size_of(field.dtype)->0 <= bytes.len()
    &&& holds(
        heaps,
        bytes.subrange(field.offset as int, (field.offset + size_of(field.dtype)->0) as int),
        field.dtype,
        pair.1,
    )
}

/// Whether a value of `bytes.len()` bytes is as long as its field that reaches furthest.
pub open spec fn reaches(fields: Seq<FieldModel>, len: nat) -> bool {
    &&& forall|i: int|
        0 <= i < fields.len() ==> {
            &&& size_of((#[trigger] fields[i]).dtype) is Some
            &&& fields[i].offset + size_of(fields[i].dtype)->0 <= len
        }
    &&& len == 0 || exists|i: int|
        0 <= i < fields.len() && (#[trigger] fields[i]).offset + size_of(fields[i].dtype)->0 == len
}

/// Whether bytes are the value `v` of type `m`, no more and no less.
pub open spec fn holds(heaps: Heaps, bytes: Seq<u8>, m: DtypeModel, v: ValueModel) -> bool
    decreases m, 0nat,
{
    match m {
        DtypeModel::Int { size, signed, order } => {
            &&& size == 1 || size == 2 || size == 4 || size == 8
            &&& match v {
                ValueModel::Int(x) => {
                    &&& signed
                    &&& fits_signed(x as int, size)
                    &&& bytes == spelled(signed_bits(x as int, size), size, order)
                },
                ValueModel::Uint(x) => {
                    &&& !signed
                    &&& x < pow256(size)
                    &&& bytes == spelled(x as nat, size, order)
                },
                _ => false,
            }
        },
        DtypeModel::Float { size, order } => match v {
            ValueModel::Float(Float::Single(bits)) => {
                ||| size == 4 && bytes == spelled(bits as nat, 4, order)
                ||| size == 2 && exists|half: u16|
                    {
                        &&& bytes == #[trigger] spelled(half as nat, 2, order)
                        &&& bits == half_to_single(half)
                    }
            },
            ValueModel::Float(Float::Double(bits)) => size == 8 && bytes == spelled(
                bits as nat,
                8,
                order,
            ),
            _ => false,
        },
        DtypeModel::String { fixed_len: Some(n), .. } => match v {
            ValueModel::Str(chars) => {
                &&& nul_free(chars)
                &&& encode_utf8(chars).len() <= n
                &&& bytes == padded_text(chars, n)
            },
            _ => false,
        },
        DtypeModel::String { fixed_len: None, .. } => match v {
            ValueModel::Str(chars) => {
                ||| chars.len() == 0 && refers_to_nothing(bytes)
                ||| holds_text(heaps, bytes, chars)
            },
            _ => false,
        },
        DtypeModel::Opaque { size, .. } => bytes.len() == size && v == ValueModel::Opaque(bytes),
        DtypeModel::Bitfield { size, order } => match v {
            ValueModel::Bitfield(x) => {
                &&& size == 1 || size == 2 || size == 4 || size == 8
                &&& x < pow256(size)
                &&& bytes == spelled(x as nat, size, order)
            },
            _ => false,
        },
        DtypeModel::Reference { ref_type } => match v {
            ValueModel::ObjectRef(a) => ref_type == RefType::Object && bytes == spelled(
                a as nat,
                8,
                ByteOrder::Little,
            ),
            _ => false,
        },
        DtypeModel::Enum { base, .. } => match v {
            ValueModel::Enum(x) => {
                ||| holds(heaps, bytes, *base, ValueModel::Int(x))
                ||| x >= 0 && holds(heaps, bytes, *base, ValueModel::Uint(x as u64))
            },
            _ => false,
        },
        DtypeModel::Array { base, dims } => match v {
            ValueModel::Sequence(items) => {
                &&& items.len() == product(dims)
                &&& items.len() <= usize::MAX
                &&& holds_run(heaps, bytes, *base, items)
            },
            _ => false,
        },
        DtypeModel::VarLen { base } => match v {
            ValueModel::Sequence(items) => {
                ||| items.len() == 0 && refers_to_nothing(bytes)
                ||| exists|raw: Seq<u8>| #[trigger]
                    refers(heaps, bytes, items.len(), raw) && holds_run(heaps, raw, *base, items)
            },
            _ => false,
        },
        DtypeModel::Compound { fields } => match v {
            ValueModel::Compound(pairs) => {
                &&& pairs.len() == fields.len()
                &&& reaches(fields, bytes.len())
                &&& forall|i: int|
                    0 <= i < fields.len() ==> holds_field(
                        heaps,
                        bytes,
                        #[trigger] fields[i],
                        pairs[i],
                    )
            },
            _ => false,
        },
    }
}

/// Whether bytes are a reference to a text, with or without a zero byte behind it.
pub open spec fn holds_text(heaps: Heaps, bytes: Seq<u8>, chars: Seq<char>) -> bool {
    &&& nul_free(chars)
    &&& exists|length: nat, raw: Seq<u8>|
        {
            &&& length > 0
            &&& #[trigger] refers(heaps, bytes, length, raw)
            &&& raw == encode_utf8(chars) || raw == encode_utf8(chars).push(0u8)
        }
}

/// Whether a type is nested at most `levels` deep.
pub open spec fn shallow(m: DtypeModel, levels: int) -> bool
    decreases m,
{
    levels >= 0 && match m {
        DtypeModel::Enum { base, .. } => shallow(*base, levels - 1),
        DtypeModel::Array { base, .. } => shallow(*base, levels - 1),
        DtypeModel::VarLen { base } => shallow(*base, levels - 1),
        DtypeModel::Compound { fields } => forall|i: int|
            0 <= i < fields.len() ==> shallow((#[trigger] fields[i]).dtype, levels - 1),
        _ => true,
    }
}

proof fn lemma_extent(fields: Seq<FieldModel>, len: nat)
    requires
        forall|i: int|
            0 <= i < fields.len() ==> {
                &&& size_of((#[trigger] fields[i]).dtype) is Some
                &&& fields[i].offset + size_of(fields[i].dtype)->0 <= len
            },
    ensures
        extent_of(fields) is Some,
        extent_of(fields)->0 <= len,
        forall|i: int|
            0 <= i < fields.len() ==> (#[trigger] fields[i]).offset + size_of(fields[i].dtype)->0
                <= extent_of(fields)->0,
    decreases fields.len(),
{
    if fields.len() > 0 {
        let front = fields.drop_last();
        assert forall|i: int| 0 <= i < front.len() implies {
            &&& size_of((#[trigger] front[i]).dtype) is Some
            &&& front[i].offset + size_of(front[i].dtype)->0 <= len
        } by {
            assert(front[i] == fields[i]);
        }
        lemma_extent(front, len);
        let last = fields[fields.len() - 1];
        assert(size_of(last.dtype) is Some);
        assert forall|i: int| 0 <= i < fields.len() implies (#[trigger] fields[i]).offset + size_of(
            fields[i].dtype,
        )->0 <= extent_of(fields)->0 by {
            if i < front.len() {
                assert(front[i] == fields[i]);
            }
        }
    }
}

/// The size of a type is the number of bytes of its values.
pub proof fn law_size_is_length(heaps: Heaps, bytes: Seq<u8>, m: DtypeModel, v: ValueModel)
    requires
        holds(heaps, bytes, m, v),
    ensures
        !(m is VarLen) && !(m is String && m->fixed_len is None) ==> size_of(m) == Some(
            bytes.len(),
        ),
        m is VarLen ==> size_of(m) is None && bytes.len() == 16,
    decreases m,
{
    match m {
        DtypeModel::Int { size, signed, order } => {
            match v {
                ValueModel::Int(x) => lemma_spelled_len(signed_bits(x as int, size), size, order),
                ValueModel::Uint(x) => lemma_spelled_len(x as nat, size, order),
                _ => {},
            }
        },
        DtypeModel::Float { size, order } => {
            match v {
                ValueModel::Float(Float::Single(bits)) => {
                    if size == 4 {
                        lemma_spelled_len(bits as nat, 4, order);
                    } else {
                        let half = choose|half: u16|
                            {
                                &&& bytes == #[trigger] spelled(half as nat, 2, order)
                                &&& bits == half_to_single(half)
                            };
                        lemma_spelled_len(half as nat, 2, order);
                    }
                },
                ValueModel::Float(Float::Double(bits)) => lemma_spelled_len(bits as nat, 8, order),
                _ => {},
            }
        },
        DtypeModel::Bitfield { size, order } => {
            if let ValueModel::Bitfield(x) = v {
                lemma_spelled_len(x as nat, size, order);
            }
        },
        DtypeModel::Reference { ref_type } => {
            if let ValueModel::ObjectRef(a) = v {
                lemma_spelled_len(a as nat, 8, ByteOrder::Little);
            }
        },
        DtypeModel::Enum { base, .. } => {
            if let ValueModel::Enum(x) = v {
                if holds(heaps, bytes, *base, ValueModel::Int(x)) {
                    assert(*base is Int) by {
                        lemma_numbers_have_number_types(heaps, bytes, *base, ValueModel::Int(x));
                    }
                    law_size_is_length(heaps, bytes, *base, ValueModel::Int(x));
                } else {
                    lemma_numbers_have_number_types(
                        heaps,
                        bytes,
                        *base,
                        ValueModel::Uint(x as u64),
                    );
                    law_size_is_length(heaps, bytes, *base, ValueModel::Uint(x as u64));
                }
                assert(size_of(m) == Some(bytes.len()));
            }
        },
        DtypeModel::Array { base, dims } => {
            if let ValueModel::Sequence(items) = v {
                assert(holds_run(heaps, bytes, *base, items));
                let s = size_of(*base)->0;
                let n = items.len();
                assert(bytes.len() == n * s);
                assert(n * s == s * n) by (nonlinear_arith);
                assert(size_of(m) == Some(bytes.len()));
            }
        },
        DtypeModel::VarLen { base } => {
            if let ValueModel::Sequence(items) = v {
                if !(items.len() == 0 && refers_to_nothing(bytes)) {
                    let raw = choose|raw: Seq<u8>| #[trigger]
                        refers(heaps, bytes, items.len(), raw) && holds_run(
                            heaps,
                            raw,
                            *base,
                            items,
                        );
                    lemma_reference_len(items.len());
                } else {
                    lemma_reference_len(0);
                }
            }
        },
        DtypeModel::Compound { fields } => {
            lemma_extent(fields, bytes.len());
            if bytes.len() > 0 {
                let i = choose|i: int|
                    0 <= i < fields.len() && (#[trigger] fields[i]).offset + size_of(
                        fields[i].dtype,
                    )->0 == bytes.len();
                assert(fields[i].offset + size_of(fields[i].dtype)->0 <= extent_of(fields)->0);
            }
            assert(size_of(m) == Some(bytes.len()));
        },
        DtypeModel::String { fixed_len: Some(n), .. } => {
            if let ValueModel::Str(chars) = v {
                law_padded_text_reads_back(chars, n);
            }
        },
        _ => {},
    }
}

proof fn lemma_numbers_have_number_types(
    heaps: Heaps,
    bytes: Seq<u8>,
    m: DtypeModel,
    v: ValueModel,
)
    requires
        holds(heaps, bytes, m, v),
        v is Int || v is Uint,
    ensures
        m is Int,
{
}

proof fn lemma_reference_len(length: nat)
    ensures
        forall|index: u16, address: u64|
            (#[trigger] vlen_ref_image(length, index as nat, address as nat)).len() == 16,
{
    assert forall|index: u16, address: u64|
        (#[trigger] vlen_ref_image(length, index as nat, address as nat)).len() == 16 by {
        crate::bytes::lemma_le_bytes_len(length, 4);
        crate::bytes::lemma_le_bytes_len(index as nat, 2);
        crate::bytes::lemma_le_bytes_len(address as nat, 8);
    }
}

/// What a reference leads to.
proof fn lemma_referred(heaps: Heaps, bytes: Seq<u8>, length: nat, raw: Seq<u8>) -> (found: (
    u64,
    u16,
))
    requires
        refers(heaps, bytes, length, raw),
    ensures
        vlen_ref_in(bytes) == Ok::<(u32, u64, u16), ErrorKind>((length as u32, found.0, found.1)),
        heap_object(heaps, found.0, found.1) == Ok::<Seq<u8>, ErrorKind>(raw),
{
    let (index, address) = choose|index: u16, address: u64|
        {
            &&& bytes == #[trigger] vlen_ref_image(length, index as nat, address as nat)
            &&& heaps(address) is Ok
            &&& heaps(address)->Ok_0.contains_key(index)
            &&& heaps(address)->Ok_0[index] == raw
        };
    law_vlen_ref_reads_back(length as u32, index, address);
    (address, index)
}

proof fn lemma_refers_to_nothing(bytes: Seq<u8>)
    requires
        refers_to_nothing(bytes),
    ensures
        vlen_ref_in(bytes) is Ok,
        (vlen_ref_in(bytes)->Ok_0).0 == 0,
{
    let (index, address) = choose|index: u16, address: u64|
        bytes == #[trigger] vlen_ref_image(0, index as nat, address as nat);
    law_vlen_ref_reads_back(0, index, address);
}

/// A text that a reference leads to is read.
proof fn lemma_text_back(heaps: Heaps, bytes: Seq<u8>, chars: Seq<char>)
    requires
        chars.len() == 0 && refers_to_nothing(bytes) || holds_text(heaps, bytes, chars),
    ensures
        vlen_text(heaps, bytes) == Ok::<Seq<char>, ErrorKind>(chars),
{
    if chars.len() == 0 && refers_to_nothing(bytes) {
        lemma_refers_to_nothing(bytes);
        assert(chars =~= Seq::<char>::empty());
    } else {
        let (length, raw) = choose|length: nat, raw: Seq<u8>|
            {
                &&& length > 0
                &&& #[trigger] refers(heaps, bytes, length, raw)
                &&& raw == encode_utf8(chars) || raw == encode_utf8(chars).push(0u8)
            };
        lemma_referred(heaps, bytes, length, raw);
        let e = encode_utf8(chars);
        assert(raw.subrange(0, e.len() as int) =~= e);
        lemma_text_at(raw, 0, chars);
    }
}

proof fn lemma_run_back(
    heaps: Heaps,
    raw: Seq<u8>,
    base: DtypeModel,
    items: Seq<ValueModel>,
    k: nat,
    depth: nat,
)
    requires
        holds_run(heaps, raw, base, items),
        shallow(base, MAX_DECODE_DEPTH - 1 - depth),
        k <= items.len(),
    ensures
        run_items(heaps, raw, k, base, size_of(base)->0, depth) == Ok::<
            Seq<ValueModel>,
            ErrorKind,
        >(items.take(k as int)),
    decreases base, 1nat, k,
{
    let size = size_of(base)->0;
    if k > 0 {
        let i = k - 1;
        lemma_run_back(heaps, raw, base, items, i as nat, depth);
        lemma_piece(raw, items.len(), size, i);
        assert(element(raw, i, size) =~= piece(raw, i, size));
        assert(holds(heaps, piece(raw, i, size), base, items[i]));
        law_value_reads_back(heaps, piece(raw, i, size), base, items[i], depth);
        assert(items.take(i).push(items[i]) =~= items.take(k as int));
    } else {
        assert(items.take(0) =~= Seq::<ValueModel>::empty());
    }
}

proof fn lemma_whole_run_back(
    heaps: Heaps,
    raw: Seq<u8>,
    base: DtypeModel,
    items: Seq<ValueModel>,
    depth: nat,
)
    requires
        holds_run(heaps, raw, base, items),
        shallow(base, MAX_DECODE_DEPTH - 1 - depth),
    ensures
        run_in(heaps, raw, items.len(), base, depth) == Ok::<ValueModel, ErrorKind>(
            ValueModel::Sequence(items),
        ),
    decreases base, 2nat, 0nat,
{
    lemma_run_back(heaps, raw, base, items, items.len(), depth);
    assert(items.take(items.len() as int) =~= items);
}

proof fn lemma_fields_back(
    heaps: Heaps,
    bytes: Seq<u8>,
    fields: Seq<FieldModel>,
    pairs: Seq<(Seq<char>, ValueModel)>,
    depth: nat,
)
    requires
        pairs.len() == fields.len(),
        forall|i: int|
            0 <= i < fields.len() ==> holds_field(heaps, bytes, #[trigger] fields[i], pairs[i]),
        forall|i: int|
            0 <= i < fields.len() ==> shallow(
                (#[trigger] fields[i]).dtype,
                MAX_DECODE_DEPTH - 1 - depth,
            ),
    ensures
        fields_in(heaps, bytes, fields, depth) == Ok::<Seq<(Seq<char>, ValueModel)>, ErrorKind>(
            pairs,
        ),
    decreases fields, 0nat, 0nat,
{
    if fields.len() > 0 {
        let n = fields.len() - 1;
        let front = fields.drop_last();
        let first = pairs.drop_last();
        assert forall|i: int| 0 <= i < front.len() implies holds_field(
            heaps,
            bytes,
            #[trigger] front[i],
            first[i],
        ) by {
            assert(front[i] == fields[i] && first[i] == pairs[i]);
        }
        assert forall|i: int| 0 <= i < front.len() implies shallow(
            (#[trigger] front[i]).dtype,
            MAX_DECODE_DEPTH - 1 - depth,
        ) by {
            assert(front[i] == fields[i]);
        }
        lemma_fields_back(heaps, bytes, front, first, depth);
        let field = fields[n];
        assert(holds_field(heaps, bytes, field, pairs[n]));
        assert(shallow(field.dtype, MAX_DECODE_DEPTH - 1 - depth));
        let size = size_of(field.dtype)->0;
        let part = bytes.subrange(field.offset as int, (field.offset + size) as int);
        law_value_reads_back(heaps, part, field.dtype, pairs[n].1, depth);
        assert(first.push(pairs[n]) =~= pairs);
    } else {
        assert(pairs =~= Seq::<(Seq<char>, ValueModel)>::empty());
    }
}

/// Decoding the bytes of a value gives the value, whatever its type.
pub proof fn law_value_reads_back(
    heaps: Heaps,
    bytes: Seq<u8>,
    m: DtypeModel,
    v: ValueModel,
    depth: nat,
)
    requires
        holds(heaps, bytes, m, v),
        shallow(m, MAX_DECODE_DEPTH - 1 - depth),
    ensures
        value_in(heaps, bytes, m, depth) == Ok::<ValueModel, ErrorKind>(v),
    decreases m, 0nat, 0nat,
{
    lemma_pow256_values();
    assert(bytes.subrange(0, bytes.len() as int) =~= bytes);
    match m {
        DtypeModel::Int { size, signed, order } => {
            match v {
                ValueModel::Int(x) => {
                    lemma_spelled_len(signed_bits(x as int, size), size, order);
                    lemma_signed_back(x as int, size);
                    law_number_reads_back(signed_bits(x as int, size), size, order, bytes);
                },
                ValueModel::Uint(x) => {
                    lemma_spelled_len(x as nat, size, order);
                    law_number_reads_back(x as nat, size, order, bytes);
                },
                _ => {},
            }
        },
        DtypeModel::Float { size, order } => {
            match v {
                ValueModel::Float(Float::Single(bits)) => {
                    if size == 4 {
                        lemma_spelled_len(bits as nat, 4, order);
                        law_number_reads_back(bits as nat, 4, order, bytes);
                    } else {
                        let half = choose|half: u16|
                            {
                                &&& bytes == #[trigger] spelled(half as nat, 2, order)
                                &&& bits == half_to_single(half)
                            };
                        lemma_spelled_len(half as nat, 2, order);
                        law_number_reads_back(half as nat, 2, order, bytes);
                    }
                },
                ValueModel::Float(Float::Double(bits)) => {
                    lemma_spelled_len(bits as nat, 8, order);
                    law_number_reads_back(bits as nat, 8, order, bytes);
                },
                _ => {},
            }
        },
        DtypeModel::String { fixed_len: Some(n), .. } => {
            if let ValueModel::Str(chars) = v {
                law_padded_text_reads_back(chars, n);
            }
        },
        DtypeModel::String { fixed_len: None, .. } => {
            if let ValueModel::Str(chars) = v {
                lemma_text_back(heaps, bytes, chars);
            }
        },
        DtypeModel::Bitfield { size, order } => {
            if let ValueModel::Bitfield(x) = v {
                lemma_spelled_len(x as nat, size, order);
                law_number_reads_back(x as nat, size, order, bytes);
            }
        },
        DtypeModel::Reference { ref_type } => {
            if let ValueModel::ObjectRef(a) = v {
                lemma_spelled_len(a as nat, 8, ByteOrder::Little);
                law_number_reads_back(a as nat, 8, ByteOrder::Little, bytes);
            }
        },
        DtypeModel::Enum { base, .. } => {
            if let ValueModel::Enum(x) = v {
                if holds(heaps, bytes, *base, ValueModel::Int(x)) {
                    law_value_reads_back(heaps, bytes, *base, ValueModel::Int(x), depth + 1);
                } else {
                    law_value_reads_back(
                        heaps,
                        bytes,
                        *base,
                        ValueModel::Uint(x as u64),
                        depth + 1,
                    );
                }
            }
        },
        DtypeModel::Array { base, dims } => {
            if let ValueModel::Sequence(items) = v {
                lemma_whole_run_back(heaps, bytes, *base, items, depth + 1);
            }
        },
        DtypeModel::VarLen { base } => {
            if let ValueModel::Sequence(items) = v {
                lemma_sequence_back(heaps, bytes, *base, items, depth + 1);
            }
        },
        DtypeModel::Compound { fields } => {
            if let ValueModel::Compound(pairs) = v {
                lemma_fields_back(heaps, bytes, fields, pairs, depth + 1);
            }
        },
        _ => {},
    }
}

proof fn lemma_sequence_back(
    heaps: Heaps,
    bytes: Seq<u8>,
    base: DtypeModel,
    items: Seq<ValueModel>,
    depth: nat,
)
    requires
        items.len() == 0 && refers_to_nothing(bytes) || exists|raw: Seq<u8>| #[trigger]
            refers(heaps, bytes, items.len(), raw) && holds_run(heaps, raw, base, items),
        shallow(base, MAX_DECODE_DEPTH - 1 - depth),
    ensures
        sequence_in(heaps, bytes, base, depth) == Ok::<ValueModel, ErrorKind>(
            ValueModel::Sequence(items),
        ),
    decreases base, 3nat, 0nat,
{
    if items.len() == 0 {
        assert(items =~= Seq::<ValueModel>::empty());
    }
    if items.len() == 0 && refers_to_nothing(bytes) {
        lemma_refers_to_nothing(bytes);
    } else {
        let raw = choose|raw: Seq<u8>| #[trigger]
            refers(heaps, bytes, items.len(), raw) && holds_run(heaps, raw, base, items);
        lemma_referred(heaps, bytes, items.len(), raw);
        lemma_whole_run_back(heaps, raw, base, items, depth);
    }
}

/// A sequence is read back as it was stored: where a file holds a collection, and one of
/// its objects is the values one after the other, a reference to it of as many elements
/// decodes to exactly these values, in order.
pub proof fn law_stored_sequence_reads_back(
    file: Seq<u8>,
    address: u64,
    objects: Seq<Seq<u8>>,
    k: int,
    base: DtypeModel,
    items: Seq<ValueModel>,
)
    requires
        address % 8 == 0,
        objects.len() <= 65535,
        holds_collection(file, address as int, objects),
        file.len() <= usize::MAX,
        0 <= k < objects.len(),
        items.len() <= u32::MAX,
        holds_run(file_heaps(file), objects[k], base, items),
        shallow(base, MAX_DECODE_DEPTH - 1),
    ensures
        sequence_in(
            file_heaps(file),
            vlen_ref_image(items.len(), (k + 1) as nat, address as nat),
            base,
            0,
        ) == Ok::<ValueModel, ErrorKind>(ValueModel::Sequence(items)),
{
    let heaps = file_heaps(file);
    let bytes = vlen_ref_image(items.len(), (k + 1) as nat, address as nat);
    law_collection_reads_back(file, address as int, objects);
    let index = (k + 1) as u16;
    assert(heaps(address) == Ok::<Map<u16, Seq<u8>>, ErrorKind>(numbered(objects)));
    assert(bytes == vlen_ref_image(items.len(), index as nat, address as nat));
    assert(refers(heaps, bytes, items.len(), objects[k]));
    lemma_sequence_back(heaps, bytes, base, items, 0);
}

/// References to sequences decode to these sequences, in order.
pub proof fn law_sequences_are_decoded(
    file: &[u8],
    data: &[u8],
    n: usize,
    base: &Dtype,
    view: &AttrView,
    sequences: Seq<ValueModel>,
    r: Result<Vec<Value>, OxiH5Error>,
)
    requires
        sequences.len() == n,
        runs(data@, n as nat, 16),
        size_of(base@) is Some,
        shallow(base@, MAX_DECODE_DEPTH - 2),
        forall|i: int|
            0 <= i < n ==> holds(
                file_heaps(file@),
                piece(data@, i, 16),
                DtypeModel::VarLen { base: Box::new(base@) },
                #[trigger] sequences[i],
            ),
        call_ensures(decode_vlen_sequences, (file, data, n, base), r) || {
            &&& view.file_data@ == file@
            &&& view.attr@.data == data@
            &&& listed(view.attr@.dataspace, n as nat)
            &&& view.attr@.dtype == (DtypeModel::VarLen { base: Box::new(base@) })
            &&& call_ensures(AttrView::as_vlen_sequence, (view,), r)
        },
    ensures
        outcomes(r) == Ok::<Seq<ValueModel>, ErrorKind>(sequences),
{
    let heaps = file_heaps(file@);
    if listed(view.attr@.dataspace, n as nat) {
        lemma_listed(view.attr@.dataspace, n as nat);
    }
    let f = |i: int| sequence_in(heaps, element(data@, i, 16), base@, 0);
    let m = DtypeModel::VarLen { base: Box::new(base@) };
    assert forall|i: int| 0 <= i < n implies #[trigger] f(i) == Ok::<ValueModel, ErrorKind>(
        sequences[i],
    ) by {
        lemma_piece(data@, n as nat, 16, i);
        assert(element(data@, i, 16) =~= piece(data@, i, 16));
        let v = sequences[i];
        assert(holds(heaps, piece(data@, i, 16), m, v));
        if let ValueModel::Sequence(items) = v {
            lemma_levels(base@, MAX_DECODE_DEPTH - 2, MAX_DECODE_DEPTH - 1);
            lemma_sequence_back(heaps, piece(data@, i, 16), base@, items, 0);
        }
    }
    lemma_try_each_is(n as nat, f, sequences);
    assert(sequences.take(n as int) =~= sequences);
    assert(sequences_in(heaps, data@, n as nat, base@) == try_each(n as nat, f));
}

proof fn lemma_levels(m: DtypeModel, a: int, b: int)
    requires
        shallow(m, a),
        a <= b,
    ensures
        shallow(m, b),
    decreases m,
{
    match m {
        DtypeModel::Enum { base, .. } => lemma_levels(*base, a - 1, b - 1),
        DtypeModel::Array { base, .. } => lemma_levels(*base, a - 1, b - 1),
        DtypeModel::VarLen { base } => lemma_levels(*base, a - 1, b - 1),
        DtypeModel::Compound { fields } => {
            assert forall|i: int| 0 <= i < fields.len() implies shallow(
                (#[trigger] fields[i]).dtype,
                b - 1,
            ) by {
                lemma_levels(fields[i].dtype, a - 1, b - 1);
            }
        },
        _ => {},
    }
}

/// References to texts decode to these texts, in order.
pub proof fn law_texts_are_decoded(
    file: &[u8],
    data: &[u8],
    n: usize,
    view: &AttrView,
    texts: Seq<Seq<char>>,
    r: Result<Vec<String>, OxiH5Error>,
)
    requires
        texts.len() == n,
        runs(data@, n as nat, 16),
        forall|i: int|
            0 <= i < n ==> {
                ||| (#[trigger] texts[i]).len() == 0 && refers_to_nothing(piece(data@, i, 16))
                ||| holds_text(file_heaps(file@), piece(data@, i, 16), texts[i])
            },
        call_ensures(decode_vlen_strings, (file, data, n), r) || {
            &&& view.file_data@ == file@
            &&& view.attr@.data == data@
            &&& listed(view.attr@.dataspace, n as nat)
            &&& view.attr@.dtype is String
            &&& view.attr@.dtype->fixed_len is None
            &&& call_ensures(AttrView::as_strings, (view,), r)
        },
    ensures
        outcomes(r) == Ok::<Seq<Seq<char>>, ErrorKind>(texts),
{
    let heaps = file_heaps(file@);
    if listed(view.attr@.dataspace, n as nat) {
        lemma_listed(view.attr@.dataspace, n as nat);
    }
    let f = |i: int| vlen_text(heaps, element(data@, i, 16));
    assert forall|i: int| 0 <= i < n implies #[trigger] f(i) == Ok::<Seq<char>, ErrorKind>(
        texts[i],
    ) by {
        lemma_piece(data@, n as nat, 16, i);
        assert(element(data@, i, 16) =~= piece(data@, i, 16));
        assert(texts[i].len() >= 0);
        lemma_text_back(heaps, piece(data@, i, 16), texts[i]);
    }
    lemma_try_each_is(n as nat, f, texts);
    assert(texts.take(n as int) =~= texts);
    assert(vlen_strings_in(heaps, data@, n as nat) == try_each(n as nat, f));
}

/// Object references decode to the addresses that their bytes spell, in order.
pub proof fn law_references_are_decoded(
    data: &[u8],
    n: usize,
    addresses: Seq<u64>,
    r: Result<Vec<u64>, OxiH5Error>,
)
    requires
        addresses.len() == n,
        runs(data@, n as nat, 8),
        forall|i: int|
            0 <= i < n ==> piece(data@, i, 8) == spelled(
                #[trigger] addresses[i] as nat,
                8,
                ByteOrder::Little,
            ),
        call_ensures(decode_object_refs, (data, n), r),
    ensures
        outcome(r) == Ok::<Seq<u64>, ErrorKind>(addresses),
{
    lemma_pow256_values();
    let found = outcome(r)->Ok_0;
    assert forall|i: int| 0 <= i < n implies #[trigger] found[i] == addresses[i] by {
        lemma_piece(data@, n as nat, 8, i);
        assert(data@.subrange(i * 8, i * 8 + 8) == piece(data@, i, 8));
        assert(addresses[i] <= u64::MAX);
        crate::bytes::lemma_le_round_trip(addresses[i] as nat, 8, data@, i * 8);
    }
    assert(found =~= addresses);
}

/// Compound elements decode field by field, each from where its offset says: one element
/// after the other, at the stride that is given, or as far apart as the fields reach.
pub proof fn law_compounds_are_decoded(
    file: &[u8],
    data: &[u8],
    fields: &[CompoundField],
    n: usize,
    stride: usize,
    values: Seq<ValueModel>,
    r: Result<Vec<Value>, OxiH5Error>,
)
    requires
        values.len() == n,
        n > 0,
        stride > 0 || reaches(views(fields@), data@.len() / n as nat) && data@.len() > 0,
        data@.len() % n as nat == 0,
        stride > 0 ==> data@.len() == n * stride,
        forall|i: int|
            0 <= i < n ==> {
                &&& #[trigger] values[i] is Compound
                &&& values[i]->Compound_0.len() == fields@.len()
                &&& forall|d: int|
                    0 <= d < fields@.len() ==> holds_field(
                        file_heaps(file@),
                        piece(data@, i, data@.len() / n as nat),
                        (#[trigger] fields@[d])@,
                        values[i]->Compound_0[d],
                    )
            },
        forall|d: int|
            0 <= d < fields@.len() ==> shallow(
                (#[trigger] fields@[d])@.dtype,
                MAX_DECODE_DEPTH - 1,
            ),
        call_ensures(decode_compound, (file, data, fields, n, stride), r) || call_ensures(
            decode_dataset_compound,
            (file, data, fields, n, stride),
            r,
        ),
    ensures
        outcomes(r) == Ok::<Seq<ValueModel>, ErrorKind>(values),
{
    let heaps = file_heaps(file@);
    let all = views(fields@);
    let size = data@.len() / n as nat;
    vstd::arithmetic::div_mod::lemma_fundamental_div_mod(data@.len() as int, n as int);
    assert(data@.len() == n * size);
    if stride > 0 {
        assert(size == stride) by (nonlinear_arith)
            requires
                n * size == n * stride,
                n > 0,
        ;
    } else {
        lemma_extent(all, size);
        assert(size > 0) by (nonlinear_arith)
            requires
                n * size > 0,
                n > 0,
        ;
        let i = choose|i: int|
            0 <= i < all.len() && (#[trigger] all[i]).offset + size_of(all[i].dtype)->0 == size;
        assert(all[i].offset + size_of(all[i].dtype)->0 <= extent_of(all)->0);
    }
    let f = |i: int| compound_in(heaps, element(data@, i, size), all);
    assert forall|i: int| 0 <= i < n implies #[trigger] f(i) == Ok::<ValueModel, ErrorKind>(
        values[i],
    ) by {
        lemma_piece(data@, n as nat, size, i);
        let bytes = piece(data@, i, size);
        assert(element(data@, i, size) =~= bytes);
        assert(values[i] is Compound);
        let pairs = values[i]->Compound_0;
        assert forall|d: int| 0 <= d < all.len() implies holds_field(
            heaps,
            bytes,
            #[trigger] all[d],
            pairs[d],
        ) by {
            assert(all[d] == fields@[d]@);
        }
        assert forall|d: int| 0 <= d < all.len() implies shallow(
            (#[trigger] all[d]).dtype,
            MAX_DECODE_DEPTH - 1,
        ) by {
            assert(all[d] == fields@[d]@);
        }
        lemma_fields_back(heaps, bytes, all, pairs, 0);
    }
    lemma_try_each_is(n as nat, f, values);
    assert(values.take(n as int) =~= values);
    assert(compounds_in(heaps, data@, all, n as nat, stride as nat) == try_each(n as nat, f));
}

} // verus!
