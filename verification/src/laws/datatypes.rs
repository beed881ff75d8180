//! Datatypes: the bytes that describe a type, and that reading them gives the type.

use vstd::prelude::*;
use vstd::utf8::encode_utf8;
use crate::bytes::{
    fits_signed, le_at, le_bytes, lemma_be_round_trip, lemma_le_bytes_len, lemma_le_round_trip,
    lemma_pow256_values, lemma_signed_back, pow256, signed_bits, zeros,
};
use crate::datatype::{
    choices_at, member_gap, members_at, name_at, names_at, parse_datatype, plain_int, type_at,
};
use crate::dtype::{size_of, ByteOrder, Charset, Dtype, DtypeModel, FieldModel, RefType};
use crate::error::{outcome, ErrorKind, OxiH5Error};
use crate::laws::spelling::{lemma_spelled_len, spelled};
use crate::roundtrip::held::{held, lemma_held_bytes, lemma_held_number, lemma_held_parts};
use crate::utf8::{lemma_text_at, nul_free};
use crate::write::attr::padded;

verus! {

/// What opens the description of a type: the class and the version, three bytes of flags,
/// the size.
pub open spec fn type_head(class: int, version: int, a: int, b: int, size: nat) -> Seq<u8> {
    seq![(class + 16 * version) as u8, a as u8, b as u8, 0u8] + le_bytes(size, 4)
}

/// The flag of a byte order.
pub open spec fn order_flag(order: ByteOrder) -> int {
    match order {
        ByteOrder::Little => 0,
        ByteOrder::Big => 1,
    }
}

/// The flag of a character set.
pub open spec fn charset_flag(charset: Charset) -> int {
    match charset {
        Charset::Ascii => 0,
        Charset::Utf8 => 16,
    }
}

/// A name with the zero byte that ends it; padded to a multiple of 8 before version 3.
pub open spec fn name_image(name: Seq<char>, version: int) -> Seq<u8> {
    if version >= 3 {
        encode_utf8(name).push(0u8)
    } else {
        padded(encode_utf8(name).push(0u8))
    }
}

/// Names, one after the other.
pub open spec fn names_image(names: Seq<Seq<char>>, version: int) -> Seq<u8>
    decreases names.len(),
{
    if names.len() == 0 {
        Seq::empty()
    } else {
        names_image(names.drop_last(), version) + name_image(names.last(), version)
    }
}

/// Numbers of `size` bytes, one after the other.
pub open spec fn spelled_all(values: Seq<nat>, size: nat, order: ByteOrder) -> Seq<u8>
    decreases values.len(),
{
    if values.len() == 0 {
        Seq::empty()
    } else {
        spelled_all(values.drop_last(), size, order) + spelled(values.last(), size, order)
    }
}

/// How many bytes the offset of a member takes: as many as the size of the compound does.
pub open spec fn bytes_of(size: nat) -> nat {
    if size < 256 {
        1
    } else if size < 256 * 256 {
        2
    } else if size < 256 * 256 * 256 {
        3
    } else {
        4
    }
}

/// What stands between the name and the type of a member: its offset; in version 1 also
/// 28 bytes about dimensions that members no longer have.
pub open spec fn offset_image(offset: nat, version: int, size: nat) -> Seq<u8> {
    if version == 1 {
        le_bytes(offset, 4) + zeros(28)
    } else if version == 2 {
        le_bytes(offset, 4)
    } else {
        le_bytes(offset, bytes_of(size))
    }
}

/// The members of a compound, from the first on.
pub open spec fn members_image(fields: Seq<FieldModel>, version: int, size: nat) -> Seq<u8>
    decreases fields,
{
    if fields.len() == 0 {
        Seq::empty()
    } else {
        name_image(fields[0].name, version) + offset_image(fields[0].offset, version, size)
            + type_image(fields[0].dtype, version) + members_image(fields.skip(1), version, size)
    }
}

/// The size of an enumeration's values.
pub open spec fn base_size(base: DtypeModel) -> nat {
    match base {
        DtypeModel::Int { size, .. } => size,
        _ => 0,
    }
}

pub open spec fn base_order(base: DtypeModel) -> ByteOrder {
    match base {
        DtypeModel::Int { order, .. } => order,
        _ => ByteOrder::Little,
    }
}

/// The description of a type in a version of the format.
pub open spec fn type_image(m: DtypeModel, version: int) -> Seq<u8>
    decreases m,
{
    match m {
        DtypeModel::Int { size, signed, order } => type_head(
            0,
            version,
            order_flag(order) + if signed {
                8int
            } else {
                0
            },
            0,
            size,
        ) + zeros(2) + le_bytes(size * 8, 2),
        DtypeModel::Bitfield { size, order } => type_head(4, version, order_flag(order), 0, size)
            + zeros(2) + le_bytes(size * 8, 2),
        DtypeModel::Float { size, order } => type_head(1, version, order_flag(order), 0, size)
            + zeros(12),
        DtypeModel::String { fixed_len: Some(n), charset } => type_head(
            3,
            version,
            charset_flag(charset),
            0,
            n,
        ),
        DtypeModel::String { fixed_len: None, charset } => type_head(9, version, 1, 0, 16)
            + type_head(3, version, charset_flag(charset), 0, 1),
        DtypeModel::Opaque { size, tag } => type_head(
            5,
            version,
            encode_utf8(tag).len() as int,
            0,
            size,
        ) + encode_utf8(tag),
        DtypeModel::Reference { ref_type: RefType::Object } => type_head(7, version, 0, 0, 8),
        DtypeModel::Reference { ref_type: RefType::Region } => type_head(7, version, 1, 0, 12),
        DtypeModel::VarLen { base } => type_head(9, version, 0, 0, 16) + type_image(*base, version),
        DtypeModel::Array { base, dims } => type_head(10, version, 0, 0, 0) + (if version >= 3 {
            seq![dims.len() as u8]
        } else {
            seq![dims.len() as u8, 0u8, 0u8, 0u8]
        }) + spelled_all(
            Seq::new(dims.len(), |i: int| dims[i] as nat),
            4,
            ByteOrder::Little,
        ) + (if version >= 3 {
            Seq::empty()
        } else {
            zeros(dims.len() * 4)
        }) + type_image(*base, version),
        DtypeModel::Enum { base, members } => type_head(
            8,
            version,
            members.len() as int % 256,
            members.len() as int / 256,
            base_size(*base),
        ) + type_image(*base, version) + names_image(
            Seq::new(members.len(), |i: int| members[i].0),
            version,
        ) + spelled_all(
            Seq::new(
                members.len(),
                |i: int| signed_bits(members[i].1 as int, base_size(*base)),
            ),
            base_size(*base),
            base_order(*base),
        ),
        DtypeModel::Compound { fields } => type_head(
            6,
            version,
            fields.len() as int % 256,
            fields.len() as int / 256,
            size_of(m)->0,
        ) + members_image(fields, version, size_of(m)->0),
    }
}

/// Whether a type can be described in a version: its numbers fit their fields, and its
/// names have no NUL characters. An enumeration is one of integers.
pub open spec fn describable(m: DtypeModel, version: int) -> bool
    decreases m,
{
    &&& 1 <= version <= 3
    &&& match m {
        DtypeModel::Int { size, .. } => size <= u32::MAX,
        DtypeModel::Bitfield { size, .. } => size <= u32::MAX,
        DtypeModel::Float { size, .. } => size <= u32::MAX,
        DtypeModel::String { fixed_len: Some(n), .. } => n <= u32::MAX,
        DtypeModel::String { fixed_len: None, .. } => true,
        DtypeModel::Opaque { size, tag } => {
            &&& size <= u32::MAX
            &&& nul_free(tag)
            &&& encode_utf8(tag).len() <= u8::MAX
        },
        DtypeModel::Reference { .. } => true,
        DtypeModel::VarLen { base } => describable(*base, version),
        DtypeModel::Array { base, dims } => {
            &&& describable(*base, version)
            &&& dims.len() <= u8::MAX
            &&& forall|i: int| 0 <= i < dims.len() ==> 0 <= #[trigger] dims[i] <= u32::MAX
        },
        DtypeModel::Enum { base, members } => {
            &&& describable(*base, version)
            &&& *base is Int
            &&& base_size(*base) == 1 || base_size(*base) == 2 || base_size(*base) == 4
                || base_size(*base) == 8
            &&& members.len() <= u16::MAX
            &&& forall|i: int|
                0 <= i < members.len() ==> {
                    &&& nul_free((#[trigger] members[i]).0)
                    &&& if (*base)->Int_signed || base_size(*base) == 8 {
                        fits_signed(members[i].1 as int, base_size(*base))
                    } else {
                        0 <= members[i].1 < pow256(base_size(*base))
                    }
                }
        },
        DtypeModel::Compound { fields } => {
            &&& size_of(m) is Some
            &&& size_of(m)->0 <= u32::MAX
            &&& fields.len() <= u16::MAX
            &&& forall|i: int|
                0 <= i < fields.len() ==> {
                    &&& nul_free((#[trigger] fields[i]).name)
                    &&& fields[i].offset <= size_of(m)->0
                    &&& describable(fields[i].dtype, version)
                }
        },
    }
}

proof fn lemma_head(s: Seq<u8>, pos: int, class: int, version: int, a: int, b: int, size: nat)
    requires
        held(s, pos, type_head(class, version, a, b, size)),
        0 <= class < 16,
        1 <= version <= 3,
        0 <= a < 256,
        0 <= b < 256,
        size <= u32::MAX,
    ensures
        pos + 8 <= s.len(),
        s[pos] % 16 == class,
        s[pos] / 16 == version,
        s[pos + 1] == a,
        s[pos + 2] == b,
        le_at(s, pos + 4, 4) == size,
        type_head(class, version, a, b, size).len() == 8,
{
    let head = seq![(class + 16 * version) as u8, a as u8, b as u8, 0u8];
    lemma_le_bytes_len(size, 4);
    lemma_pow256_values();
    lemma_held_parts(s, pos, head, le_bytes(size, 4));
    lemma_held_bytes(s, pos, head);
    assert(head[0] == s[pos + 0] && head[1] == s[pos + 1] && head[2] == s[pos + 2]);
    lemma_held_number(s, pos + 4, size, 4);
}

proof fn lemma_name(s: Seq<u8>, pos: int, name: Seq<char>, version: int)
    requires
        held(s, pos, name_image(name, version)),
        nul_free(name),
    ensures
        name_at(s, pos, version) == Ok::<(Seq<char>, int), ErrorKind>(
            (name, pos + name_image(name, version).len()),
        ),
        name_image(name, version).len() > 0,
{
    let e = encode_utf8(name);
    let part = e.push(0u8);
    let image = name_image(name, version);
    let rest = image.skip(part.len() as int);
    assert(image =~= part + rest);
    lemma_held_parts(s, pos, part, rest);
    assert(part =~= e + seq![0u8]);
    lemma_held_parts(s, pos, e, seq![0u8]);
    lemma_held_bytes(s, pos + e.len(), seq![0u8]);
    assert(seq![0u8][0] == s[pos + e.len() + 0]);
    lemma_text_at(s, pos, name);
}

proof fn lemma_names(s: Seq<u8>, pos: int, names: Seq<Seq<char>>, version: int)
    requires
        held(s, pos, names_image(names, version)),
        forall|i: int| 0 <= i < names.len() ==> nul_free(#[trigger] names[i]),
    ensures
        names_at(s, pos, names.len(), version) == Ok::<(Seq<Seq<char>>, int), ErrorKind>(
            (names, pos + names_image(names, version).len()),
        ),
    decreases names.len(),
{
    if names.len() > 0 {
        let front = names.drop_last();
        let before = names_image(front, version);
        let last = names.last();
        assert forall|i: int| 0 <= i < front.len() implies nul_free(#[trigger] front[i]) by {
            assert(front[i] == names[i]);
        }
        lemma_held_parts(s, pos, before, name_image(last, version));
        lemma_names(s, pos, front, version);
        assert(nul_free(names[names.len() - 1]));
        lemma_name(s, pos + before.len(), last, version);
        assert(front.push(last) =~= names);
    } else {
        assert(names =~= Seq::<Seq<char>>::empty());
    }
}

pub proof fn lemma_spelled_all_len(values: Seq<nat>, size: nat, order: ByteOrder)
    ensures
        spelled_all(values, size, order).len() == values.len() * size,
    decreases values.len(),
{
    let n = values.len() as int;
    if n > 0 {
        lemma_spelled_all_len(values.drop_last(), size, order);
        lemma_spelled_len(values.last(), size, order);
        assert((n - 1) * size + size == n * size) by (nonlinear_arith);
    } else {
        assert(0 * size == 0) by (nonlinear_arith);
    }
}

pub proof fn lemma_spelled_at(
    s: Seq<u8>,
    pos: int,
    values: Seq<nat>,
    size: nat,
    order: ByteOrder,
    i: int,
)
    requires
        held(s, pos, spelled_all(values, size, order)),
        0 <= i < values.len(),
        values[i] < pow256(size),
    ensures
        crate::dataset::word_at(s, pos + i * size, size, order) == values[i],
    decreases values.len(),
{
    let front = values.drop_last();
    lemma_spelled_all_len(front, size, order);
    lemma_spelled_len(values.last(), size, order);
    lemma_held_parts(
        s,
        pos,
        spelled_all(front, size, order),
        spelled(values.last(), size, order),
    );
    if i == values.len() - 1 {
        match order {
            ByteOrder::Little => lemma_le_round_trip(values[i], size, s, pos + i * size),
            ByteOrder::Big => lemma_be_round_trip(values[i], size, s, pos + i * size),
        }
    } else {
        lemma_spelled_at(s, pos, front, size, order, i);
    }
}

proof fn lemma_offset(s: Seq<u8>, pos: int, offset: nat, version: int, size: nat)
    requires
        held(s, pos, offset_image(offset, version, size)),
        1 <= version <= 3,
        offset <= size <= u32::MAX,
    ensures
        offset_image(offset, version, size).len() == member_gap(version, size).0,
        le_at(s, pos, member_gap(version, size).1) == offset,
{
    lemma_pow256_values();
    assert(pow256(3) == 256 * 256 * 256) by {
        reveal_with_fuel(pow256, 4);
    }
    let width = if version < 3 {
        4
    } else {
        bytes_of(size)
    };
    lemma_le_bytes_len(offset, width);
    if version == 1 {
        lemma_held_parts(s, pos, le_bytes(offset, 4), zeros(28));
    }
    lemma_held_number(s, pos, offset, width);
}

proof fn lemma_members(
    s: Seq<u8>,
    pos: int,
    fields: Seq<FieldModel>,
    version: int,
    size: nat,
)
    requires
        1 <= version <= 3,
        size <= u32::MAX,
        held(s, pos, members_image(fields, version, size)),
        forall|i: int|
            0 <= i < fields.len() ==> {
                &&& nul_free((#[trigger] fields[i]).name)
                &&& fields[i].offset <= size
                &&& describable(fields[i].dtype, version)
            },
    ensures
        members_at(s, pos, fields.len(), version, size) == Ok::<(Seq<FieldModel>, int), ErrorKind>(
            (fields, pos + members_image(fields, version, size).len()),
        ),
    decreases fields, 0nat,
{
    if fields.len() > 0 {
        let field = fields[0];
        let rest = fields.skip(1);
        let a = name_image(field.name, version);
        let b = offset_image(field.offset, version, size);
        let c = type_image(field.dtype, version);
        let d = members_image(rest, version, size);
        lemma_held_parts(s, pos, a + b + c, d);
        lemma_held_parts(s, pos, a + b, c);
        lemma_held_parts(s, pos, a, b);
        assert(nul_free(fields[0].name));
        lemma_name(s, pos, field.name, version);
        lemma_offset(s, pos + a.len(), field.offset, version, size);
        law_type_reads_back(s, pos + a.len() + b.len(), field.dtype, version);
        crate::datatype::lemma_type_ends(s, pos + a.len() + b.len());
        assert forall|i: int| 0 <= i < rest.len() implies {
            &&& nul_free((#[trigger] rest[i]).name)
            &&& rest[i].offset <= size
            &&& describable(rest[i].dtype, version)
        } by {
            assert(rest[i] == fields[i + 1]);
        }
        lemma_members(s, pos + a.len() + b.len() + c.len(), rest, version, size);
        assert(seq![field] + rest =~= fields);
    } else {
        assert(fields =~= Seq::<FieldModel>::empty());
    }
}

/// Wherever bytes describe a type, the type is read there, and its description ends where
/// it ends.
pub proof fn law_type_reads_back(s: Seq<u8>, pos: int, m: DtypeModel, version: int)
    requires
        0 <= pos,
        describable(m, version),
        held(s, pos, type_image(m, version)),
    ensures
        type_at(s, pos) == Ok::<(DtypeModel, int), ErrorKind>(
            (m, pos + type_image(m, version).len()),
        ),
    decreases m, 0nat,
{
    lemma_pow256_values();
    match m {
        DtypeModel::Int { size, signed, order } => {
            let flag = order_flag(order) + if signed {
                8int
            } else {
                0
            };
            let head = type_head(0, version, flag, 0, size);
            let tail = zeros(2) + le_bytes(size * 8, 2);
            lemma_le_bytes_len(size * 8, 2);
            assert(type_image(m, version) =~= head + tail);
            lemma_held_parts(s, pos, head, tail);
            lemma_head(s, pos, 0, version, flag, 0, size);
        },
        DtypeModel::Bitfield { size, order } => {
            let head = type_head(4, version, order_flag(order), 0, size);
            let tail = zeros(2) + le_bytes(size * 8, 2);
            lemma_le_bytes_len(size * 8, 2);
            assert(type_image(m, version) =~= head + tail);
            lemma_held_parts(s, pos, head, tail);
            lemma_head(s, pos, 4, version, order_flag(order), 0, size);
        },
        DtypeModel::Float { size, order } => {
            let head = type_head(1, version, order_flag(order), 0, size);
            lemma_held_parts(s, pos, head, zeros(12));
            lemma_head(s, pos, 1, version, order_flag(order), 0, size);
        },
        DtypeModel::String { fixed_len: Some(n), charset } => {
            lemma_head(s, pos, 3, version, charset_flag(charset), 0, n);
        },
        DtypeModel::String { fixed_len: None, charset } => {
            let head = type_head(9, version, 1, 0, 16);
            let base = type_head(3, version, charset_flag(charset), 0, 1);
            lemma_held_parts(s, pos, head, base);
            lemma_head(s, pos, 9, version, 1, 0, 16);
            lemma_head(s, pos + 8, 3, version, charset_flag(charset), 0, 1);
            reveal_with_fuel(type_at, 2);
        },
        DtypeModel::Opaque { size, tag } => {
            let e = encode_utf8(tag);
            let head = type_head(5, version, e.len() as int, 0, size);
            lemma_held_parts(s, pos, head, e);
            lemma_head(s, pos, 5, version, e.len() as int, 0, size);
            assert(e.subrange(0, e.len() as int) =~= e);
            lemma_text_at(e, 0, tag);
        },
        DtypeModel::Reference { ref_type: RefType::Object } => {
            lemma_head(s, pos, 7, version, 0, 0, 8);
        },
        DtypeModel::Reference { ref_type: RefType::Region } => {
            lemma_head(s, pos, 7, version, 1, 0, 12);
        },
        DtypeModel::VarLen { base } => {
            let head = type_head(9, version, 0, 0, 16);
            lemma_held_parts(s, pos, head, type_image(*base, version));
            lemma_head(s, pos, 9, version, 0, 0, 16);
            law_type_reads_back(s, pos + 8, *base, version);
        },
        DtypeModel::Array { base, dims } => lemma_array(s, pos, *base, dims, version),
        DtypeModel::Enum { base, members } => {
            lemma_enum(s, pos, *base, members, version);
        },
        DtypeModel::Compound { fields } => {
            let size = size_of(m)->0;
            let n = fields.len() as int;
            let head = type_head(6, version, n % 256, n / 256, size);
            lemma_held_parts(s, pos, head, members_image(fields, version, size));
            lemma_head(s, pos, 6, version, n % 256, n / 256, size);
            lemma_members(s, pos + 8, fields, version, size);
        },
    }
}

proof fn lemma_array(s: Seq<u8>, pos: int, base: DtypeModel, dims: Seq<int>, version: int)
    requires
        0 <= pos,
        describable(DtypeModel::Array { base: Box::new(base), dims }, version),
        held(s, pos, type_image(DtypeModel::Array { base: Box::new(base), dims }, version)),
    ensures
        type_at(s, pos) == Ok::<(DtypeModel, int), ErrorKind>(
            (
                DtypeModel::Array { base: Box::new(base), dims },
                pos + type_image(DtypeModel::Array { base: Box::new(base), dims }, version).len(),
            ),
        ),
    decreases base, 1nat,
{
    lemma_pow256_values();
    let head = type_head(10, version, 0, 0, 0);
    let count = if version >= 3 {
        seq![dims.len() as u8]
    } else {
        seq![dims.len() as u8, 0u8, 0u8, 0u8]
    };
    let values = Seq::new(dims.len(), |i: int| dims[i] as nat);
    let extents = spelled_all(values, 4, ByteOrder::Little);
    let order = if version >= 3 {
        Seq::<u8>::empty()
    } else {
        zeros(dims.len() * 4)
    };
    let last = type_image(base, version);
    lemma_spelled_all_len(values, 4, ByteOrder::Little);
    lemma_held_parts(s, pos, head + count + extents + order, last);
    lemma_held_parts(s, pos, head + count + extents, order);
    lemma_held_parts(s, pos, head + count, extents);
    lemma_held_parts(s, pos, head, count);
    lemma_head(s, pos, 10, version, 0, 0, 0);
    lemma_held_bytes(s, pos + 8, count);
    assert(count[0] == s[pos + 8 + 0]);
    let from = pos + 8 + count.len();
    let found = Seq::new(dims.len(), |i: int| le_at(s, from + i * 4, 4) as int);
    assert forall|i: int| 0 <= i < dims.len() implies #[trigger] found[i] == dims[i] by {
        assert(0 <= dims[i] <= u32::MAX);
        assert(values[i] == dims[i]);
        lemma_spelled_at(s, from, values, 4, ByteOrder::Little, i);
    }
    assert(found =~= dims);
    law_type_reads_back(s, from + extents.len() + order.len(), base, version);
}

proof fn lemma_enum(
    s: Seq<u8>,
    pos: int,
    base: DtypeModel,
    members: Seq<(Seq<char>, i64)>,
    version: int,
)
    requires
        0 <= pos,
        describable(DtypeModel::Enum { base: Box::new(base), members }, version),
        held(s, pos, type_image(DtypeModel::Enum { base: Box::new(base), members }, version)),
    ensures
        type_at(s, pos) == Ok::<(DtypeModel, int), ErrorKind>(
            (
                DtypeModel::Enum { base: Box::new(base), members },
                pos + type_image(
                    DtypeModel::Enum { base: Box::new(base), members },
                    version,
                ).len(),
            ),
        ),
    decreases base, 1nat,
{
    lemma_pow256_values();
    let n = members.len() as int;
    let size = base_size(base);
    let order = base_order(base);
    let head = type_head(8, version, n % 256, n / 256, size);
    let names = Seq::new(members.len(), |i: int| members[i].0);
    let values = Seq::new(members.len(), |i: int| signed_bits(members[i].1 as int, size));
    let a = type_image(base, version);
    let b = names_image(names, version);
    let c = spelled_all(values, size, order);
    lemma_spelled_all_len(values, size, order);
    lemma_held_parts(s, pos, head + a + b, c);
    lemma_held_parts(s, pos, head + a, b);
    lemma_held_parts(s, pos, head, a);
    lemma_head(s, pos, 8, version, n % 256, n / 256, size);
    law_type_reads_back(s, pos + 8, base, version);
    assert forall|i: int| 0 <= i < names.len() implies nul_free(#[trigger] names[i]) by {
        assert(nul_free(members[i].0));
    }
    let at = pos + 8 + a.len();
    lemma_names(s, at, names, version);
    let from = at + b.len();
    let plain = plain_int(base)->0;
    let found = choices_at(s, at, members.len(), version, plain)->Ok_0.0;
    assert forall|i: int| 0 <= i < members.len() implies #[trigger] found[i] == members[i] by {
        let v = members[i].1 as int;
        assert(nul_free(members[i].0));
        if (plain.1 || size == 8) {
            lemma_signed_back(v, size);
        }
        assert(values[i] == signed_bits(v, size));
        lemma_spelled_at(s, from, values, size, order, i);
        assert(names[i] == members[i].0);
    }
    assert(found =~= members);
}

/// A datatype message is read as the type that it describes.
pub proof fn law_datatype_message(
    data: &[u8],
    m: DtypeModel,
    version: int,
    r: Result<Dtype, OxiH5Error>,
)
    requires
        describable(m, version),
        data@ == type_image(m, version),
        call_ensures(parse_datatype, (data,), r),
    ensures
        outcome(r) == Ok::<DtypeModel, ErrorKind>(m),
{
    assert(held(data@, 0, data@)) by {
        assert(data@.subrange(0, data@.len() as int) =~= data@);
    }
    law_type_reads_back(data@, 0, m, version);
}

} // verus!
