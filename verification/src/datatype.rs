//! Datatype messages.
//!
//! A datatype is its class and version (one byte), three bytes of flags, its size
//! (4), and what its class needs. Members and base types are datatypes themselves.

use vstd::prelude::*;
use crate::bytes::{
    get_be, get_le, get_u32, le_at, lemma_be_at_bound, lemma_le_at_bound, lemma_pow256_values,
    to_signed, twos_complement,
};
use crate::dataset::word_at;
use crate::dims::ints;
use crate::dtype::{
    lemma_compound_model, views, ByteOrder, Charset, CompoundField, Dtype, DtypeModel, FieldModel,
    RefType,
};
use crate::error::{outcome, text, ErrorKind, OxiH5Error};
use crate::global_heap::align8;
use crate::utf8::{as_text, find_nul, lemma_nul_from, nul_from, utf8_text};

verus! {

/// The byte order that the flags give.
pub open spec fn order_of(flags: u8) -> ByteOrder {
    if flags % 2 == 0 {
        ByteOrder::Little
    } else {
        ByteOrder::Big
    }
}

/// The character set that the flags of a string type give.
pub open spec fn charset_of(flags: u8) -> Charset {
    if flags / 16 == 1 {
        Charset::Utf8
    } else {
        Charset::Ascii
    }
}

/// The character set of the strings whose characters have that type.
pub open spec fn base_charset(base: DtypeModel) -> Charset {
    match base {
        DtypeModel::String { charset, .. } => charset,
        _ => Charset::Ascii,
    }
}

/// A name at `pos` that ends with a zero byte, and where it ends: behind the zero
/// byte, or before version 3 behind what pads it to a multiple of 8.
pub open spec fn name_at(s: Seq<u8>, pos: int, version: int) -> Result<
    (Seq<char>, int),
    ErrorKind,
> {
    let nul = nul_from(s, pos);
    let end = if version >= 3 {
        nul + 1
    } else {
        pos + align8(nul + 1 - pos)
    };
    if nul >= s.len() || end > s.len() {
        Err(ErrorKind::Format)
    } else {
        match utf8_text(s.subrange(pos, nul)) {
            Some(name) => Ok((name, end)),
            None => Err(ErrorKind::Format),
        }
    }
}

/// How many bytes the offset of a member takes in a compound of that size.
pub open spec fn offset_width(size: nat) -> nat {
    if size < 0x100 {
        1
    } else if size < 0x1_0000 {
        2
    } else if size < 0x100_0000 {
        3
    } else {
        4
    }
}

/// How many bytes stand between a member's name and its type, and how many of them
/// are its offset.
pub open spec fn member_gap(version: int, size: nat) -> (nat, nat) {
    if version == 1 {
        (32, 4)
    } else if version == 2 {
        (4, 4)
    } else {
        (offset_width(size), offset_width(size))
    }
}

/// `n` members of a compound of that size from `pos` on, and where they end.
pub open spec fn members_at(s: Seq<u8>, pos: int, n: nat, version: int, size: nat) -> Result<
    (Seq<FieldModel>, int),
    ErrorKind,
>
    decreases s.len() - pos, n,
{
    if n == 0 {
        Ok((Seq::empty(), pos))
    } else {
        match name_at(s, pos, version) {
            Err(kind) => Err(kind),
            Ok((name, after)) => {
                let (gap, width) = member_gap(version, size);
                if after <= pos || after + gap > s.len() {
                    Err(ErrorKind::Format)
                } else {
                    match type_at(s, after + gap) {
                        Err(kind) => Err(kind),
                        Ok((dtype, end)) => {
                            let field = FieldModel { name, offset: le_at(s, after, width), dtype };
                            if end <= pos || end > s.len() {
                                Err(ErrorKind::Format)
                            } else {
                                match members_at(s, end, (n - 1) as nat, version, size) {
                                    Err(kind) => Err(kind),
                                    Ok((rest, last)) => Ok((seq![field] + rest, last)),
                                }
                            }
                        },
                    }
                }
            },
        }
    }
}

/// `n` names from `pos` on, and where they end.
pub open spec fn names_at(s: Seq<u8>, pos: int, n: nat, version: int) -> Result<
    (Seq<Seq<char>>, int),
    ErrorKind,
>
    decreases n,
{
    if n == 0 {
        Ok((Seq::empty(), pos))
    } else {
        match names_at(s, pos, (n - 1) as nat, version) {
            Err(kind) => Err(kind),
            Ok((front, at)) => match name_at(s, at, version) {
                Err(kind) => Err(kind),
                Ok((name, end)) => Ok((front.push(name), end)),
            },
        }
    }
}

/// The size, signedness and byte order of an integer type of 1, 2, 4 or 8 bytes.
pub open spec fn plain_int(m: DtypeModel) -> Option<(nat, bool, ByteOrder)> {
    match m {
        DtypeModel::Int { size, signed, order } => if size == 1 || size == 2 || size == 4 || size
            == 8 {
            Some((size, signed, order))
        } else {
            None
        },
        _ => None,
    }
}

/// The value of an enumeration's member; an unsigned one of 8 bytes by its two's
/// complement.
pub open spec fn member_value(s: Seq<u8>, pos: int, size: nat, signed: bool, order: ByteOrder) -> int {
    let word = word_at(s, pos, size, order);
    if signed || size == 8 {
        twos_complement(word, size)
    } else {
        word as int
    }
}

/// The members of an enumeration over integers: the names from `pos` on, then the
/// values; and where they end.
pub open spec fn choices_at(
    s: Seq<u8>,
    pos: int,
    n: nat,
    version: int,
    base: (nat, bool, ByteOrder),
) -> Result<(Seq<(Seq<char>, i64)>, int), ErrorKind> {
    match names_at(s, pos, n, version) {
        Err(kind) => Err(kind),
        Ok((names, at)) => {
            let (size, signed, order) = base;
            let end = at + n * size;
            if end > s.len() {
                Err(ErrorKind::Format)
            } else {
                Ok(
                    (
                        Seq::new(
                            n,
                            |i: int|
                                (
                                    names[i],
                                    member_value(s, at + i * size, size, signed, order) as i64,
                                ),
                        ),
                        end,
                    ),
                )
            }
        },
    }
}

/// The extents of an array type whose number of dimensions is at `pos`, and where its
/// base type starts; version 2 has a permutation behind the extents.
pub open spec fn extents_at(s: Seq<u8>, pos: int, version: int) -> Result<
    (Seq<int>, int),
    ErrorKind,
> {
    let n = s[pos] as int;
    let from = if version >= 3 {
        pos + 1
    } else {
        pos + 4
    };
    let end = if version >= 3 {
        from + n * 4
    } else {
        from + n * 8
    };
    if pos >= s.len() || end > s.len() {
        Err(ErrorKind::Format)
    } else {
        Ok((Seq::new(n as nat, |i: int| le_at(s, from + i * 4, 4) as int), end))
    }
}

/// The datatype at `pos`, and where it ends.
pub open spec fn type_at(s: Seq<u8>, pos: int) -> Result<(DtypeModel, int), ErrorKind>
    decreases s.len() - pos, 0nat,
{
    if pos + 8 > s.len() {
        Err(ErrorKind::Format)
    } else {
        let class = s[pos] % 16;
        let version = (s[pos] / 16) as int;
        let flags = s[pos + 1];
        let size = le_at(s, pos + 4, 4);
        let count = flags as nat + 256 * s[pos + 2] as nat;
        if class == 0 || class == 4 {
            if pos + 12 > s.len() {
                Err(ErrorKind::Format)
            } else if class == 0 {
                Ok(
                    (
                        DtypeModel::Int {
                            size,
                            signed: (flags / 8) % 2 == 1,
                            order: order_of(flags),
                        },
                        pos + 12,
                    ),
                )
            } else {
                Ok((DtypeModel::Bitfield { size, order: order_of(flags) }, pos + 12))
            }
        } else if class == 1 {
            if pos + 20 > s.len() {
                Err(ErrorKind::Format)
            } else {
                Ok((DtypeModel::Float { size, order: order_of(flags) }, pos + 20))
            }
        } else if class == 3 {
            Ok(
                (
                    DtypeModel::String { fixed_len: Some(size), charset: charset_of(flags) },
                    pos + 8,
                ),
            )
        } else if class == 5 {
            if pos + 8 + flags > s.len() {
                Err(ErrorKind::Format)
            } else {
                let tag = s.subrange(pos + 8, pos + 8 + flags);
                match utf8_text(tag.subrange(0, nul_from(tag, 0))) {
                    Some(tag) => Ok((DtypeModel::Opaque { size, tag }, pos + 8 + flags)),
                    None => Err(ErrorKind::Format),
                }
            }
        } else if class == 6 {
            match members_at(s, pos + 8, count, version, size) {
                Err(kind) => Err(kind),
                Ok((fields, end)) => Ok((DtypeModel::Compound { fields }, end)),
            }
        } else if class == 7 && flags % 16 == 0 {
            Ok((DtypeModel::Reference { ref_type: RefType::Object }, pos + 8))
        } else if class == 7 && flags % 16 == 1 {
            Ok((DtypeModel::Reference { ref_type: RefType::Region }, pos + 8))
        } else if class == 8 {
            match type_at(s, pos + 8) {
                Err(kind) => Err(kind),
                Ok((base, at)) => match plain_int(base) {
                    None => Err(ErrorKind::UnsupportedDatatype(8)),
                    Some(plain) => match choices_at(s, at, count, version, plain) {
                        Err(kind) => Err(kind),
                        Ok((members, end)) => Ok(
                            (DtypeModel::Enum { base: Box::new(base), members }, end),
                        ),
                    },
                },
            }
        } else if class == 9 {
            match type_at(s, pos + 8) {
                Err(kind) => Err(kind),
                Ok((base, end)) => if flags % 16 == 1 {
                    Ok((DtypeModel::String { fixed_len: None, charset: base_charset(base) }, end))
                } else {
                    Ok((DtypeModel::VarLen { base: Box::new(base) }, end))
                },
            }
        } else if class == 10 {
            match extents_at(s, pos + 8, version) {
                Err(kind) => Err(kind),
                Ok((dims, at)) => if at <= pos {
                    Err(ErrorKind::Format)
                } else {
                    match type_at(s, at) {
                        Err(kind) => Err(kind),
                        Ok((base, end)) => Ok((DtypeModel::Array { base: Box::new(base), dims }, end)),
                    }
                },
            }
        } else {
            Err(ErrorKind::UnsupportedDatatype(class))
        }
    }
}

/// A datatype ends within the bytes, behind where it starts.
pub proof fn lemma_type_ends(s: Seq<u8>, pos: int)
    requires
        0 <= pos,
    ensures
        type_at(s, pos) is Ok ==> pos < type_at(s, pos)->Ok_0.1 <= s.len(),
    decreases s.len() - pos, 0nat,
{
    if pos + 8 <= s.len() {
        let class = s[pos] % 16;
        let version = (s[pos] / 16) as int;
        let count = s[pos + 1] as nat + 256 * s[pos + 2] as nat;
        if class == 6 {
            lemma_members_end(s, pos + 8, count, version, le_at(s, pos + 4, 4));
        } else if class == 8 {
            lemma_type_ends(s, pos + 8);
            if let Ok((base, at)) = type_at(s, pos + 8) {
                lemma_names_end(s, at, count, version);
                if let Some((size, signed, order)) = plain_int(base) {
                    assert(count * size >= 0) by (nonlinear_arith)
                        requires
                            count >= 0,
                            size >= 0,
                    ;
                }
            }
        } else if class == 9 {
            lemma_type_ends(s, pos + 8);
        } else if class == 10 {
            if let Ok((dims, at)) = extents_at(s, pos + 8, version) {
                if at > pos {
                    lemma_type_ends(s, at);
                }
            }
        }
    }
}

proof fn lemma_members_end(s: Seq<u8>, pos: int, n: nat, version: int, size: nat)
    requires
        0 <= pos <= s.len(),
    ensures
        members_at(s, pos, n, version, size) is Ok ==> pos <= members_at(
            s,
            pos,
            n,
            version,
            size,
        )->Ok_0.1 <= s.len(),
    decreases s.len() - pos, n,
{
    if n > 0 && members_at(s, pos, n, version, size) is Ok {
        let (_, after) = name_at(s, pos, version)->Ok_0;
        let (gap, _) = member_gap(version, size);
        let (_, end) = type_at(s, after + gap)->Ok_0;
        lemma_members_end(s, end, (n - 1) as nat, version, size);
    }
}

proof fn lemma_names_end(s: Seq<u8>, pos: int, n: nat, version: int)
    requires
        0 <= pos <= s.len(),
    ensures
        names_at(s, pos, n, version) is Ok ==> pos <= names_at(s, pos, n, version)->Ok_0.1
            <= s.len() && names_at(s, pos, n, version)->Ok_0.0.len() == n,
    decreases n,
{
    if n > 0 && names_at(s, pos, n, version) is Ok {
        lemma_names_end(s, pos, (n - 1) as nat, version);
        let (_, at) = names_at(s, pos, (n - 1) as nat, version)->Ok_0;
        lemma_nul_from(s, at);
    }
}

fn truncated(what: &str) -> (r: OxiH5Error)
    ensures
        r@ == ErrorKind::Format,
{
    OxiH5Error::Format(text(&["datatype message: ", what, " is truncated"]))
}

/// Read the name at `pos`.
fn read_name(data: &[u8], pos: usize, version: u8) -> (r: Result<(String, usize), OxiH5Error>)
    requires
        pos <= data@.len(),
    ensures
        match (r, name_at(data@, pos as int, version as int)) {
            (Ok((name, end)), Ok((chars, at))) => name@ == chars && end == at && pos < end
                <= data@.len(),
            (Err(e), Err(kind)) => e@ == kind,
            _ => false,
        },
{
    let nul: usize = find_nul(data, pos);
    if nul == data.len() {
        return Err(truncated("a name"));
    }
    let mut end: usize = nul + 1;
    if version < 3 {
        let over: usize = (end - pos) % 8;
        if over > 0 {
            if data.len() - end < 8 - over {
                return Err(truncated("a name"));
            }
            end = end + (8 - over);
        }
    }
    proof {
        assert(version < 3 ==> end == pos + align8(nul + 1 - pos));
    }
    match as_text(vstd::slice::slice_subrange(data, pos, nul)) {
        Some(name) => Ok((name.to_string(), end)),
        None => Err(OxiH5Error::Format("datatype message: a name is not UTF-8".to_string())),
    }
}

/// Read `count` members of a compound from `pos` on.
fn read_members(data: &[u8], pos: usize, count: usize, version: u8, size: usize) -> (r: Result<
    (Vec<CompoundField>, usize),
    OxiH5Error,
>)
    requires
        pos <= data@.len(),
    ensures
        match (r, members_at(data@, pos as int, count as nat, version as int, size as nat)) {
            (Ok((fields, end)), Ok((models, at))) => views(fields@) == models && end == at && pos
                <= end <= data@.len(),
            (Err(e), Err(kind)) => e@ == kind,
            _ => false,
        },
    decreases data@.len() - pos, 0nat,
{
    let ghost v = version as int;
    let ghost n = size as nat;
    let ghost goal = members_at(data@, pos as int, count as nat, v, n);
    let width: usize = if version == 1 || version == 2 {
        4
    } else if size < 0x100 {
        1
    } else if size < 0x1_0000 {
        2
    } else if size < 0x100_0000 {
        3
    } else {
        4
    };
    let gap: usize = if version == 1 {
        32
    } else {
        width
    };
    let mut fields: Vec<CompoundField> = Vec::new();
    let mut at: usize = pos;
    assert(data.len() <= usize::MAX);
    proof {
        assert(views(fields@) =~= Seq::empty());
        if goal is Ok {
            assert(Seq::<FieldModel>::empty() + goal->Ok_0.0 =~= goal->Ok_0.0);
        }
    }
    for i in 0..count
        invariant
            v == version,
            n == size,
            (gap as nat, width as nat) == member_gap(v, n),
            width <= 4,
            gap <= 32,
            pos <= at <= data@.len() <= usize::MAX,
            i > 0 ==> pos < at,
            goal == members_at(data@, pos as int, count as nat, v, n),
            match members_at(data@, at as int, (count - i) as nat, v, n) {
                Err(kind) => goal == Err::<(Seq<FieldModel>, int), ErrorKind>(kind),
                Ok((rest, last)) => goal == Ok::<(Seq<FieldModel>, int), ErrorKind>(
                    (views(fields@) + rest, last),
                ),
            },
        decreases count - i,
    {
        let ghost front = views(fields@);
        let (name, after): (String, usize) = read_name(data, at, version)?;
        if data.len() - after < gap {
            return Err(truncated("a member"));
        }
        let offset: usize = get_le(data, after, width) as usize;
        proof {
            lemma_le_at_bound(data@, after as int, width as nat);
            lemma_pow256_values();
            crate::bytes::lemma_pow256_monotone(width as nat, 4);
        }
        let (dtype, end): (Dtype, usize) = read_type(data, after + gap)?;
        let field = CompoundField { name, offset, dtype };
        fields.push(field);
        proof {
            assert(views(fields@) =~= front + seq![field@]);
            if let Ok((rest, last)) = members_at(data@, end as int, (count - i - 1) as nat, v, n) {
                assert(front + (seq![field@] + rest) =~= views(fields@) + rest);
            }
        }
        at = end;
    }
    proof {
        assert(views(fields@) + Seq::<FieldModel>::empty() =~= views(fields@));
    }
    Ok((fields, at))
}

/// Read `count` names from `pos` on.
fn read_names(data: &[u8], pos: usize, count: usize, version: u8) -> (r: Result<
    (Vec<String>, usize),
    OxiH5Error,
>)
    requires
        pos <= data@.len(),
    ensures
        match (r, names_at(data@, pos as int, count as nat, version as int)) {
            (Ok((names, end)), Ok((texts, at))) => views(names@) == texts && end == at && pos <= end
                <= data@.len(),
            (Err(e), Err(kind)) => e@ == kind,
            _ => false,
        },
{
    let ghost v = version as int;
    let mut names: Vec<String> = Vec::new();
    let mut at: usize = pos;
    proof {
        assert(views(names@) =~= Seq::empty());
    }
    for i in 0..count
        invariant
            v == version,
            pos <= at <= data@.len(),
            names_at(data@, pos as int, i as nat, v) == Ok::<(Seq<Seq<char>>, int), ErrorKind>(
                (views(names@), at as int),
            ),
    {
        let ghost front = views(names@);
        match read_name(data, at, version) {
            Err(e) => {
                proof {
                    lemma_names_fail(data@, pos as int, (i + 1) as nat, count as nat, v);
                }
                return Err(e);
            },
            Ok((name, end)) => {
                names.push(name);
                at = end;
                proof {
                    assert(views(names@) =~= front.push(name@));
                }
            },
        }
    }
    Ok((names, at))
}

proof fn lemma_names_fail(s: Seq<u8>, pos: int, k: nat, n: nat, version: int)
    requires
        k <= n,
        names_at(s, pos, k, version) is Err,
    ensures
        names_at(s, pos, n, version) == names_at(s, pos, k, version),
    decreases n,
{
    if k < n {
        lemma_names_fail(s, pos, k, (n - 1) as nat, version);
    }
}

/// Read the value of an enumeration's member.
fn read_member_value(data: &[u8], pos: usize, size: usize, signed: bool, order: ByteOrder) -> (r:
    i64)
    requires
        size == 1 || size == 2 || size == 4 || size == 8,
        pos + size <= data@.len(),
    ensures
        r == member_value(data@, pos as int, size as nat, signed, order),
{
    proof {
        lemma_le_at_bound(data@, pos as int, size as nat);
        lemma_be_at_bound(data@, pos as int, size as nat);
        lemma_pow256_values();
    }
    let word: u64 = match order {
        ByteOrder::Little => get_le(data, pos, size),
        ByteOrder::Big => get_be(data, pos, size),
    };
    if signed || size == 8 {
        to_signed(word, size)
    } else {
        word as i64
    }
}

/// Read the members of an enumeration.
fn read_choices(
    data: &[u8],
    pos: usize,
    count: usize,
    version: u8,
    size: usize,
    signed: bool,
    order: ByteOrder,
) -> (r: Result<(Vec<(String, i64)>, usize), OxiH5Error>)
    requires
        pos <= data@.len(),
        size == 1 || size == 2 || size == 4 || size == 8,
        count < 0x1_0000,
    ensures
        match (
            r,
            choices_at(
                data@,
                pos as int,
                count as nat,
                version as int,
                (size as nat, signed, order),
            ),
        ) {
            (Ok((members, end)), Ok((models, at))) => {
                &&& Seq::new(members@.len(), |i: int| (members@[i].0@, members@[i].1)) == models
                &&& end == at
                &&& pos <= end <= data@.len()
            },
            (Err(e), Err(kind)) => e@ == kind,
            _ => false,
        },
{
    let (names, at): (Vec<String>, usize) = read_names(data, pos, count, version)?;
    proof {
        lemma_names_end(data@, pos as int, count as nat, version as int);
        assert(count * size <= 0x8_0000) by (nonlinear_arith)
            requires
                count < 0x1_0000,
                0 <= size <= 8,
        ;
        assert(count * size >= 0) by (nonlinear_arith)
            requires
                count >= 0,
                size >= 0,
        ;
    }
    if data.len() - at < count * size {
        return Err(truncated("an enumeration"));
    }
    assert(data.len() <= usize::MAX);
    let mut members: Vec<(String, i64)> = Vec::new();
    for i in 0..count
        invariant
            size == 1 || size == 2 || size == 4 || size == 8,
            names@.len() == count,
            at + count * size <= data@.len() <= usize::MAX,
            members@.len() == i,
            forall|k: int|
                0 <= k < i ==> (#[trigger] members@[k]).0@ == names@[k]@ && members@[k].1
                    == member_value(data@, at + k * size, size as nat, signed, order),
    {
        proof {
            assert(i * size + size <= count * size) by (nonlinear_arith)
                requires
                    0 <= i < count,
                    size >= 0,
            ;
        }
        let value: i64 = read_member_value(data, at + i * size, size, signed, order);
        members.push((names[i].clone(), value));
    }
    proof {
        let models = choices_at(
            data@,
            pos as int,
            count as nat,
            version as int,
            (size as nat, signed, order),
        )->Ok_0.0;
        assert(Seq::new(members@.len(), |i: int| (members@[i].0@, members@[i].1)) =~= models);
    }
    Ok((members, at + count * size))
}

/// Read the extents of an array type.
fn read_extents(data: &[u8], pos: usize, version: u8) -> (r: Result<
    (Vec<usize>, usize),
    OxiH5Error,
>)
    requires
        pos <= data@.len(),
    ensures
        match (r, extents_at(data@, pos as int, version as int)) {
            (Ok((dims, end)), Ok((models, at))) => ints(dims@) == models && end == at && pos < end
                <= data@.len(),
            (Err(e), Err(kind)) => e@ == kind,
            _ => false,
        },
{
    if pos == data.len() {
        return Err(truncated("an array"));
    }
    let n: usize = data[pos] as usize;
    let gap: usize = if version >= 3 {
        1
    } else {
        4
    };
    let width: usize = if version >= 3 {
        n * 4
    } else {
        n * 8
    };
    if data.len() - pos < gap + width {
        return Err(truncated("an array"));
    }
    assert(data.len() <= usize::MAX);
    let from: usize = pos + gap;
    let mut dims: Vec<usize> = Vec::new();
    for i in 0..n
        invariant
            n <= 255,
            from + n * 4 <= data@.len() <= usize::MAX,
            dims@.len() == i,
            forall|k: int| 0 <= k < i ==> #[trigger] dims@[k] == le_at(data@, from + k * 4, 4),
    {
        dims.push(get_u32(data, from + i * 4) as usize);
    }
    proof {
        assert(ints(dims@) =~= extents_at(data@, pos as int, version as int)->Ok_0.0);
    }
    Ok((dims, from + width))
}

/// Read the datatype at `pos`.
fn read_type(data: &[u8], pos: usize) -> (r: Result<(Dtype, usize), OxiH5Error>)
    requires
        pos <= data@.len(),
    ensures
        match (r, type_at(data@, pos as int)) {
            (Ok((dtype, end)), Ok((model, at))) => dtype@ == model && end == at && pos < end
                <= data@.len(),
            (Err(e), Err(kind)) => e@ == kind,
            _ => false,
        },
    decreases data@.len() - pos, 1nat,
{
    proof {
        lemma_type_ends(data@, pos as int);
    }
    if data.len() - pos < 8 {
        return Err(truncated("a type"));
    }
    let left: usize = data.len() - pos;
    let class: u8 = data[pos] % 16;
    let version: u8 = data[pos] / 16;
    let flags: u8 = data[pos + 1];
    let size: usize = get_u32(data, pos + 4) as usize;
    let count: usize = flags as usize + 256 * data[pos + 2] as usize;
    let order: ByteOrder = if flags % 2 == 0 {
        ByteOrder::Little
    } else {
        ByteOrder::Big
    };
    if class == 0 || class == 4 {
        if left < 12 {
            return Err(truncated("an integer"));
        }
        if class == 0 {
            Ok((Dtype::Int { size, signed: (flags / 8) % 2 == 1, order }, pos + 12))
        } else {
            Ok((Dtype::Bitfield { size, order }, pos + 12))
        }
    } else if class == 1 {
        if left < 20 {
            return Err(truncated("a floating-point type"));
        }
        Ok((Dtype::Float { size, order }, pos + 20))
    } else if class == 3 {
        let charset: Charset = if flags / 16 == 1 {
            Charset::Utf8
        } else {
            Charset::Ascii
        };
        Ok((Dtype::String { fixed_len: Some(size), charset }, pos + 8))
    } else if class == 5 {
        if left < 8 + flags as usize {
            return Err(truncated("a tag"));
        }
        let end: usize = pos + 8 + flags as usize;
        let tag = vstd::slice::slice_subrange(data, pos + 8, end);
        let nul: usize = find_nul(tag, 0);
        match as_text(vstd::slice::slice_subrange(tag, 0, nul)) {
            Some(tag) => Ok((Dtype::Opaque { size, tag: tag.to_string() }, end)),
            None => Err(OxiH5Error::Format("datatype message: a tag is not UTF-8".to_string())),
        }
    } else if class == 6 {
        let (fields, end): (Vec<CompoundField>, usize) = read_members(
            data,
            pos + 8,
            count,
            version,
            size,
        )?;
        proof {
            lemma_compound_model(fields);
        }
        Ok((Dtype::Compound { fields }, end))
    } else if class == 7 && flags % 16 == 0 {
        Ok((Dtype::Reference { ref_type: RefType::Object }, pos + 8))
    } else if class == 7 && flags % 16 == 1 {
        Ok((Dtype::Reference { ref_type: RefType::Region }, pos + 8))
    } else if class == 8 {
        let (base, at): (Dtype, usize) = read_type(data, pos + 8)?;
        let plain: Option<(usize, bool, ByteOrder)> = match &base {
            Dtype::Int { size, signed, order } => if *size == 1 || *size == 2 || *size == 4 || *size
                == 8 {
                Some((*size, *signed, *order))
            } else {
                None
            },
            _ => None,
        };
        match plain {
            None => Err(OxiH5Error::UnsupportedDatatype(8)),
            Some((width, signed, order)) => {
                let (members, end): (Vec<(String, i64)>, usize) = read_choices(
                    data,
                    at,
                    count,
                    version,
                    width,
                    signed,
                    order,
                )?;
                Ok((Dtype::Enum { base: Box::new(base), members }, end))
            },
        }
    } else if class == 9 {
        let (base, end): (Dtype, usize) = read_type(data, pos + 8)?;
        if flags % 16 == 1 {
            let charset: Charset = match &base {
                Dtype::String { charset, .. } => *charset,
                _ => Charset::Ascii,
            };
            Ok((Dtype::String { fixed_len: None, charset }, end))
        } else {
            Ok((Dtype::VarLen { base: Box::new(base) }, end))
        }
    } else if class == 10 {
        let (dims, at): (Vec<usize>, usize) = read_extents(data, pos + 8, version)?;
        let (base, end): (Dtype, usize) = read_type(data, at)?;
        Ok((Dtype::Array { base: Box::new(base), dims }, end))
    } else {
        Err(OxiH5Error::UnsupportedDatatype(class))
    }
}

/// The datatype that a message holds.
pub open spec fn datatype_in(data: Seq<u8>) -> Result<DtypeModel, ErrorKind> {
    match type_at(data, 0) {
        Ok((dtype, _)) => Ok(dtype),
        Err(kind) => Err(kind),
    }
}

/// Read a datatype message.
pub fn parse_datatype(data: &[u8]) -> (r: Result<Dtype, OxiH5Error>)
    ensures
        outcome(r) == datatype_in(data@),
{
    let (dtype, _): (Dtype, usize) = read_type(data, 0)?;
    Ok(dtype)
}

} // verus!
