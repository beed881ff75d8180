//! Decoding elements of any datatype.
//!
//! A variable-length element is a reference of 16 bytes into a global heap: the
//! sequence length (4 bytes), the object's index (2), two reserved bytes and the
//! address of the collection (8). An object reference is the address of an
//! object header (8 bytes), all ones where it is undefined.

use vstd::prelude::*;
use std::collections::HashMap;
use vstd::slice::{slice_subrange, slice_to_vec};
use crate::bytes::{
    be_at, get_be, get_le, get_u16, get_u32, get_u64, le_at, le_bytes, lemma_be_at_bound,
    lemma_le_at_bound, lemma_le_bytes_len, lemma_le_round_trip, lemma_pow256_values, pow256,
    to_signed, twos_complement, zeros,
};
use crate::dims::{exact_total, product};
use crate::dtype::{
    exact_extent, extent_of, lemma_compound_model, size_of, views, ByteOrder, CompoundField, Dtype,
    DtypeModel, ElemSize, FieldModel, RefType,
};
use crate::error::{
    lemma_try_each_fails, outcome, outcomes, text, try_each, ErrorKind, OxiH5Error,
};
use crate::float::{f16_to_f32, half_to_single, Float};
use crate::global_heap::{heap_at, object_in, GlobalHeap};
use crate::global_heap_writer::{holds_collection, law_collection_reads_back};
use crate::utf8::{as_text, find_nul, lemma_text_at, nul_free, until_nul, utf8_text};
use vstd::utf8::encode_utf8;

verus! {

broadcast use vstd::std_specs::hash::group_hash_axioms;

/// One decoded element.
#[derive(Debug, PartialEq)]
pub enum Value {
    /// A signed integer of any width.
    Int(i64),
    /// An unsigned integer of any width.
    Uint(u64),
    /// A floating-point number; half precision comes as single precision.
    Float(Float),
    /// Fixed-length or variable-length text.
    Str(String),
    Opaque(Vec<u8>),
    /// The address of an object header; all ones where undefined.
    ObjectRef(u64),
    /// The elements of an array or of a variable-length sequence.
    Sequence(Vec<Value>),
    /// The fields of a compound element, with their names.
    Compound(Vec<(String, Value)>),
    /// The integer that stands for an enumeration's member.
    Enum(i64),
    Bitfield(u64),
}

/// A [`Value`] as a mathematical value.
pub enum ValueModel {
    Int(i64),
    Uint(u64),
    Float(Float),
    Str(Seq<char>),
    Opaque(Seq<u8>),
    ObjectRef(u64),
    Sequence(Seq<ValueModel>),
    Compound(Seq<(Seq<char>, ValueModel)>),
    Enum(i64),
    Bitfield(u64),
}

impl Value {
    pub open spec fn model(self) -> ValueModel
        decreases self, 0nat,
    {
        match self {
            Value::Int(v) => ValueModel::Int(v),
            Value::Uint(v) => ValueModel::Uint(v),
            Value::Float(v) => ValueModel::Float(v),
            Value::Str(s) => ValueModel::Str(s@),
            Value::Opaque(b) => ValueModel::Opaque(b@),
            Value::ObjectRef(a) => ValueModel::ObjectRef(a),
            Value::Sequence(items) => ValueModel::Sequence(items_model(items, items@.len())),
            Value::Compound(pairs) => ValueModel::Compound(pairs_model(pairs, pairs@.len())),
            Value::Enum(v) => ValueModel::Enum(v),
            Value::Bitfield(v) => ValueModel::Bitfield(v),
        }
    }
}

/// The models of the first `n` items.
pub open spec fn items_model(items: Vec<Value>, n: nat) -> Seq<ValueModel>
    decreases items, n,
{
    if n == 0 || n > items@.len() {
        Seq::empty()
    } else {
        items_model(items, (n - 1) as nat).push(items[n - 1].model())
    }
}

/// The names and models of the first `n` pairs.
pub open spec fn pairs_model(pairs: Vec<(String, Value)>, n: nat) -> Seq<(Seq<char>, ValueModel)>
    decreases pairs, n,
{
    if n == 0 || n > pairs@.len() {
        Seq::empty()
    } else {
        pairs_model(pairs, (n - 1) as nat).push((pairs[n - 1].0@, pairs[n - 1].1.model()))
    }
}

impl View for Value {
    type V = ValueModel;

    open spec fn view(&self) -> ValueModel {
        self.model()
    }
}

proof fn lemma_items_model(items: Vec<Value>, n: nat)
    requires
        n <= items@.len(),
    ensures
        items_model(items, n) == views(items@.take(n as int)),
    decreases n,
{
    if n > 0 {
        lemma_items_model(items, (n - 1) as nat);
    }
    assert(items_model(items, n) =~= views(items@.take(n as int)));
}

/// A sequence's elements are its items, one by one.
pub proof fn lemma_sequence_model(items: Vec<Value>)
    ensures
        Value::Sequence(items)@ == ValueModel::Sequence(views(items@)),
{
    lemma_items_model(items, items@.len());
    assert(items@.take(items@.len() as int) =~= items@);
}

proof fn lemma_pairs_model(pairs: Vec<(String, Value)>, n: nat)
    requires
        n <= pairs@.len(),
    ensures
        pairs_model(pairs, n) == views(pairs@.take(n as int)),
    decreases n,
{
    if n > 0 {
        lemma_pairs_model(pairs, (n - 1) as nat);
    }
    assert(pairs_model(pairs, n) =~= views(pairs@.take(n as int)));
}

/// A compound value's fields are its pairs, one by one.
pub proof fn lemma_compound_value_model(pairs: Vec<(String, Value)>)
    ensures
        Value::Compound(pairs)@ == ValueModel::Compound(views(pairs@)),
{
    lemma_pairs_model(pairs, pairs@.len());
    assert(pairs@.take(pairs@.len() as int) =~= pairs@);
}

impl Value {
    /// An equal value.
    pub fn duplicate(&self) -> (r: Value)
        ensures
            r@ == self@,
        decreases self,
    {
        match self {
            Value::Int(v) => Value::Int(*v),
            Value::Uint(v) => Value::Uint(*v),
            Value::Float(v) => Value::Float(*v),
            Value::Str(s) => Value::Str(s.clone()),
            Value::Opaque(b) => Value::Opaque(vstd::slice::slice_to_vec(b)),
            Value::ObjectRef(a) => Value::ObjectRef(*a),
            Value::Sequence(items) => {
                let mut copied: Vec<Value> = Vec::new();
                for i in 0..items.len()
                    invariant
                        copied@.len() == i,
                        decreases_to!(self => items),
                        forall|k: int| 0 <= k < i ==> (#[trigger] copied@[k])@ == items@[k]@,
                {
                    proof {
                        assert(decreases_to!(items => items[i as int]));
                    }
                    copied.push(items[i].duplicate());
                }
                proof {
                    lemma_sequence_model(copied);
                    lemma_sequence_model(*items);
                    assert(views(copied@) =~= views(items@));
                }
                Value::Sequence(copied)
            },
            Value::Compound(pairs) => {
                let mut copied: Vec<(String, Value)> = Vec::new();
                for i in 0..pairs.len()
                    invariant
                        copied@.len() == i,
                        decreases_to!(self => pairs),
                        forall|k: int| 0 <= k < i ==> (#[trigger] copied@[k])@ == pairs@[k]@,
                {
                    proof {
                        assert(decreases_to!(pairs => pairs[i as int]));
                    }
                    copied.push((pairs[i].0.clone(), pairs[i].1.duplicate()));
                }
                proof {
                    lemma_compound_value_model(copied);
                    lemma_compound_value_model(*pairs);
                    assert(views(copied@) =~= views(pairs@));
                }
                Value::Compound(copied)
            },
            Value::Enum(v) => Value::Enum(*v),
            Value::Bitfield(v) => Value::Bitfield(*v),
        }
    }
}

impl Clone for Value {
    fn clone(&self) -> (r: Value)
        ensures
            r@ == self@,
    {
        self.duplicate()
    }
}

/// What is at each address where a reference may look for a collection.
pub type Heaps = spec_fn(u64) -> Result<Map<u16, Seq<u8>>, ErrorKind>;

/// The collections of a file, those in the cache as the cache has them.
pub open spec fn heaps_of(file: Seq<u8>, cache: Map<u64, GlobalHeap>) -> Heaps {
    |address: u64|
        if cache.contains_key(address) {
            Ok(cache[address]@)
        } else {
            heap_at(file, address as int)
        }
}

/// The collections of a file.
pub open spec fn file_heaps(file: Seq<u8>) -> Heaps {
    |address: u64| heap_at(file, address as int)
}

/// Without a cache, the file alone counts.
proof fn lemma_empty_cache(file: Seq<u8>, cache: Map<u64, GlobalHeap>)
    requires
        cache == Map::<u64, GlobalHeap>::empty(),
    ensures
        heaps_of(file, cache) == file_heaps(file),
{
    assert(heaps_of(file, cache) =~= file_heaps(file));
}

/// Whether a cache changed in nothing but that the collection at `address`, if it was not
/// there, may have been added.
pub open spec fn at_most_added(
    before: Map<u64, GlobalHeap>,
    after: Map<u64, GlobalHeap>,
    address: u64,
) -> bool {
    after == before || (!before.contains_key(address) && after.contains_key(address) && after
        == before.insert(address, after[address]))
}

/// What decoding `bytes` does to a cache: nothing, unless the datatype has a
/// variable-length part; else the collection that `bytes` refer to may be added.
pub open spec fn cache_decoded(
    before: Map<u64, GlobalHeap>,
    after: Map<u64, GlobalHeap>,
    bytes: Seq<u8>,
    dtype: DtypeModel,
) -> bool {
    if size_of(dtype) is Some {
        after == before
    } else {
        cache_referred(before, after, bytes)
    }
}

/// What following the reference `bytes` does to a cache.
pub open spec fn cache_referred(
    before: Map<u64, GlobalHeap>,
    after: Map<u64, GlobalHeap>,
    bytes: Seq<u8>,
) -> bool {
    match vlen_ref_in(bytes) {
        Err(_) => after == before,
        Ok((_, address, _)) => at_most_added(before, after, address),
    }
}

/// A reference into a global heap: sequence length, collection address, object
/// index.
pub open spec fn vlen_ref_in(bytes: Seq<u8>) -> Result<(u32, u64, u16), ErrorKind> {
    if bytes.len() < 16 {
        Err(ErrorKind::Format)
    } else {
        Ok((le_at(bytes, 0, 4) as u32, le_at(bytes, 8, 8) as u64, le_at(bytes, 4, 2) as u16))
    }
}

/// The bytes of an object in a collection.
pub open spec fn heap_object(heaps: Heaps, address: u64, index: u16) -> Result<Seq<u8>, ErrorKind> {
    match heaps(address) {
        Ok(heap) => object_in(heap, index),
        Err(kind) => Err(kind),
    }
}

/// The text before the first zero byte.
pub open spec fn text_in(bytes: Seq<u8>) -> Result<Seq<char>, ErrorKind> {
    match utf8_text(until_nul(bytes)) {
        Some(chars) => Ok(chars),
        None => Err(ErrorKind::Format),
    }
}

/// The text that a variable-length string's reference stands for.
pub open spec fn vlen_text(heaps: Heaps, bytes: Seq<u8>) -> Result<Seq<char>, ErrorKind> {
    match vlen_ref_in(bytes) {
        Ok((length, address, index)) => if length == 0 {
            Ok(Seq::empty())
        } else {
            match heap_object(heaps, address, index) {
                Ok(raw) => text_in(raw),
                Err(kind) => Err(kind),
            }
        },
        Err(kind) => Err(kind),
    }
}

/// The `i`-th run of `size` bytes.
pub open spec fn element(bytes: Seq<u8>, i: int, size: nat) -> Seq<u8> {
    bytes.subrange(i * size, (i + 1) * size)
}

/// The unsigned integer of `size` bytes that `bytes` start with.
pub open spec fn uint_in(bytes: Seq<u8>, size: nat, order: ByteOrder) -> nat {
    match order {
        ByteOrder::Little => le_at(bytes, 0, size),
        ByteOrder::Big => be_at(bytes, 0, size),
    }
}

pub open spec fn is_word_size(size: nat) -> bool {
    size == 1 || size == 2 || size == 4 || size == 8
}

/// How deep a value may be nested.
pub const MAX_DECODE_DEPTH: u32 = 16;

/// The value of datatype `m` in `bytes`, `depth` levels down.
pub open spec fn value_in(heaps: Heaps, bytes: Seq<u8>, m: DtypeModel, depth: nat) -> Result<
    ValueModel,
    ErrorKind,
>
    decreases m, 0nat,
{
    if depth >= MAX_DECODE_DEPTH {
        Err(ErrorKind::Format)
    } else {
        match m {
            DtypeModel::Int { size, signed, order } => {
                if bytes.len() < size {
                    Err(ErrorKind::Format)
                } else if !is_word_size(size) {
                    Err(ErrorKind::NotImplemented)
                } else if signed {
                    Ok(ValueModel::Int(twos_complement(uint_in(bytes, size, order), size) as i64))
                } else {
                    Ok(ValueModel::Uint(uint_in(bytes, size, order) as u64))
                }
            },
            DtypeModel::Float { size, order } => {
                if bytes.len() < size {
                    Err(ErrorKind::Format)
                } else if size == 2 {
                    Ok(
                        ValueModel::Float(
                            Float::Single(
                                half_to_single(uint_in(bytes, 2, order) as u16) as u32,
                            ),
                        ),
                    )
                } else if size == 4 {
                    Ok(ValueModel::Float(Float::Single(uint_in(bytes, 4, order) as u32)))
                } else if size == 8 {
                    Ok(ValueModel::Float(Float::Double(uint_in(bytes, 8, order) as u64)))
                } else {
                    Err(ErrorKind::NotImplemented)
                }
            },
            DtypeModel::String { fixed_len: Some(n), .. } => {
                if bytes.len() < n {
                    Err(ErrorKind::Format)
                } else {
                    match text_in(bytes.subrange(0, n as int)) {
                        Ok(chars) => Ok(ValueModel::Str(chars)),
                        Err(kind) => Err(kind),
                    }
                }
            },
            DtypeModel::String { fixed_len: None, .. } => match vlen_text(heaps, bytes) {
                Ok(chars) => Ok(ValueModel::Str(chars)),
                Err(kind) => Err(kind),
            },
            DtypeModel::Opaque { size, .. } => Ok(
                ValueModel::Opaque(bytes.subrange(0, size as int)),
            ),
            DtypeModel::Bitfield { size, order } => {
                if bytes.len() < size {
                    Err(ErrorKind::Format)
                } else if !is_word_size(size) {
                    Err(ErrorKind::NotImplemented)
                } else {
                    Ok(ValueModel::Bitfield(uint_in(bytes, size, order) as u64))
                }
            },
            DtypeModel::Reference { ref_type: RefType::Object } => {
                if bytes.len() < 8 {
                    Err(ErrorKind::Format)
                } else {
                    Ok(ValueModel::ObjectRef(le_at(bytes, 0, 8) as u64))
                }
            },
            DtypeModel::Reference { ref_type: RefType::Region } => Err(ErrorKind::NotImplemented),
            DtypeModel::Enum { base, .. } => match value_in(heaps, bytes, *base, depth + 1) {
                Ok(ValueModel::Int(v)) => Ok(ValueModel::Enum(v)),
                Ok(ValueModel::Uint(v)) => Ok(ValueModel::Enum(twos_complement(v as nat, 8) as i64)),
                Ok(_) => Err(ErrorKind::Format),
                Err(kind) => Err(kind),
            },
            DtypeModel::Array { base, dims } => {
                if size_of(*base) is None {
                    Err(ErrorKind::NotImplemented)
                } else if product(dims) > usize::MAX {
                    Err(ErrorKind::Format)
                } else {
                    run_in(heaps, bytes, product(dims) as nat, *base, depth + 1)
                }
            },
            DtypeModel::VarLen { base } => sequence_in(heaps, bytes, *base, depth + 1),
            DtypeModel::Compound { fields } => match fields_in(heaps, bytes, fields, depth + 1) {
                Ok(pairs) => Ok(ValueModel::Compound(pairs)),
                Err(kind) => Err(kind),
            },
        }
    }
}

/// The sequence of the first `n` elements of type `base` in `raw`.
pub open spec fn run_in(heaps: Heaps, raw: Seq<u8>, n: nat, base: DtypeModel, depth: nat) -> Result<
    ValueModel,
    ErrorKind,
>
    decreases base, 2nat,
{
    match size_of(base) {
        None => Err(ErrorKind::NotImplemented),
        Some(size) => {
            if raw.len() < n * size {
                Err(ErrorKind::Format)
            } else {
                match run_items(heaps, raw, n, base, size, depth) {
                    Ok(items) => Ok(ValueModel::Sequence(items)),
                    Err(kind) => Err(kind),
                }
            }
        },
    }
}

/// The first `n` elements, of `size` bytes each, or the first error.
pub open spec fn run_items(
    heaps: Heaps,
    raw: Seq<u8>,
    n: nat,
    base: DtypeModel,
    size: nat,
    depth: nat,
) -> Result<Seq<ValueModel>, ErrorKind>
    decreases base, 1nat, n,
{
    if n == 0 {
        Ok(Seq::empty())
    } else {
        match run_items(heaps, raw, (n - 1) as nat, base, size, depth) {
            Ok(items) => match value_in(heaps, element(raw, n - 1, size), base, depth) {
                Ok(item) => Ok(items.push(item)),
                Err(kind) => Err(kind),
            },
            Err(kind) => Err(kind),
        }
    }
}

/// The sequence that one reference into a global heap stands for.
pub open spec fn sequence_in(heaps: Heaps, bytes: Seq<u8>, base: DtypeModel, depth: nat) -> Result<
    ValueModel,
    ErrorKind,
>
    decreases base, 3nat,
{
    match vlen_ref_in(bytes) {
        Err(kind) => Err(kind),
        Ok((length, address, index)) => {
            if length == 0 {
                Ok(ValueModel::Sequence(Seq::empty()))
            } else if size_of(base) is None {
                Err(ErrorKind::NotImplemented)
            } else {
                match heap_object(heaps, address, index) {
                    Err(kind) => Err(kind),
                    Ok(raw) => run_in(heaps, raw, length as nat, base, depth),
                }
            }
        },
    }
}

/// The fields in the bytes of a compound element, or the first error.
pub open spec fn fields_in(
    heaps: Heaps,
    bytes: Seq<u8>,
    fields: Seq<FieldModel>,
    depth: nat,
) -> Result<Seq<(Seq<char>, ValueModel)>, ErrorKind>
    decreases fields, 0nat,
{
    if fields.len() == 0 {
        Ok(Seq::empty())
    } else {
        match fields_in(heaps, bytes, fields.drop_last(), depth) {
            Err(kind) => Err(kind),
            Ok(pairs) => {
                let field = fields.last();
                match size_of(field.dtype) {
                    None => Err(ErrorKind::NotImplemented),
                    Some(size) => {
                        if field.offset + size > bytes.len() {
                            Err(ErrorKind::Format)
                        } else {
                            match value_in(
                                heaps,
                                bytes.subrange(field.offset as int, (field.offset + size) as int),
                                field.dtype,
                                depth,
                            ) {
                                Ok(value) => Ok(pairs.push((field.name, value))),
                                Err(kind) => Err(kind),
                            }
                        }
                    },
                }
            },
        }
    }
}

/// Whether an opaque element, or an enumeration's of one, is all there.
pub open spec fn opaque_fits(m: DtypeModel, len: nat) -> bool
    decreases m,
{
    match m {
        DtypeModel::Opaque { size, .. } => size <= len,
        DtypeModel::Enum { base, .. } => opaque_fits(*base, len),
        _ => true,
    }
}

/// Parse a reference into a global heap: sequence length, collection address,
/// object index.
pub fn parse_vlen_ref(bytes: &[u8]) -> (r: Result<(u32, u64, u16), OxiH5Error>)
    ensures
        outcome(r) == vlen_ref_in(bytes@),
{
    if bytes.len() < 16 {
        return Err(
            OxiH5Error::Format(
                text(&["vlen ref: need 16 bytes, got ", &bytes.len().to_string()]),
            ),
        );
    }
    Ok((get_u32(bytes, 0), get_u64(bytes, 8), get_u16(bytes, 4)))
}

/// The bytes of an object, from the cached collection or from the file.
fn heap_object_bytes(
    file_data: &[u8],
    heap_addr: u64,
    obj_idx: u16,
    heap_cache: &mut HashMap<u64, GlobalHeap>,
) -> (r: Result<Vec<u8>, OxiH5Error>)
    ensures
        outcome(r) == heap_object(heaps_of(file_data@, old(heap_cache)@), heap_addr, obj_idx),
        heaps_of(file_data@, final(heap_cache)@) == heaps_of(file_data@, old(heap_cache)@),
        at_most_added(old(heap_cache)@, final(heap_cache)@, heap_addr),
{
    let ghost heaps = heaps_of(file_data@, heap_cache@);
    if !heap_cache.contains_key(&heap_addr) {
        let heap = GlobalHeap::parse(file_data, heap_addr)?;
        heap_cache.insert(heap_addr, heap);
        proof {
            assert(heaps_of(file_data@, heap_cache@) =~= heaps);
        }
    }
    match heap_cache.get(&heap_addr) {
        Some(heap) => match heap.object(obj_idx) {
            Ok(data) => Ok(slice_to_vec(data)),
            Err(e) => Err(e),
        },
        None => Err(
            OxiH5Error::Format(text(&["heap cache miss for addr ", &heap_addr.to_string()])),
        ),
    }
}

/// The text before the first zero byte.
pub(crate) fn decode_text(bytes: &[u8]) -> (r: Result<String, OxiH5Error>)
    ensures
        outcome(r) == text_in(bytes@),
{
    let end: usize = find_nul(bytes, 0);
    match as_text(slice_subrange(bytes, 0, end)) {
        Some(s) => Ok(s.to_string()),
        None => Err(OxiH5Error::Format("string is not valid UTF-8".to_string())),
    }
}

/// The text that a variable-length string's reference stands for.
fn decode_vlen_text(
    file_data: &[u8],
    bytes: &[u8],
    heap_cache: &mut HashMap<u64, GlobalHeap>,
) -> (r: Result<String, OxiH5Error>)
    ensures
        outcome(r) == vlen_text(heaps_of(file_data@, old(heap_cache)@), bytes@),
        heaps_of(file_data@, final(heap_cache)@) == heaps_of(file_data@, old(heap_cache)@),
        cache_referred(old(heap_cache)@, final(heap_cache)@, bytes@),
{
    let (seq_len, heap_addr, obj_idx) = parse_vlen_ref(bytes)?;
    if seq_len == 0 {
        return Ok(String::new());
    }
    let raw: Vec<u8> = heap_object_bytes(file_data, heap_addr, obj_idx, heap_cache)?;
    decode_text(&raw)
}

/// Where the `i`-th of `n` elements lies.
proof fn lemma_element_bounds(i: int, n: int, size: int, len: int)
    requires
        0 <= i < n,
        0 <= size,
        n * size <= len,
    ensures
        0 <= i * size <= (i + 1) * size <= len,
{
    assert(0 <= i * size <= (i + 1) * size <= n * size) by (nonlinear_arith)
        requires
            0 <= i < n,
            0 <= size,
    ;
}

/// Whether `n` runs of `size` bytes fit into `len` bytes.
fn runs_fit(n: usize, size: usize, len: usize) -> (r: bool)
    ensures
        r == (n * size <= len),
{
    match n.checked_mul(size) {
        Some(needed) => needed <= len,
        None => false,
    }
}

/// The strings that `n` references into global heaps stand for.
pub open spec fn vlen_strings_in(heaps: Heaps, data: Seq<u8>, n: nat) -> Result<
    Seq<Seq<char>>,
    ErrorKind,
> {
    if data.len() < n * 16 {
        Err(ErrorKind::Format)
    } else {
        try_each(n, |i: int| vlen_text(heaps, element(data, i, 16)))
    }
}

/// Decode `n_elems` variable-length strings from their references.
pub fn decode_vlen_strings(file_data: &[u8], data: &[u8], n_elems: usize) -> (r: Result<
    Vec<String>,
    OxiH5Error,
>)
    ensures
        outcomes(r) == vlen_strings_in(file_heaps(file_data@), data@, n_elems as nat),
{
    if !runs_fit(n_elems, 16, data.len()) {
        return Err(
            OxiH5Error::Format(
                text(
                    &[
                        "vlen string buffer: need 16 bytes for each of ",
                        &n_elems.to_string(),
                        " elems, got ",
                        &data.len().to_string(),
                    ],
                ),
            ),
        );
    }
    let ghost heaps = file_heaps(file_data@);
    let ghost f = |i: int| vlen_text(heaps, element(data@, i, 16));
    assert(vlen_strings_in(heaps, data@, n_elems as nat) == try_each(n_elems as nat, f));
    let mut out: Vec<String> = Vec::new();
    let mut heap_cache: HashMap<u64, GlobalHeap> = HashMap::new();
    proof {
        lemma_empty_cache(file_data@, heap_cache@);
        assert(views(out@) =~= Seq::empty());
    }
    for i in 0..n_elems
        invariant
            n_elems * 16 <= data@.len() <= usize::MAX,
            heaps == file_heaps(file_data@),
            heaps_of(file_data@, heap_cache@) == heaps,
            f == (|i: int| vlen_text(heaps, element(data@, i, 16))),
            vlen_strings_in(heaps, data@, n_elems as nat) == try_each(n_elems as nat, f),
            try_each(i as nat, f) == Ok::<Seq<Seq<char>>, ErrorKind>(views(out@)),
    {
        let ghost before = views(out@);
        match decode_vlen_text(
            file_data,
            slice_subrange(data, i * 16, i * 16 + 16),
            &mut heap_cache,
        ) {
            Ok(s) => {
                out.push(s);
                proof {
                    assert(views(out@) =~= before.push(s@));
                }
            },
            Err(e) => {
                proof {
                    lemma_try_each_fails((i + 1) as nat, n_elems as nat, f);
                }
                return Err(e);
            },
        }
    }
    Ok(out)
}

/// The sequences that `n` references into global heaps stand for.
pub open spec fn sequences_in(heaps: Heaps, data: Seq<u8>, n: nat, base: DtypeModel) -> Result<
    Seq<ValueModel>,
    ErrorKind,
> {
    if data.len() < n * 16 {
        Err(ErrorKind::Format)
    } else if size_of(base) is None {
        Err(ErrorKind::NotImplemented)
    } else {
        try_each(n, |i: int| sequence_in(heaps, element(data, i, 16), base, 0))
    }
}

/// An element of exactly the size of its type is all there.
proof fn lemma_exact_size_is_opaque_fit(m: DtypeModel, len: nat)
    requires
        size_of(m) == Some(len),
    ensures
        opaque_fits(m, len),
    decreases m,
{
    match m {
        DtypeModel::Enum { base, .. } => lemma_exact_size_is_opaque_fit(*base, len),
        _ => {},
    }
}

/// An error among the first elements is the error of the run.
proof fn lemma_run_fails(
    heaps: Heaps,
    raw: Seq<u8>,
    m: nat,
    n: nat,
    base: DtypeModel,
    size: nat,
    depth: nat,
)
    requires
        m <= n,
        run_items(heaps, raw, m, base, size, depth) is Err,
    ensures
        run_items(heaps, raw, n, base, size, depth) == run_items(heaps, raw, m, base, size, depth),
    decreases n,
{
    if m < n {
        lemma_run_fails(heaps, raw, m, (n - 1) as nat, base, size, depth);
    }
}

/// Decode the first `n` elements of type `base` in `raw`.
fn decode_run(
    file_data: &[u8],
    raw: &[u8],
    n: usize,
    base: &Dtype,
    heap_cache: &mut HashMap<u64, GlobalHeap>,
    depth: u32,
) -> (r: Result<Value, OxiH5Error>)
    requires
        depth <= MAX_DECODE_DEPTH,
    ensures
        outcome(r) == run_in(
            heaps_of(file_data@, old(heap_cache)@),
            raw@,
            n as nat,
            base@,
            depth as nat,
        ),
        heaps_of(file_data@, final(heap_cache)@) == heaps_of(file_data@, old(heap_cache)@),
        final(heap_cache)@ == old(heap_cache)@,
    decreases base, 1nat,
{
    let ghost heaps = heaps_of(file_data@, heap_cache@);
    let mut elems: Vec<Value> = Vec::new();
    proof {
        assert(views(elems@) =~= Seq::empty());
        lemma_sequence_model(elems);
    }
    let size: usize = match base.exact_size() {
        ElemSize::Fixed(size) => size,
        ElemSize::Variable => {
            return Err(
                OxiH5Error::NotImplemented("sequence of variable-length base type".to_string()),
            );
        },
        ElemSize::TooLarge => {
            if n == 0 {
                return Ok(Value::Sequence(elems));
            }
            proof {
                let size = size_of(base@)->0;
                assert(n * size >= size) by (nonlinear_arith)
                    requires
                        n >= 1,
                        size >= 0,
                ;
                assert(raw.len() <= usize::MAX);
            }
            return Err(OxiH5Error::Format("sequence: element size overflows".to_string()));
        },
    };
    if !runs_fit(n, size, raw.len()) {
        return Err(
            OxiH5Error::Format(
                text(
                    &[
                        "sequence: have ",
                        &raw.len().to_string(),
                        " bytes, expected ",
                        &n.to_string(),
                        " elements of ",
                        &size.to_string(),
                    ],
                ),
            ),
        );
    }
    proof {
        lemma_exact_size_is_opaque_fit(base@, size as nat);
    }
    for j in 0..n
        invariant
            n * size <= raw@.len() <= usize::MAX,
            size_of(base@) == Some(size as nat),
            opaque_fits(base@, size as nat),
            depth <= MAX_DECODE_DEPTH,
            heaps_of(file_data@, heap_cache@) == heaps,
            heaps == heaps_of(file_data@, old(heap_cache)@),
            heap_cache@ == old(heap_cache)@,
            run_items(heaps, raw@, j as nat, base@, size as nat, depth as nat) == Ok::<
                Seq<ValueModel>,
                ErrorKind,
            >(views(elems@)),
    {
        let ghost before = views(elems@);
        proof {
            lemma_element_bounds(j as int, n as int, size as int, raw@.len() as int);
            assert((j + 1) * size == j * size + size) by (nonlinear_arith);
        }
        let elem = slice_subrange(raw, j * size, j * size + size);
        match decode_one_value(file_data, elem, base, heap_cache, depth) {
            Ok(value) => {
                elems.push(value);
                proof {
                    assert(views(elems@) =~= before.push(value@));
                }
            },
            Err(e) => {
                proof {
                    lemma_run_fails(
                        heaps,
                        raw@,
                        (j + 1) as nat,
                        n as nat,
                        base@,
                        size as nat,
                        depth as nat,
                    );
                }
                return Err(e);
            },
        }
    }
    proof {
        lemma_sequence_model(elems);
    }
    Ok(Value::Sequence(elems))
}

/// Decode the sequence that one reference into a global heap stands for.
fn decode_vlen_sequence(
    file_data: &[u8],
    bytes: &[u8],
    base: &Dtype,
    heap_cache: &mut HashMap<u64, GlobalHeap>,
    depth: u32,
) -> (r: Result<Value, OxiH5Error>)
    requires
        depth <= MAX_DECODE_DEPTH,
    ensures
        outcome(r) == sequence_in(
            heaps_of(file_data@, old(heap_cache)@),
            bytes@,
            base@,
            depth as nat,
        ),
        heaps_of(file_data@, final(heap_cache)@) == heaps_of(file_data@, old(heap_cache)@),
        cache_referred(old(heap_cache)@, final(heap_cache)@, bytes@),
    decreases base, 2nat,
{
    let (seq_len, heap_addr, obj_idx) = parse_vlen_ref(bytes)?;
    if seq_len == 0 {
        let elems: Vec<Value> = Vec::new();
        proof {
            assert(views(elems@) =~= Seq::empty());
            lemma_sequence_model(elems);
        }
        return Ok(Value::Sequence(elems));
    }
    if let ElemSize::Variable = base.exact_size() {
        return Err(OxiH5Error::NotImplemented("vlen of variable-length base type".to_string()));
    }
    let raw: Vec<u8> = heap_object_bytes(file_data, heap_addr, obj_idx, heap_cache)?;
    decode_run(file_data, &raw, seq_len as usize, base, heap_cache, depth)
}

/// Decode `n_elems` variable-length sequences from their references.
pub fn decode_vlen_sequences(
    file_data: &[u8],
    data: &[u8],
    n_elems: usize,
    base_dtype: &Dtype,
) -> (r: Result<Vec<Value>, OxiH5Error>)
    ensures
        outcomes(r) == sequences_in(
            file_heaps(file_data@),
            data@,
            n_elems as nat,
            base_dtype@,
        ),
{
    if !runs_fit(n_elems, 16, data.len()) {
        return Err(
            OxiH5Error::Format(
                text(
                    &[
                        "vlen sequence buffer: need 16 bytes for each of ",
                        &n_elems.to_string(),
                        " refs, got ",
                        &data.len().to_string(),
                    ],
                ),
            ),
        );
    }
    if let ElemSize::Variable = base_dtype.exact_size() {
        return Err(
            OxiH5Error::NotImplemented("vlen sequence with variable-length base type".to_string()),
        );
    }
    let ghost heaps = file_heaps(file_data@);
    let ghost f = |i: int| sequence_in(heaps, element(data@, i, 16), base_dtype@, 0);
    assert(sequences_in(heaps, data@, n_elems as nat, base_dtype@) == try_each(n_elems as nat, f));
    let mut out: Vec<Value> = Vec::new();
    let mut heap_cache: HashMap<u64, GlobalHeap> = HashMap::new();
    proof {
        lemma_empty_cache(file_data@, heap_cache@);
        assert(views(out@) =~= Seq::empty());
    }
    for i in 0..n_elems
        invariant
            n_elems * 16 <= data@.len() <= usize::MAX,
            heaps_of(file_data@, heap_cache@) == heaps,
            f == (|i: int| sequence_in(heaps, element(data@, i, 16), base_dtype@, 0)),
            sequences_in(file_heaps(file_data@), data@, n_elems as nat, base_dtype@) == try_each(
                n_elems as nat,
                f,
            ),
            try_each(i as nat, f) == Ok::<Seq<ValueModel>, ErrorKind>(views(out@)),
    {
        let ghost before = views(out@);
        let bytes = slice_subrange(data, i * 16, i * 16 + 16);
        match decode_vlen_sequence(file_data, bytes, base_dtype, &mut heap_cache, 0) {
            Ok(value) => {
                out.push(value);
                proof {
                    assert(views(out@) =~= before.push(value@));
                }
            },
            Err(e) => {
                proof {
                    lemma_try_each_fails((i + 1) as nat, n_elems as nat, f);
                }
                return Err(e);
            },
        }
    }
    Ok(out)
}

/// The first `n` object references.
pub open spec fn object_refs_in(data: Seq<u8>, n: nat) -> Result<Seq<u64>, ErrorKind> {
    if data.len() < n * 8 {
        Err(ErrorKind::Format)
    } else {
        Ok(Seq::new(n, |i: int| le_at(data, i * 8, 8) as u64))
    }
}

/// Decode `n_elems` object references.
pub fn decode_object_refs(data: &[u8], n_elems: usize) -> (r: Result<Vec<u64>, OxiH5Error>)
    ensures
        outcome(r) == object_refs_in(data@, n_elems as nat),
{
    if !runs_fit(n_elems, 8, data.len()) {
        return Err(
            OxiH5Error::Format(
                text(
                    &[
                        "object refs buffer: need 8 bytes for each of ",
                        &n_elems.to_string(),
                        " elems, got ",
                        &data.len().to_string(),
                    ],
                ),
            ),
        );
    }
    let mut out: Vec<u64> = Vec::new();
    for i in 0..n_elems
        invariant
            n_elems * 8 <= data@.len() <= usize::MAX,
            out@ == Seq::new(i as nat, |k: int| le_at(data@, k * 8, 8) as u64),
    {
        out.push(get_u64(data, i * 8));
        proof {
            assert(out@ =~= Seq::new((i + 1) as nat, |k: int| le_at(data@, k * 8, 8) as u64));
        }
    }
    Ok(out)
}

/// An error in the first fields is the error of the element.
proof fn lemma_fields_fail(
    heaps: Heaps,
    bytes: Seq<u8>,
    fields: Seq<FieldModel>,
    i: int,
    depth: nat,
)
    requires
        0 <= i <= fields.len(),
        fields_in(heaps, bytes, fields.take(i), depth) is Err,
    ensures
        fields_in(heaps, bytes, fields, depth) == fields_in(heaps, bytes, fields.take(i), depth),
    decreases fields.len(),
{
    if i < fields.len() {
        assert(fields.drop_last().take(i) =~= fields.take(i));
        lemma_fields_fail(heaps, bytes, fields.drop_last(), i, depth);
    } else {
        assert(fields.take(i) =~= fields);
    }
}

/// Decode one element of a compound type, field by field.
pub fn decode_compound_element(
    file_data: &[u8],
    element_bytes: &[u8],
    fields: &[CompoundField],
    heap_cache: &mut HashMap<u64, GlobalHeap>,
    depth: u32,
) -> (r: Result<Value, OxiH5Error>)
    ensures
        outcome(r) == match fields_in(
            heaps_of(file_data@, old(heap_cache)@),
            element_bytes@,
            views(fields@),
            depth as nat,
        ) {
            Ok(pairs) => Ok(ValueModel::Compound(pairs)),
            Err(kind) => Err(kind),
        },
        heaps_of(file_data@, final(heap_cache)@) == heaps_of(file_data@, old(heap_cache)@),
        final(heap_cache)@ == old(heap_cache)@,
    decreases fields@, 1nat,
{
    let ghost heaps = heaps_of(file_data@, heap_cache@);
    let ghost all = views(fields@);
    let ghost bytes = element_bytes@;
    let mut decoded: Vec<(String, Value)> = Vec::new();
    proof {
        assert(all.take(0) =~= Seq::<FieldModel>::empty());
        assert(views(decoded@) =~= Seq::empty());
    }
    for i in 0..fields.len()
        invariant
            all == views(fields@),
            bytes == element_bytes@,
            heaps_of(file_data@, heap_cache@) == heaps,
            heaps == heaps_of(file_data@, old(heap_cache)@),
            heap_cache@ == old(heap_cache)@,
            fields_in(heaps, bytes, all.take(i as int), depth as nat) == Ok::<
                Seq<(Seq<char>, ValueModel)>,
                ErrorKind,
            >(views(decoded@)),
    {
        let ghost before = views(decoded@);
        let field = &fields[i];
        proof {
            assert(all.take(i + 1).drop_last() =~= all.take(i as int));
            assert(all.take(i + 1).last() == field@);
            assert(decreases_to!(fields@ => fields@[i as int]));
            if fields_in(heaps, bytes, all.take(i + 1), depth as nat) is Err {
                lemma_fields_fail(heaps, bytes, all, i + 1, depth as nat);
            }
            assert(element_bytes.len() <= usize::MAX);
        }
        let size: usize = match field.dtype.exact_size() {
            ElemSize::Variable => {
                return Err(
                    OxiH5Error::NotImplemented(
                        text(
                            &[
                                "compound field '",
                                field.name.as_str(),
                                "': variable-length field size not supported in compound",
                            ],
                        ),
                    ),
                );
            },
            ElemSize::Fixed(size) => size,
            ElemSize::TooLarge => {
                return Err(
                    OxiH5Error::Format(
                        text(
                            &[
                                "compound field '",
                                field.name.as_str(),
                                "': offset+size overflows",
                            ],
                        ),
                    ),
                );
            },
        };
        if size > element_bytes.len() || field.offset > element_bytes.len() - size {
                return Err(
                    OxiH5Error::Format(
                        text(
                            &[
                                "compound field '",
                                field.name.as_str(),
                                "': element slice out of bounds (element is ",
                                &element_bytes.len().to_string(),
                                " bytes)",
                            ],
                        ),
                    ),
                );
        }
        proof {
            lemma_exact_size_is_opaque_fit(field.dtype@, size as nat);
        }
        let field_bytes = slice_subrange(element_bytes, field.offset, field.offset + size);
        let value = decode_one_value(file_data, field_bytes, &field.dtype, heap_cache, depth)?;
        decoded.push((field.name.clone(), value));
        proof {
            assert(views(decoded@) =~= before.push((field.name@, value@)));
        }
    }
    proof {
        assert(all.take(fields@.len() as int) =~= all);
        lemma_compound_value_model(decoded);
    }
    Ok(Value::Compound(decoded))
}

/// The unsigned integer of `size` bytes that `bytes` start with.
pub(crate) fn read_uint(bytes: &[u8], size: usize, order: ByteOrder) -> (r: u64)
    requires
        size <= 8,
        size <= bytes@.len(),
    ensures
        r == uint_in(bytes@, size as nat, order),
        r < pow256(size as nat),
{
    proof {
        lemma_le_at_bound(bytes@, 0, size as nat);
        lemma_be_at_bound(bytes@, 0, size as nat);
    }
    match order {
        ByteOrder::Little => get_le(bytes, 0, size),
        ByteOrder::Big => get_be(bytes, 0, size),
    }
}

fn short(what: &str, need: usize, got: usize) -> (r: OxiH5Error)
    ensures
        r@ == ErrorKind::Format,
{
    OxiH5Error::Format(
        text(&[what, ": need ", &need.to_string(), " bytes, got ", &got.to_string()]),
    )
}

/// Decode one value of any datatype from `bytes`.
///
/// `depth` counts the levels of nesting above this value; at
/// [`MAX_DECODE_DEPTH`] decoding stops with an error.
pub fn decode_one_value(
    file_data: &[u8],
    bytes: &[u8],
    dtype: &Dtype,
    heap_cache: &mut HashMap<u64, GlobalHeap>,
    depth: u32,
) -> (r: Result<Value, OxiH5Error>)
    requires
        opaque_fits(dtype@, bytes@.len()),
    ensures
        outcome(r) == value_in(
            heaps_of(file_data@, old(heap_cache)@),
            bytes@,
            dtype@,
            depth as nat,
        ),
        heaps_of(file_data@, final(heap_cache)@) == heaps_of(file_data@, old(heap_cache)@),
        cache_decoded(old(heap_cache)@, final(heap_cache)@, bytes@, dtype@),
    decreases dtype, 0nat,
{
    if depth >= MAX_DECODE_DEPTH {
        return Err(
            OxiH5Error::Format(
                text(&["decode_one_value: recursion depth ", &depth.to_string(), " exceeds limit"]),
            ),
        );
    }
    proof {
        lemma_pow256_values();
    }
    match dtype {
        Dtype::Int { size, signed, order } => {
            if bytes.len() < *size {
                return Err(short("int decode", *size, bytes.len()));
            }
            match *size {
                1 | 2 | 4 | 8 => {
                    let v: u64 = read_uint(bytes, *size, *order);
                    if *signed {
                        Ok(Value::Int(to_signed(v, *size)))
                    } else {
                        Ok(Value::Uint(v))
                    }
                },
                _ => Err(OxiH5Error::NotImplemented(text(&["int size ", &size.to_string()]))),
            }
        },
        Dtype::Float { size, order } => {
            if bytes.len() < *size {
                return Err(short("float decode", *size, bytes.len()));
            }
            match *size {
                2 => {
                    let v: u64 = read_uint(bytes, 2, *order);
                    Ok(Value::Float(Float::Single(f16_to_f32(v as u16))))
                },
                4 => {
                    let v: u64 = read_uint(bytes, 4, *order);
                    Ok(Value::Float(Float::Single(v as u32)))
                },
                8 => {
                    let v: u64 = read_uint(bytes, 8, *order);
                    Ok(Value::Float(Float::Double(v)))
                },
                _ => Err(OxiH5Error::NotImplemented(text(&["float size ", &size.to_string()]))),
            }
        },
        Dtype::String { fixed_len: Some(n), .. } => {
            if bytes.len() < *n {
                return Err(short("fixed string", *n, bytes.len()));
            }
            let s: String = decode_text(slice_subrange(bytes, 0, *n))?;
            Ok(Value::Str(s))
        },
        Dtype::String { fixed_len: None, .. } => {
            let s: String = decode_vlen_text(file_data, bytes, heap_cache)?;
            Ok(Value::Str(s))
        },
        Dtype::Opaque { size, .. } => Ok(
            Value::Opaque(slice_to_vec(slice_subrange(bytes, 0, *size))),
        ),
        Dtype::Bitfield { size, order } => {
            if bytes.len() < *size {
                return Err(short("bitfield decode", *size, bytes.len()));
            }
            match *size {
                1 | 2 | 4 | 8 => Ok(Value::Bitfield(read_uint(bytes, *size, *order))),
                _ => Err(OxiH5Error::NotImplemented(text(&["bitfield size ", &size.to_string()]))),
            }
        },
        Dtype::Reference { ref_type: RefType::Object } => {
            if bytes.len() < 8 {
                return Err(short("object ref", 8, bytes.len()));
            }
            Ok(Value::ObjectRef(get_u64(bytes, 0)))
        },
        Dtype::Reference { ref_type: RefType::Region } => Err(
            OxiH5Error::NotImplemented("region reference decode".to_string()),
        ),
        Dtype::Enum { base, .. } => {
            match decode_one_value(file_data, bytes, base, heap_cache, depth + 1)? {
                Value::Int(v) => Ok(Value::Enum(v)),
                Value::Uint(v) => Ok(Value::Enum(to_signed(v, 8))),
                _ => Err(OxiH5Error::Format("enum: unexpected base value".to_string())),
            }
        },
        Dtype::Array { base, dims } => {
            if let ElemSize::Variable = base.exact_size() {
                return Err(
                    OxiH5Error::NotImplemented("array of variable-length base type".to_string()),
                );
            }
            match exact_total(dims) {
                Some(n) => decode_run(file_data, bytes, n, base, heap_cache, depth + 1),
                None => Err(OxiH5Error::Format("array decode: n_elems overflows".to_string())),
            }
        },
        Dtype::VarLen { base } => decode_vlen_sequence(
            file_data,
            bytes,
            base,
            heap_cache,
            depth + 1,
        ),
        Dtype::Compound { fields } => {
            proof {
                lemma_compound_model(*fields);
            }
            decode_compound_element(file_data, bytes, fields, heap_cache, depth + 1)
        },
    }
}

/// The number of bytes from one element to the next; `None` if a field is
/// variable-length.
pub open spec fn stride_of(fields: Seq<FieldModel>, elem_stride: nat) -> Option<nat> {
    if elem_stride == 0 {
        extent_of(fields)
    } else {
        Some(elem_stride)
    }
}

/// The elements of a buffer of compound elements.
pub open spec fn compounds_in(
    heaps: Heaps,
    data: Seq<u8>,
    fields: Seq<FieldModel>,
    n: nat,
    elem_stride: nat,
) -> Result<Seq<ValueModel>, ErrorKind> {
    if elem_stride == 0 && n == 0 {
        Ok(Seq::empty())
    } else {
        match stride_of(fields, elem_stride) {
            None => Err(ErrorKind::NotImplemented),
            Some(stride) => {
                if stride == 0 || data.len() < n * stride {
                    Err(ErrorKind::Format)
                } else {
                    try_each(n, |i: int| compound_in(heaps, element(data, i, stride), fields))
                }
            },
        }
    }
}

/// One element of a compound type.
pub open spec fn compound_in(heaps: Heaps, bytes: Seq<u8>, fields: Seq<FieldModel>) -> Result<
    ValueModel,
    ErrorKind,
> {
    match fields_in(heaps, bytes, fields, 0) {
        Ok(pairs) => Ok(ValueModel::Compound(pairs)),
        Err(kind) => Err(kind),
    }
}

/// Decode `n_elems` elements of a compound type, `elem_stride` bytes apart; a
/// stride of 0 stands for the extent of the fields.
pub fn decode_compound(
    file_data: &[u8],
    data: &[u8],
    fields: &[CompoundField],
    n_elems: usize,
    elem_stride: usize,
) -> (r: Result<Vec<Value>, OxiH5Error>)
    ensures
        outcomes(r) == compounds_in(
            file_heaps(file_data@),
            data@,
            views(fields@),
            n_elems as nat,
            elem_stride as nat,
        ),
{
    let mut out: Vec<Value> = Vec::new();
    proof {
        assert(views(out@) =~= Seq::empty());
    }
    if elem_stride == 0 && n_elems == 0 {
        return Ok(out);
    }
    let exact: ElemSize = if elem_stride == 0 {
        exact_extent(fields)
    } else {
        ElemSize::Fixed(elem_stride)
    };
    let ghost all = views(fields@);
    let stride: usize = match exact {
        ElemSize::Fixed(0) => {
            return Err(
                OxiH5Error::Format("compound decode: element stride is zero".to_string()),
            );
        },
        ElemSize::Fixed(stride) if runs_fit(n_elems, stride, data.len()) => stride,
        ElemSize::Variable => {
            return Err(
                OxiH5Error::NotImplemented(
                    "cannot compute stride: a field is variable-length".to_string(),
                ),
            );
        },
        _ => {
            proof {
                let s = stride_of(all, elem_stride as nat)->0;
                if s > usize::MAX {
                    assert(n_elems * s >= s) by (nonlinear_arith)
                        requires
                            n_elems >= 1,
                            s >= 0,
                    ;
                    assert(data.len() <= usize::MAX);
                }
            }
            return Err(
                OxiH5Error::Format(
                    text(
                        &[
                            "compound decode: buffer has ",
                            &data.len().to_string(),
                            " bytes, too few for ",
                            &n_elems.to_string(),
                            " elements",
                        ],
                    ),
                ),
            );
        },
    };
    let ghost heaps = file_heaps(file_data@);
    let ghost f = |i: int| compound_in(heaps, element(data@, i, stride as nat), all);
    assert(compounds_in(heaps, data@, all, n_elems as nat, elem_stride as nat) == try_each(
        n_elems as nat,
        f,
    ));
    let mut heap_cache: HashMap<u64, GlobalHeap> = HashMap::new();
    proof {
        lemma_empty_cache(file_data@, heap_cache@);
    }
    for i in 0..n_elems
        invariant
            n_elems * stride <= data@.len() <= usize::MAX,
            all == views(fields@),
            heaps_of(file_data@, heap_cache@) == heaps,
            f == (|i: int| compound_in(heaps, element(data@, i, stride as nat), all)),
            compounds_in(
                file_heaps(file_data@),
                data@,
                all,
                n_elems as nat,
                elem_stride as nat,
            ) == try_each(n_elems as nat, f),
            try_each(i as nat, f) == Ok::<Seq<ValueModel>, ErrorKind>(views(out@)),
    {
        let ghost before = views(out@);
        proof {
            lemma_element_bounds(i as int, n_elems as int, stride as int, data@.len() as int);
            assert((i + 1) * stride == i * stride + stride) by (nonlinear_arith);
        }
        let elem = slice_subrange(data, i * stride, i * stride + stride);
        match decode_compound_element(file_data, elem, fields, &mut heap_cache, 0) {
            Ok(value) => {
                out.push(value);
                proof {
                    assert(views(out@) =~= before.push(value@));
                }
            },
            Err(e) => {
                proof {
                    lemma_try_each_fails((i + 1) as nat, n_elems as nat, f);
                }
                return Err(e);
            },
        }
    }
    Ok(out)
}

/// Decode all elements of a compound dataset's buffer.
pub fn decode_dataset_compound(
    file_data: &[u8],
    data: &[u8],
    fields: &[CompoundField],
    n_elems: usize,
    elem_stride: usize,
) -> (r: Result<Vec<Value>, OxiH5Error>)
    ensures
        outcomes(r) == compounds_in(
            file_heaps(file_data@),
            data@,
            views(fields@),
            n_elems as nat,
            elem_stride as nat,
        ),
{
    decode_compound(file_data, data, fields, n_elems, elem_stride)
}

/// The bytes of a reference into a global heap.
pub open spec fn vlen_ref_image(length: nat, index: nat, address: nat) -> Seq<u8> {
    le_bytes(length, 4) + le_bytes(index, 2) + zeros(2) + le_bytes(address, 8)
}

/// A reference reads back as what it was made of.
pub proof fn law_vlen_ref_reads_back(length: u32, index: u16, address: u64)
    ensures
        vlen_ref_in(vlen_ref_image(length as nat, index as nat, address as nat)) == Ok::<
            (u32, u64, u16),
            ErrorKind,
        >((length, address, index)),
{
    let image = vlen_ref_image(length as nat, index as nat, address as nat);
    lemma_le_bytes_len(length as nat, 4);
    lemma_le_bytes_len(index as nat, 2);
    lemma_le_bytes_len(address as nat, 8);
    lemma_pow256_values();
    assert(image.subrange(0, 4) =~= le_bytes(length as nat, 4));
    lemma_le_round_trip(length as nat, 4, image, 0);
    assert(image.subrange(4, 6) =~= le_bytes(index as nat, 2));
    lemma_le_round_trip(index as nat, 2, image, 4);
    assert(image.subrange(8, 16) =~= le_bytes(address as nat, 8));
    lemma_le_round_trip(address as nat, 8, image, 8);
}

/// A string stored in a collection is read back through its reference: where a
/// file holds the collection at an address that is a multiple of 8, and the
/// object at position `k` is the string `s` and a zero byte, the reference to
/// that object decodes to `s`.
pub proof fn law_stored_string_reads_back(
    file: Seq<u8>,
    base: u64,
    objects: Seq<Seq<u8>>,
    k: int,
    s: Seq<char>,
    length: u32,
)
    requires
        base % 8 == 0,
        objects.len() <= 65535,
        holds_collection(file, base as int, objects),
        file.len() <= usize::MAX,
        0 <= k < objects.len(),
        nul_free(s),
        objects[k] == encode_utf8(s).push(0u8),
        length > 0,
    ensures
        vlen_text(
            file_heaps(file),
            vlen_ref_image(length as nat, (k + 1) as nat, base as nat),
        ) == Ok::<Seq<char>, ErrorKind>(s),
{
    law_collection_reads_back(file, base as int, objects);
    law_vlen_ref_reads_back(length, (k + 1) as u16, base);
    let stored = objects[k];
    assert(stored.subrange(0, encode_utf8(s).len() as int) =~= encode_utf8(s));
    lemma_text_at(stored, 0, s);
}

} // verus!
