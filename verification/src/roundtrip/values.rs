//! The numbers, texts and references that were written are the ones that are read.

use vstd::prelude::*;
use vstd::utf8::encode_utf8;
use crate::attr_view::{attr_object_refs, attr_strings, fixed_text, scalar_float, scalar_int};
use crate::bytes::{
    le_at, le_bytes, lemma_le_bytes_len, lemma_pow256_values, pow256, twos_complement, zeros,
};
use crate::dataset::{int_order, float_order, mapped, word_at, words_in};
use crate::dims::{ints64, product};
use crate::dtype::ByteOrder;
use crate::error::{try_each, ErrorKind};
use crate::float::Float;
use crate::roundtrip::held::{held, lemma_held_bytes, lemma_held_number, lemma_held_parts};
use crate::roundtrip::messages::read_attribute;
use crate::utf8::{lemma_encoded_text, lemma_text_at, nul_free};
use crate::values::{element, text_in, Heaps};
use crate::write::attr::{
    all_fit, bits32, bits64, lemma_strings_len, lemma_words_len, strings_image, words_image,
    AttrModel,
};
use crate::write::elem::{dtype_of, ElemType};
use crate::write::{numbers_image, signed32, signed64, words32, words64};

verus! {

/// Numbers of `width` bytes each read back.
proof fn lemma_numbers_back(values: Seq<nat>, width: nat)
    requires
        width == 1 || width == 2 || width == 4 || width == 8,
        forall|i: int| 0 <= i < values.len() ==> #[trigger] values[i] < pow256(width),
    ensures
        words_in(numbers_image(values, width), width, Some(ByteOrder::Little)) == Ok::<
            Seq<nat>,
            ErrorKind,
        >(values),
{
    let data = numbers_image(values, width);
    lemma_numbers_len(values, width);
    let n = values.len() as int;
    let w = width as int;
    vstd::arithmetic::div_mod::lemma_mod_multiples_basic(n, w);
    vstd::arithmetic::div_mod::lemma_div_multiples_vanish(n, w);
    assert(w * n == n * w) by (nonlinear_arith);
    assert(held(data, 0, data)) by {
        assert(data.subrange(0, data.len() as int) =~= data);
    }
    let found = Seq::new(data.len() / width, |i: int| word_at(data, i * width, width, ByteOrder::Little));
    assert forall|i: int| 0 <= i < n implies #[trigger] found[i] == values[i] by {
        lemma_number_at(data, 0, values, width, i);
    }
    assert(found =~= values);
}

proof fn lemma_numbers_len(values: Seq<nat>, width: nat)
    ensures
        numbers_image(values, width).len() == values.len() * width,
    decreases values.len(),
{
    if values.len() > 0 {
        lemma_numbers_len(values.drop_last(), width);
        lemma_le_bytes_len(values.last(), width);
        let n = values.len() as int;
        assert(n * width == (n - 1) * width + width) by (nonlinear_arith);
    } else {
        assert(0 * width == 0) by (nonlinear_arith);
    }
}

proof fn lemma_number_at(data: Seq<u8>, pos: int, values: Seq<nat>, width: nat, i: int)
    requires
        held(data, pos, numbers_image(values, width)),
        0 <= i < values.len(),
        forall|k: int| 0 <= k < values.len() ==> #[trigger] values[k] < pow256(width),
    ensures
        le_at(data, pos + i * width, width) == values[i],
    decreases values.len(),
{
    let front = values.drop_last();
    lemma_numbers_len(front, width);
    lemma_held_parts(data, pos, numbers_image(front, width), le_bytes(values.last(), width));
    if i == values.len() - 1 {
        lemma_held_number(data, pos + i * width, values[i], width);
    } else {
        assert forall|k: int| 0 <= k < front.len() implies #[trigger] front[k] < pow256(width) by {
            assert(front[k] == values[k]);
        }
        lemma_number_at(data, pos, front, width, i);
    }
}

/// Signed integers of 4 bytes read back as they were written.
pub proof fn law_i32_elements_read_back(data: Seq<i32>)
    ensures
        mapped(
            words_in(
                numbers_image(signed32(data), 4),
                4,
                int_order(dtype_of(ElemType::I32), 4, true),
            ),
            |v: nat| twos_complement(v, 4) as i32,
        ) == Ok::<Seq<i32>, ErrorKind>(data),
{
    let values = signed32(data);
    lemma_pow256_values();
    assert forall|i: int| 0 <= i < values.len() implies #[trigger] values[i] < pow256(4) by {
        assert(values[i] == bits32(data[i]));
    }
    lemma_numbers_back(values, 4);
    let f = |v: nat| twos_complement(v, 4) as i32;
    assert(Seq::new(values.len(), |i: int| f(values[i])) =~= data);
}

/// Signed integers of 8 bytes read back as they were written.
pub proof fn law_i64_elements_read_back(data: Seq<i64>)
    ensures
        mapped(
            words_in(
                numbers_image(signed64(data), 8),
                8,
                int_order(dtype_of(ElemType::I64), 8, true),
            ),
            |v: nat| twos_complement(v, 8) as i64,
        ) == Ok::<Seq<i64>, ErrorKind>(data),
{
    let values = signed64(data);
    lemma_pow256_values();
    assert forall|i: int| 0 <= i < values.len() implies #[trigger] values[i] < pow256(8) by {
        assert(values[i] == bits64(data[i]));
    }
    lemma_numbers_back(values, 8);
    let f = |v: nat| twos_complement(v, 8) as i64;
    assert(Seq::new(values.len(), |i: int| f(values[i])) =~= data);
}

/// Floating-point numbers of 4 bytes read back bit by bit.
pub proof fn law_f32_elements_read_back(data: Seq<u32>)
    ensures
        mapped(
            words_in(numbers_image(words32(data), 4), 4, float_order(dtype_of(ElemType::F32), 4)),
            |v: nat| v as u32,
        ) == Ok::<Seq<u32>, ErrorKind>(data),
{
    let values = words32(data);
    lemma_pow256_values();
    assert forall|i: int| 0 <= i < values.len() implies #[trigger] values[i] < pow256(4) by {
        assert(values[i] == data[i]);
    }
    lemma_numbers_back(values, 4);
    let f = |v: nat| v as u32;
    assert(Seq::new(values.len(), |i: int| f(values[i])) =~= data);
}

/// Floating-point numbers of 8 bytes read back bit by bit.
pub proof fn law_f64_elements_read_back(data: Seq<u64>)
    ensures
        mapped(
            words_in(numbers_image(words64(data), 8), 8, float_order(dtype_of(ElemType::F64), 8)),
            |v: nat| v as u64,
        ) == Ok::<Seq<u64>, ErrorKind>(data),
{
    let values = words64(data);
    lemma_pow256_values();
    assert forall|i: int| 0 <= i < values.len() implies #[trigger] values[i] < pow256(8) by {
        assert(values[i] == data[i]);
    }
    lemma_numbers_back(values, 8);
    let f = |v: nat| v as u64;
    assert(Seq::new(values.len(), |i: int| f(values[i])) =~= data);
}

/// An integer attribute reads back as the number that was written.
pub proof fn law_integer_attribute_reads_back(name: Seq<char>, v: i64)
    ensures
        scalar_int(read_attribute(name, AttrModel::I64(v))) == Some(v as int),
{
    let data = le_bytes(bits64(v), 8);
    lemma_le_bytes_len(bits64(v), 8);
    lemma_pow256_values();
    assert(data.subrange(0, 8) =~= data);
    lemma_held_number(data, 0, bits64(v), 8);
}

/// A text attribute reads back as the text that was written.
pub proof fn law_text_attribute_reads_back(name: Seq<char>, s: Seq<char>)
    requires
        nul_free(s),
    ensures
        fixed_text(read_attribute(name, AttrModel::FixedStr(encode_utf8(s)))) == Some(s),
{
    let bytes = encode_utf8(s);
    assert(bytes.subrange(0, bytes.len() as int) =~= bytes);
    lemma_text_at(bytes, 0, s);
    lemma_encoded_text(s);
}

/// An integer attribute of 4 bytes reads back as the number that was written.
pub proof fn law_small_integer_attribute_reads_back(name: Seq<char>, v: i32)
    ensures
        scalar_int(read_attribute(name, AttrModel::I32(v))) == Some(v as int),
{
    let data = le_bytes(bits32(v), 4);
    lemma_le_bytes_len(bits32(v), 4);
    lemma_pow256_values();
    assert(data.subrange(0, 4) =~= data);
    lemma_held_number(data, 0, bits32(v), 4);
}

/// A floating-point attribute reads back bit by bit.
pub proof fn law_float_attribute_reads_back(name: Seq<char>, bits: u64)
    ensures
        scalar_float(read_attribute(name, AttrModel::F64(bits))) == Some(Float::Double(bits)),
{
    let data = le_bytes(bits as nat, 8);
    lemma_le_bytes_len(bits as nat, 8);
    lemma_pow256_values();
    assert(data.subrange(0, 8) =~= data);
    lemma_held_number(data, 0, bits as nat, 8);
}

proof fn lemma_word_at(data: Seq<u8>, pos: int, words: Seq<nat>, i: int)
    requires
        held(data, pos, words_image(words)),
        0 <= i < words.len(),
        forall|k: int| 0 <= k < words.len() ==> #[trigger] words[k] <= u64::MAX,
    ensures
        le_at(data, pos + i * 8, 8) == words[i],
    decreases words.len(),
{
    let front = words.drop_last();
    lemma_words_len(front);
    lemma_pow256_values();
    lemma_held_parts(data, pos, words_image(front), le_bytes(words.last(), 8));
    if i == words.len() - 1 {
        assert(words[i] <= u64::MAX);
        lemma_held_number(data, pos + i * 8, words[i], 8);
    } else {
        assert forall|k: int| 0 <= k < front.len() implies #[trigger] front[k] <= u64::MAX by {
            assert(front[k] == words[k]);
        }
        lemma_word_at(data, pos, front, i);
    }
}

/// Object references in an attribute read back as the addresses that were written.
pub proof fn law_reference_attribute_reads_back(name: Seq<char>, addrs: Seq<u64>)
    requires
        addrs.len() <= u64::MAX,
    ensures
        attr_object_refs(read_attribute(name, AttrModel::ObjRefs(addrs))) == Ok::<
            Seq<u64>,
            ErrorKind,
        >(addrs),
{
    let words = Seq::new(addrs.len(), |i: int| addrs[i] as nat);
    let data = words_image(words);
    lemma_words_len(words);
    assert(held(data, 0, data)) by {
        assert(data.subrange(0, data.len() as int) =~= data);
    }
    let n = addrs.len();
    let dims = ints64(seq![n as u64]);
    assert(dims =~= seq![n as int]);
    assert(seq![n as int].drop_last() =~= Seq::<int>::empty());
    assert(product(Seq::<int>::empty()) == 1);
    assert(product(seq![n as int]) == n);
    let found = Seq::new(n, |i: int| le_at(data, i * 8, 8) as u64);
    assert forall|i: int| 0 <= i < n implies #[trigger] found[i] == addrs[i] by {
        assert forall|k: int| 0 <= k < words.len() implies #[trigger] words[k] <= u64::MAX by {}
        lemma_word_at(data, 0, words, i);
    }
    assert(found =~= addrs);
}

/// The strings, by their bytes.
pub open spec fn encoded_texts(texts: Seq<Seq<char>>) -> Seq<Seq<u8>> {
    Seq::new(texts.len(), |i: int| encode_utf8(texts[i]))
}

proof fn lemma_string_at(data: Seq<u8>, pos: int, texts: Seq<Seq<char>>, width: nat, i: int)
    requires
        held(data, pos, strings_image(encoded_texts(texts), width)),
        all_fit(encoded_texts(texts), width),
        0 <= i < texts.len(),
        forall|k: int| 0 <= k < texts.len() ==> nul_free(#[trigger] texts[k]),
    ensures
        text_in(data.subrange(pos + i * width, pos + (i + 1) * width)) == Ok::<
            Seq<char>,
            ErrorKind,
        >(texts[i]),
    decreases texts.len(),
{
    let values = encoded_texts(texts);
    let n = texts.len() as int;
    let front = texts.drop_last();
    assert(values.drop_last() =~= encoded_texts(front));
    assert(all_fit(encoded_texts(front), width)) by {
        assert forall|k: int| 0 <= k < front.len() implies (#[trigger] encoded_texts(
            front,
        )[k]).len() <= width by {
            assert(values[k].len() <= width);
        }
    }
    lemma_strings_len(encoded_texts(front), width);
    let last = values.last();
    assert(values[n - 1].len() <= width);
    let pad = zeros((width - last.len()) as nat);
    let before = strings_image(encoded_texts(front), width);
    assert(strings_image(values, width) == before + last + pad);
    lemma_held_parts(data, pos, before + last, pad);
    lemma_held_parts(data, pos, before, last);
    if i == n - 1 {
        let at = pos + i * width;
        assert((i + 1) * width == i * width + width) by (nonlinear_arith);
        let part = data.subrange(at, at + width);
        assert(part.subrange(0, last.len() as int) =~= last) by {
            assert(data.subrange(at, at + last.len()) == last);
            assert(part.subrange(0, last.len() as int) =~= data.subrange(at, at + last.len()));
        }
        if last.len() < width {
            lemma_held_bytes(data, at + last.len(), pad);
            assert(pad[0] == data[at + last.len() + 0]);
            assert(part[last.len() as int] == 0);
        }
        assert(nul_free(texts[i]));
        lemma_text_at(part, 0, texts[i]);
    } else {
        assert forall|k: int| 0 <= k < front.len() implies nul_free(#[trigger] front[k]) by {
            assert(front[k] == texts[k]);
        }
        lemma_string_at(data, pos, front, width, i);
    }
}

/// What each part gives is what all of them give together.
pub proof fn lemma_try_each_is<T>(n: nat, f: spec_fn(int) -> Result<T, ErrorKind>, items: Seq<T>)
    requires
        n <= items.len(),
        forall|i: int| 0 <= i < n ==> #[trigger] f(i) == Ok::<T, ErrorKind>(items[i]),
    ensures
        try_each(n, f) == Ok::<Seq<T>, ErrorKind>(items.take(n as int)),
    decreases n,
{
    if n > 0 {
        lemma_try_each_is((n - 1) as nat, f, items);
        assert(f(n - 1) == Ok::<T, ErrorKind>(items[n - 1]));
        assert(items.take(n - 1).push(items[n - 1]) =~= items.take(n as int));
    } else {
        assert(items.take(0) =~= Seq::<T>::empty());
    }
}

/// The strings of an attribute read back as they were written, at whatever width they
/// are stored.
pub proof fn law_strings_attribute_reads_back(
    heaps: Heaps,
    name: Seq<char>,
    texts: Seq<Seq<char>>,
    width: nat,
)
    requires
        width > 0,
        all_fit(encoded_texts(texts), width),
        forall|k: int| 0 <= k < texts.len() ==> nul_free(#[trigger] texts[k]),
    ensures
        attr_strings(
            heaps,
            read_attribute(name, AttrModel::StrArray { values: encoded_texts(texts), width }),
        ) == Ok::<Seq<Seq<char>>, ErrorKind>(texts),
{
    let values = encoded_texts(texts);
    let data = strings_image(values, width);
    lemma_strings_len(values, width);
    let n = texts.len() as int;
    let w = width as int;
    vstd::arithmetic::div_mod::lemma_mod_multiples_basic(n, w);
    vstd::arithmetic::div_mod::lemma_div_multiples_vanish(n, w);
    assert(w * n == n * w) by (nonlinear_arith);
    assert(held(data, 0, data)) by {
        assert(data.subrange(0, data.len() as int) =~= data);
    }
    let f = |i: int| text_in(element(data, i, width));
    assert forall|i: int| 0 <= i < n implies #[trigger] f(i) == Ok::<Seq<char>, ErrorKind>(
        texts[i],
    ) by {
        lemma_string_at(data, 0, texts, width, i);
    }
    lemma_try_each_is(texts.len(), f, texts);
    assert(texts.take(n) =~= texts);
}

} // verus!
