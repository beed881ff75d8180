//! Byte strings as text.

use vstd::prelude::*;
use crate::dtype::views;
use vstd::utf8::{
    char_is_scalar, char_u32_cast, decode_utf8, encode_scalar, encode_utf8, encode_utf8_decode_utf8,
    encode_utf8_valid_utf8, has_width_1_encoding, has_width_2_encoding, has_width_3_encoding,
    has_width_4_encoding, valid_utf8,
};

verus! {

/// The text that `bytes` encode, where they are UTF-8.
pub open spec fn utf8_text(bytes: Seq<u8>) -> Option<Seq<char>> {
    if valid_utf8(bytes) {
        Some(decode_utf8(bytes))
    } else {
        None
    }
}

/// `core::str::from_utf8`.
///
/// Not proved: that it accepts exactly the valid UTF-8 byte strings, and that
/// the string it then gives holds the characters which those bytes encode.
#[verifier::external_body]
fn str_from_utf8(bytes: &[u8]) -> (r: Option<&str>)
    ensures
        r is Some <==> valid_utf8(bytes@),
        r is Some ==> r->0@ == decode_utf8(bytes@),
{
    core::str::from_utf8(bytes).ok()
}

/// View `bytes` as text, if they are UTF-8.
pub fn as_text(bytes: &[u8]) -> (r: Option<&str>)
    ensures
        match utf8_text(bytes@) {
            Some(chars) => r is Some && r->0@ == chars,
            None => r is None,
        },
{
    str_from_utf8(bytes)
}

/// The first position from `from` on that holds a zero byte, or the length of
/// `s` where none does.
pub open spec fn nul_from(s: Seq<u8>, from: int) -> int
    decreases s.len() - from,
{
    if from >= s.len() {
        s.len() as int
    } else if s[from] == 0 {
        from
    } else {
        nul_from(s, from + 1)
    }
}

pub proof fn lemma_nul_from(s: Seq<u8>, from: int)
    requires
        0 <= from <= s.len(),
    ensures
        from <= nul_from(s, from) <= s.len(),
        nul_from(s, from) < s.len() ==> s[nul_from(s, from)] == 0,
        forall|i: int| from <= i < nul_from(s, from) ==> s[i] != 0,
    decreases s.len() - from,
{
    if from < s.len() && s[from] != 0 {
        lemma_nul_from(s, from + 1);
    }
}

/// A position whose byte is zero, with none before it from `from` on, is the
/// one that [`nul_from`] finds.
pub proof fn lemma_nul_from_is(s: Seq<u8>, from: int, at: int)
    requires
        0 <= from <= at <= s.len(),
        at < s.len() ==> s[at] == 0,
        forall|i: int| from <= i < at ==> s[i] != 0,
    ensures
        nul_from(s, from) == at,
    decreases at - from,
{
    if from < at {
        lemma_nul_from_is(s, from + 1, at);
    }
}

/// Find the first zero byte from `from` on.
pub fn find_nul(s: &[u8], from: usize) -> (r: usize)
    requires
        from <= s@.len(),
    ensures
        r == nul_from(s@, from as int),
        from <= r <= s@.len(),
{
    let mut i: usize = from;
    while i < s.len() && s[i] != 0
        invariant
            from <= i <= s@.len(),
            nul_from(s@, i as int) == nul_from(s@, from as int),
        decreases s@.len() - i,
    {
        i += 1;
    }
    i
}

/// The part of `s` before its first zero byte.
pub open spec fn until_nul(s: Seq<u8>) -> Seq<u8> {
    s.subrange(0, nul_from(s, 0))
}

/// Text without NUL characters.
pub open spec fn nul_free(chars: Seq<char>) -> bool {
    forall|i: int| 0 <= i < chars.len() ==> #[trigger] chars[i] != '\0'
}

proof fn lemma_scalar_bytes(v: u32)
    requires
        v != 0,
        has_width_1_encoding(v) || has_width_2_encoding(v) || has_width_3_encoding(v)
            || has_width_4_encoding(v),
    ensures
        forall|i: int| 0 <= i < encode_scalar(v).len() ==> encode_scalar(v)[i] != 0,
{
    assert(v <= 0x7F && v != 0 ==> (v & 0x7F) as u8 != 0) by (bit_vector);
    assert(0xC0u8 | ((v >> 6) & 0x1F) as u8 != 0) by (bit_vector);
    assert(0xE0u8 | ((v >> 12) & 0x0F) as u8 != 0) by (bit_vector);
    assert(0xF0u8 | ((v >> 18) & 0x7) as u8 != 0) by (bit_vector);
    assert(0x80u8 | (v & 0x3F) as u8 != 0) by (bit_vector);
    assert(0x80u8 | ((v >> 6) & 0x3F) as u8 != 0) by (bit_vector);
    assert(0x80u8 | ((v >> 12) & 0x3F) as u8 != 0) by (bit_vector);
}

/// Text without NUL characters is encoded without zero bytes.
pub proof fn lemma_nul_free_bytes(chars: Seq<char>)
    requires
        nul_free(chars),
    ensures
        forall|i: int| 0 <= i < encode_utf8(chars).len() ==> #[trigger] encode_utf8(chars)[i] != 0,
    decreases chars.len(),
{
    if chars.len() > 0 {
        let rest = chars.drop_first();
        assert forall|i: int| 0 <= i < rest.len() implies #[trigger] rest[i] != '\0' by {
            assert(rest[i] == chars[i + 1]);
        }
        lemma_nul_free_bytes(rest);
        char_is_scalar(chars[0]);
        if chars[0] as u32 == 0 {
            char_u32_cast(chars[0], 0);
        }
        lemma_scalar_bytes(chars[0] as u32);
        let head = encode_scalar(chars[0] as u32);
        assert forall|i: int| 0 <= i < encode_utf8(chars).len() implies #[trigger] encode_utf8(
            chars,
        )[i] != 0 by {
            if i >= head.len() {
                assert(encode_utf8(chars)[i] == encode_utf8(rest)[i - head.len()]);
            } else {
                assert(encode_utf8(chars)[i] == head[i]);
            }
        }
    }
}

/// Encoded text is valid, and decoding it gives the text back.
pub proof fn lemma_encoded_text(chars: Seq<char>)
    ensures
        utf8_text(encode_utf8(chars)) == Some(chars),
{
    encode_utf8_valid_utf8(chars);
    encode_utf8_decode_utf8(chars);
}

/// Where bytes hold encoded text and then a zero byte or nothing, the text ends
/// there.
pub proof fn lemma_text_at(bytes: Seq<u8>, from: int, chars: Seq<char>)
    requires
        nul_free(chars),
        0 <= from,
        from + encode_utf8(chars).len() <= bytes.len(),
        bytes.subrange(from, from + encode_utf8(chars).len()) == encode_utf8(chars),
        from + encode_utf8(chars).len() < bytes.len() ==> bytes[from + encode_utf8(chars).len()]
            == 0,
    ensures
        nul_from(bytes, from) == from + encode_utf8(chars).len(),
        utf8_text(bytes.subrange(from, nul_from(bytes, from))) == Some(chars),
{
    let e = encode_utf8(chars);
    lemma_nul_free_bytes(chars);
    assert forall|i: int| from <= i < from + e.len() implies bytes[i] != 0 by {
        assert(bytes.subrange(from, from + e.len())[i - from] == e[i - from]);
    }
    lemma_nul_from_is(bytes, from, from + e.len());
    lemma_encoded_text(chars);
}

/// Whether two strings are equal.
pub fn same_text(a: &str, b: &str) -> (r: bool)
    ensures
        r == (a@ == b@),
{
    let x = a.as_bytes();
    let y = b.as_bytes();
    proof {
        encode_utf8_decode_utf8(a@);
        encode_utf8_decode_utf8(b@);
    }
    if x.len() != y.len() {
        return false;
    }
    for i in 0..x.len()
        invariant
            x@ == encode_utf8(a@),
            y@ == encode_utf8(b@),
            x@.len() == y@.len(),
            forall|k: int| 0 <= k < i ==> #[trigger] x@[k] == y@[k],
    {
        if x[i] != y[i] {
            return false;
        }
    }
    proof {
        assert(x@ =~= y@);
    }
    true
}

/// Whether a list holds a text.
pub fn holds_text(texts: &[String], text: &str) -> (r: bool)
    ensures
        r == views(texts@).contains(text@),
{
    for i in 0..texts.len()
        invariant
            forall|k: int| 0 <= k < i ==> (#[trigger] texts@[k])@ != text@,
    {
        if same_text(texts[i].as_str(), text) {
            assert(views(texts@)[i as int] == text@);
            return true;
        }
    }
    proof {
        assert forall|k: int| 0 <= k < texts@.len() implies #[trigger] views(texts@)[k]
            != text@ by {
            assert(texts@[k]@ != text@);
        }
    }
    false
}

} // verus!
