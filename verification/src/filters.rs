//! Filters: how the stored bytes of a chunk are turned back into its elements.
//!
//! A pipeline lists the filters in the order in which they were applied; they are undone
//! in reverse. Those whose bit is set in the filter mask of a chunk were not applied to it.

use vstd::prelude::*;
use vstd::slice::slice_subrange;
use crate::bytes::{get_u32, le_at};
use crate::dtype::views;
use crate::error::{outcome, text, ErrorKind, OxiH5Error};
use crate::object::{FilterInfo, FilterModel, FilterPipeline};

verus! {

/// The number of the filter that compresses by DEFLATE.
pub const FILTER_DEFLATE: u16 = 1;

/// The number of the filter that sorts the bytes of elements by their places.
pub const FILTER_SHUFFLE: u16 = 2;

/// The number of the filter that adds a checksum.
pub const FILTER_FLETCHER32: u16 = 3;

/// The greatest level of compression.
pub const MAX_DEFLATE_LEVEL: u8 = 9;

/// What `oxiarc_deflate::zlib_decompress` gives for a zlib stream, if it accepts it.
pub uninterp spec fn inflated(data: Seq<u8>) -> Option<Seq<u8>>;

/// What `oxiarc_deflate::zlib_compress` gives for data at a level, if it succeeds.
pub uninterp spec fn deflated(data: Seq<u8>, level: u8) -> Option<Seq<u8>>;

/// `oxiarc_deflate::zlib_decompress`.
///
/// Not proved: that what it gives is a function of the stream.
#[verifier::external_body]
fn zlib_decompress(data: &[u8]) -> (r: Option<Vec<u8>>)
    ensures
        match r {
            Some(out) => inflated(data@) == Some(out@),
            None => inflated(data@) is None,
        },
{
    oxiarc_deflate::zlib_decompress(data).ok()
}

/// `oxiarc_deflate::zlib_compress`.
///
/// Not proved: that what it gives is a function of the data and the level, and that
/// `oxiarc_deflate::zlib_decompress` gives the data back.
#[verifier::external_body]
fn zlib_compress(data: &[u8], level: u8) -> (r: Option<Vec<u8>>)
    requires
        level <= MAX_DEFLATE_LEVEL,
    ensures
        match r {
            Some(out) => deflated(data@, level) == Some(out@) && inflated(out@) == Some(data@),
            None => deflated(data@, level) is None,
        },
{
    oxiarc_deflate::zlib_compress(data, level).ok()
}

/// Compress data; a level that is too great is refused.
pub fn compress(data: &[u8], level: u8) -> (r: Result<Vec<u8>, OxiH5Error>)
    ensures
        outcome(r) == compressed(data@, level),
{
    if level > MAX_DEFLATE_LEVEL {
        return Err(
            OxiH5Error::Format(
                text(&["DEFLATE level ", &level.to_string(), " is greater than 9"]),
            ),
        );
    }
    match zlib_compress(data, level) {
        Some(out) => Ok(out),
        None => Err(OxiH5Error::Format("DEFLATE compression failed".to_string())),
    }
}

/// What compressing data at a level gives: a stream that decompressing turns into the
/// data again.
pub open spec fn compressed(data: Seq<u8>, level: u8) -> Result<Seq<u8>, ErrorKind> {
    if level > MAX_DEFLATE_LEVEL {
        Err(ErrorKind::Format)
    } else {
        match deflated(data, level) {
            Some(out) if inflated(out) == Some(data) => Ok(out),
            _ => Err(ErrorKind::Format),
        }
    }
}

/// The bytes of elements of `n` bytes that were sorted by their places: first the first
/// bytes of all elements, and so on; bytes behind the last whole element stay.
pub open spec fn unshuffled(data: Seq<u8>, n: nat) -> Seq<u8> {
    if n <= 1 {
        data
    } else {
        let count = data.len() / n;
        Seq::new(
            data.len(),
            |b: int|
                if b < count * n {
                    data[(b % n as int) * count + b / n as int]
                } else {
                    data[b]
                },
        )
    }
}

/// The bytes of elements of `n` bytes sorted by their places.
pub open spec fn shuffled(data: Seq<u8>, n: nat) -> Seq<u8> {
    if n <= 1 {
        data
    } else {
        let count = data.len() / n;
        Seq::new(
            data.len(),
            |b: int|
                if b < count * n {
                    data[(b % count as int) * n + b / count as int]
                } else {
                    data[b]
                },
        )
    }
}

proof fn lemma_place(b: int, n: int, count: int)
    requires
        0 <= b < count * n,
        n > 0,
        count > 0,
    ensures
        0 <= b % n < n,
        0 <= b / n < count,
        0 <= (b % n) * count + b / n < count * n,
        ((b % n) * count + b / n) % count == b / n,
        ((b % n) * count + b / n) / count == b % n,
        b == (b / n) * n + b % n,
{
    let q = b / n;
    let r = b % n;
    vstd::arithmetic::div_mod::lemma_fundamental_div_mod(b, n);
    vstd::arithmetic::div_mod::lemma_div_pos_is_pos(b, n);
    assert(n * q == q * n) by (nonlinear_arith);
    assert(q < count) by (nonlinear_arith)
        requires
            q * n + r < count * n,
            0 <= r < n,
    ;
    assert(0 <= r * count + q < count * n) by (nonlinear_arith)
        requires
            0 <= r < n,
            0 <= q < count,
    ;
    vstd::arithmetic::div_mod::lemma_fundamental_div_mod_converse(r * count + q, count, r, q);
}

/// Sorting bytes by their places is undone.
pub proof fn law_shuffle_is_undone(data: Seq<u8>, n: nat)
    ensures
        unshuffled(shuffled(data, n), n) == data,
{
    if n > 1 {
        let count = data.len() / n;
        vstd::arithmetic::div_mod::lemma_fundamental_div_mod(data.len() as int, n as int);
        assert(n * count == count * n) by (nonlinear_arith);
        let mid = shuffled(data, n);
        let back = unshuffled(mid, n);
        assert forall|b: int| 0 <= b < data.len() implies #[trigger] back[b] == data[b] by {
            if b < count * n {
                assert(count > 0) by (nonlinear_arith)
                    requires
                        0 <= b < count * n,
                        n > 0,
                ;
                lemma_place(b, n as int, count as int);
            }
        }
        assert(back =~= data);
    }
}

/// Undo the sorting of bytes by their places.
fn unshuffle(data: &[u8], n: usize) -> (r: Vec<u8>)
    ensures
        r@ == unshuffled(data@, n as nat),
{
    if n <= 1 {
        return vstd::slice::slice_to_vec(data);
    }
    let len: usize = data.len();
    let count: usize = len / n;
    proof {
        vstd::arithmetic::div_mod::lemma_fundamental_div_mod(len as int, n as int);
        assert(n * count == count * n) by (nonlinear_arith);
    }
    let whole: usize = count * n;
    let mut out: Vec<u8> = Vec::new();
    for b in 0..len
        invariant
            len == data@.len(),
            n > 1,
            count == len / n,
            whole == count * n,
            whole <= len,
            out@.len() == b,
            forall|k: int| 0 <= k < b ==> #[trigger] out@[k] == unshuffled(data@, n as nat)[k],
    {
        if b < whole {
            proof {
                assert(count > 0) by (nonlinear_arith)
                    requires
                        0 <= b < count * n,
                        n > 0,
                ;
                lemma_place(b as int, n as int, count as int);
            }
            let row: usize = b % n;
            proof {
                assert(0 <= row * count) by (nonlinear_arith)
                    requires
                        row >= 0,
                        count >= 0,
                ;
            }
            out.push(data[row * count + b / n]);
        } else {
            out.push(data[b]);
        }
    }
    proof {
        assert(out@ =~= unshuffled(data@, n as nat));
    }
    out
}

/// A sum as the checksum holds it: 0 for 0, else its remainder by 65535, with 65535 in
/// place of 0.
pub open spec fn folded(sum: nat) -> nat {
    if sum == 0 {
        0
    } else {
        ((sum - 1) % 65535 + 1) as nat
    }
}

/// Word `i` of data: two bytes, the more significant one first; a last single byte is
/// the more significant one.
pub open spec fn word_at(data: Seq<u8>, i: int) -> nat {
    if 2 * i + 1 < data.len() {
        (data[2 * i] as nat) * 256 + data[2 * i + 1] as nat
    } else {
        (data[2 * i] as nat) * 256
    }
}

/// The sum of the first `k` words.
pub open spec fn word_sum(data: Seq<u8>, k: nat) -> nat
    decreases k,
{
    if k == 0 {
        0
    } else {
        word_sum(data, (k - 1) as nat) + word_at(data, k - 1)
    }
}

/// The sum of the sums of the first words, up to `k` of them.
pub open spec fn sum_of_sums(data: Seq<u8>, k: nat) -> nat
    decreases k,
{
    if k == 0 {
        0
    } else {
        sum_of_sums(data, (k - 1) as nat) + word_sum(data, k)
    }
}

/// The Fletcher-32 checksum of data.
pub open spec fn fletcher32_of(data: Seq<u8>) -> nat {
    let k = ((data.len() + 1) / 2) as nat;
    folded(sum_of_sums(data, k)) * 65536 + folded(word_sum(data, k))
}

proof fn lemma_folded(a: nat, b: nat)
    ensures
        folded(folded(a) + b) == folded(a + b),
        folded(a) <= 65535,
{
    if a > 0 {
        let f = folded(a);
        vstd::arithmetic::div_mod::lemma_fundamental_div_mod(a - 1, 65535);
        let q = (a - 1) / 65535;
        assert((a + b - 1) % 65535 == (f + b - 1) % 65535) by {
            vstd::arithmetic::div_mod::lemma_mod_multiples_vanish(q, f + b - 1, 65535);
            assert(a + b - 1 == 65535 * q + (f + b - 1));
        }
    }
}

fn fold(sum: u32) -> (r: u32)
    requires
        sum <= 131070,
    ensures
        r == folded(sum as nat),
{
    if sum > 65535 {
        sum - 65535
    } else {
        sum
    }
}

/// Compute the Fletcher-32 checksum.
pub fn fletcher32(data: &[u8]) -> (r: u32)
    ensures
        r == fletcher32_of(data@),
{
    let mut first: u32 = 0;
    let mut second: u32 = 0;
    let len: usize = data.len();
    let words: usize = len / 2 + len % 2;
    for i in 0..words
        invariant
            len == data@.len(),
            words == (len + 1) / 2,
            first == folded(word_sum(data@, i as nat)),
            second == folded(sum_of_sums(data@, i as nat)),
            first <= 65535,
            second <= 65535,
    {
        let at: usize = 2 * i;
        let word: u32 = if at + 1 < len {
            data[at] as u32 * 256 + data[at + 1] as u32
        } else {
            data[at] as u32 * 256
        };
        proof {
            let a = word_sum(data@, i as nat);
            let b = sum_of_sums(data@, i as nat);
            lemma_folded(a, word as nat);
            lemma_folded(b, word_sum(data@, (i + 1) as nat));
            lemma_folded(word_sum(data@, (i + 1) as nat), folded(b));
            lemma_folded(a + word as nat, 0);
            lemma_folded(b + word_sum(data@, (i + 1) as nat), 0);
        }
        first = fold(first + word);
        second = fold(second + first);
    }
    second * 65536 + first
}

/// The data before a checksum of four bytes, which must be right.
pub open spec fn checked(data: Seq<u8>) -> Result<Seq<u8>, ErrorKind> {
    if data.len() < 4 {
        Err(ErrorKind::Format)
    } else {
        let front = data.take(data.len() - 4);
        if le_at(data, data.len() - 4, 4) == fletcher32_of(front) {
            Ok(front)
        } else {
            Err(ErrorKind::Corrupted)
        }
    }
}

fn check(data: &[u8]) -> (r: Result<Vec<u8>, OxiH5Error>)
    ensures
        outcome(r) == checked(data@),
{
    if data.len() < 4 {
        return Err(OxiH5Error::Format("checksum is truncated".to_string()));
    }
    let n: usize = data.len() - 4;
    let front = slice_subrange(data, 0, n);
    proof {
        assert(front@ =~= data@.take(n as int));
    }
    if get_u32(data, n) != fletcher32(front) {
        return Err(OxiH5Error::Corrupted("Fletcher-32 checksum mismatch".to_string()));
    }
    Ok(vstd::slice::slice_to_vec(front))
}

/// The size that bytes are sorted by: what the filter says, or the size of an element.
pub open spec fn shuffle_size(filter: FilterModel, elem_size: usize) -> nat {
    if filter.client_data.len() > 0 {
        filter.client_data[0] as nat
    } else {
        elem_size as nat
    }
}

/// What undoing one filter gives.
pub open spec fn filter_undone(filter: FilterModel, data: Seq<u8>, elem_size: usize) -> Result<
    Seq<u8>,
    ErrorKind,
> {
    if filter.id == FILTER_DEFLATE {
        match inflated(data) {
            Some(out) => Ok(out),
            None => Err(ErrorKind::Corrupted),
        }
    } else if filter.id == FILTER_SHUFFLE {
        Ok(unshuffled(data, shuffle_size(filter, elem_size)))
    } else if filter.id == FILTER_FLETCHER32 {
        checked(data)
    } else {
        Err(ErrorKind::UnsupportedFilter)
    }
}

/// Whether the filter at place `i` was not applied.
pub open spec fn skipped(mask: u32, i: int) -> bool {
    0 <= i < 32 && (mask >> (i as u32)) & 1 == 1
}

/// What undoing the first `k` filters of a pipeline gives, the last of them first.
pub open spec fn undone(
    filters: Seq<FilterModel>,
    k: nat,
    data: Seq<u8>,
    mask: u32,
    elem_size: usize,
) -> Result<Seq<u8>, ErrorKind>
    decreases k,
{
    if k == 0 {
        Ok(data)
    } else if skipped(mask, k - 1) {
        undone(filters, (k - 1) as nat, data, mask, elem_size)
    } else {
        match filter_undone(filters[k - 1], data, elem_size) {
            Err(kind) => Err(kind),
            Ok(out) => undone(filters, (k - 1) as nat, out, mask, elem_size),
        }
    }
}

fn undo(filter: &FilterInfo, data: &[u8], elem_size: usize) -> (r: Result<Vec<u8>, OxiH5Error>)
    ensures
        outcome(r) == filter_undone(filter@, data@, elem_size),
{
    if filter.id == FILTER_DEFLATE {
        match zlib_decompress(data) {
            Some(out) => Ok(out),
            None => Err(OxiH5Error::Corrupted("DEFLATE stream cannot be read".to_string())),
        }
    } else if filter.id == FILTER_SHUFFLE {
        let n: usize = if filter.client_data.len() > 0 {
            filter.client_data[0] as usize
        } else {
            elem_size
        };
        Ok(unshuffle(data, n))
    } else if filter.id == FILTER_FLETCHER32 {
        check(data)
    } else {
        Err(OxiH5Error::UnsupportedFilter(text(&["filter ", &filter.id.to_string()])))
    }
}

/// Undo the filters of a pipeline on the stored bytes of a chunk.
pub fn apply_pipeline(raw: &[u8], pipeline: &FilterPipeline, mask: u32, elem_size: usize) -> (r:
    Result<Vec<u8>, OxiH5Error>)
    ensures
        outcome(r) == undone(
            views(pipeline.filters@),
            pipeline.filters@.len(),
            raw@,
            mask,
            elem_size,
        ),
{
    let ghost all = views(pipeline.filters@);
    let mut data: Vec<u8> = vstd::slice::slice_to_vec(raw);
    let mut left: usize = pipeline.filters.len();
    while left > 0
        invariant
            left <= pipeline.filters@.len(),
            all == views(pipeline.filters@),
            undone(all, all.len(), raw@, mask, elem_size) == undone(
                all,
                left as nat,
                data@,
                mask,
                elem_size,
            ),
        decreases left,
    {
        left -= 1;
        assert(all[left as int] == pipeline.filters@[left as int]@);
        let skip: bool = left < 32 && (mask >> (left as u32)) & 1 == 1;
        if !skip {
            data = undo(&pipeline.filters[left], &data, elem_size)?;
        }
    }
    Ok(data)
}

} // verus!
