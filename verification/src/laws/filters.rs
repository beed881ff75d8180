//! Filters: what undoing them gives.

use vstd::prelude::*;
use crate::bytes::{le_bytes, lemma_le_bytes_len, lemma_le_round_trip, lemma_pow256_values};
use crate::dtype::views;
use crate::error::{outcome, ErrorKind, OxiH5Error};
use crate::filters::{
    apply_pipeline, compress, filter_undone, fletcher32, folded, shuffle_size, skipped, sum_of_sums,
    undone, unshuffled, word_at, word_sum,
};
use crate::object::{FilterModel, FilterPipeline};

verus! {

/// The 16-bit words of data, the first byte of each the more significant one, and a last
/// single byte as if a zero followed it; the first `k` of them, each times how many of the
/// first `k` words start at or behind it.
pub open spec fn weighted_words(data: Seq<u8>, k: nat, n: nat) -> int
    decreases k,
{
    if k == 0 {
        0
    } else {
        weighted_words(data, (k - 1) as nat, n) + (n - k + 1) * (256 * data[2 * k - 2] + if 2 * k
            - 1 < data.len() {
            data[2 * k - 1] as int
        } else {
            0
        })
    }
}

/// The words added up.
pub open spec fn added_words(data: Seq<u8>, k: nat) -> int
    decreases k,
{
    if k == 0 {
        0
    } else {
        added_words(data, (k - 1) as nat) + 256 * data[2 * k - 2] + if 2 * k - 1 < data.len() {
            data[2 * k - 1] as int
        } else {
            0
        }
    }
}

proof fn lemma_added(data: Seq<u8>, k: nat)
    ensures
        word_sum(data, k) == added_words(data, k),
    decreases k,
{
    if k > 0 {
        lemma_added(data, (k - 1) as nat);
        assert(word_at(data, k - 1) == 256 * data[2 * k - 2] + if 2 * k - 1 < data.len() {
            data[2 * k - 1] as int
        } else {
            0
        });
    }
}

proof fn lemma_one_more(data: Seq<u8>, k: nat, n: nat)
    ensures
        weighted_words(data, k, n + 1) == weighted_words(data, k, n) + added_words(data, k),
    decreases k,
{
    if k > 0 {
        lemma_one_more(data, (k - 1) as nat, n);
        let w = 256 * data[2 * k - 2] + if 2 * k - 1 < data.len() {
            data[2 * k - 1] as int
        } else {
            0
        };
        assert((n + 1 - k + 1) * w == (n - k + 1) * w + w) by (nonlinear_arith);
    }
}

proof fn lemma_weighted(data: Seq<u8>, k: nat)
    ensures
        sum_of_sums(data, k) == weighted_words(data, k, k),
    decreases k,
{
    if k > 0 {
        let j = (k - 1) as nat;
        lemma_weighted(data, j);
        lemma_one_more(data, j, j);
        lemma_added(data, k);
        lemma_added(data, j);
        let w = 256 * data[2 * k - 2] + if 2 * k - 1 < data.len() {
            data[2 * k - 1] as int
        } else {
            0
        };
        assert((k - k + 1) * w == w) by (nonlinear_arith);
    }
}

/// A sum that was brought below 65536 by taking off 65535 again and again.
proof fn lemma_folded(n: nat)
    ensures
        folded(n) <= 65535,
        folded(n) % 65535 == n % 65535,
        n == 0 <==> folded(n) == 0,
{
    if n > 0 {
        vstd::arithmetic::div_mod::lemma_fundamental_div_mod(n - 1, 65535);
        let q = (n - 1) / 65535;
        vstd::arithmetic::div_mod::lemma_mod_multiples_vanish(q, folded(n) as int, 65535);
        assert(n == 65535 * q + folded(n));
    }
}

/// What a checksum is: its lower half is the sum of the words of the data, its upper half
/// the sum of the sums, in which the first word counts as often as there are words and the
/// last once; both up to multiples of 65535, and zero only where the sum is.
pub proof fn law_checksum(data: &[u8], r: u32)
    requires
        call_ensures(fletcher32, (data,), r),
    ensures
        ({
            let n = ((data@.len() + 1) / 2) as nat;
            &&& (r % 65536) as int % 65535 == added_words(data@, n) % 65535
            &&& (r / 65536) as int % 65535 == weighted_words(data@, n, n) % 65535
            &&& added_words(data@, n) == 0 <==> r % 65536 == 0
            &&& weighted_words(data@, n, n) == 0 <==> r / 65536 == 0
        }),
{
    let n = ((data@.len() + 1) / 2) as nat;
    lemma_added(data@, n);
    lemma_weighted(data@, n);
    let a = word_sum(data@, n);
    let b = sum_of_sums(data@, n);
    lemma_folded(a);
    lemma_folded(b);
    let x = folded(a);
    let y = folded(b);
    assert(r == y * 65536 + x);
    assert(r / 65536 == y && r % 65536 == x) by (nonlinear_arith)
        requires
            r == y * 65536 + x,
            x < 65536,
    ;
}

proof fn lemma_one_filter(filters: Seq<FilterModel>, raw: Seq<u8>, es: usize)
    requires
        filters.len() == 1,
    ensures
        undone(filters, 1, raw, 0, es) == filter_undone(filters[0], raw, es),
{
    assert(!skipped(0, 0)) by {
        assert((0u32 >> 0u32) & 1 != 1) by (bit_vector);
    }
    reveal_with_fuel(undone, 2);
}

/// A checksum behind data is taken off where it is that of the data, and anything else
/// there is refused.
pub proof fn law_checksum_is_checked(
    data: &[u8],
    sum: u32,
    stored: &[u8],
    last: u32,
    pipeline: &FilterPipeline,
    es: usize,
    r: Result<Vec<u8>, OxiH5Error>,
)
    requires
        call_ensures(fletcher32, (data,), sum),
        stored@ == data@ + le_bytes(last as nat, 4),
        pipeline.filters@.len() == 1,
        pipeline.filters@[0].id == 3,
        call_ensures(apply_pipeline, (stored, pipeline, 0, es), r),
    ensures
        last == sum ==> outcome(r) == Ok::<Seq<u8>, ErrorKind>(data@),
        last != sum ==> outcome(r) == Err::<Seq<u8>, ErrorKind>(ErrorKind::Corrupted),
{
    let all = views(pipeline.filters@);
    lemma_one_filter(all, stored@, es);
    lemma_pow256_values();
    lemma_le_bytes_len(last as nat, 4);
    let n = data@.len() as int;
    assert(stored@.subrange(n, n + 4) =~= le_bytes(last as nat, 4));
    lemma_le_round_trip(last as nat, 4, stored@, n);
    assert(stored@.take(n) =~= data@);
    assert(all[0].id == 3);
}

/// Bytes that were sorted by their places in their elements are put back: byte `k` of
/// element `e` comes from the `k`-th run of as many bytes as there are elements. Bytes
/// behind the last whole element stay.
pub proof fn law_shuffled_bytes_are_put_back(
    stored: &[u8],
    pipeline: &FilterPipeline,
    es: usize,
    n: nat,
    count: nat,
    e: int,
    k: int,
    r: Result<Vec<u8>, OxiH5Error>,
)
    requires
        pipeline.filters@.len() == 1,
        pipeline.filters@[0].id == 2,
        n == (if pipeline.filters@[0].client_data@.len() > 0 {
            pipeline.filters@[0].client_data@[0] as nat
        } else {
            es as nat
        }),
        n > 1,
        count * n <= stored@.len() < count * n + n,
        0 <= e < count,
        0 <= k < n,
        call_ensures(apply_pipeline, (stored, pipeline, 0, es), r),
    ensures
        r is Ok,
        r->Ok_0@.len() == stored@.len(),
        r->Ok_0@[e * n + k] == stored@[k * count + e],
        forall|b: int|
            count * n <= b < stored@.len() ==> #[trigger] r->Ok_0@[b] == stored@[b],
{
    let all = views(pipeline.filters@);
    lemma_one_filter(all, stored@, es);
    assert(all[0].client_data == pipeline.filters@[0].client_data@);
    assert(shuffle_size(all[0], es) == n);
    let len = stored@.len() as int;
    let m = n as int;
    let c = count as int;
    assert(m * c == c * m) by (nonlinear_arith);
    vstd::arithmetic::div_mod::lemma_fundamental_div_mod_converse(len, m, c, len - c * m);
    assert(stored@.len() / n == count);
    let b = e * n + k;
    assert(0 <= b < count * n) by (nonlinear_arith)
        requires
            b == e * n + k,
            0 <= e,
            e + 1 <= count,
            0 <= k < n,
    ;
    assert(e * m == m * e) by (nonlinear_arith);
    vstd::arithmetic::div_mod::lemma_fundamental_div_mod_converse(b, m, e, k);
    assert(outcome(r)->Ok_0 == unshuffled(stored@, n));
}

/// What was compressed is decompressed.
pub proof fn law_compressed_data_is_decompressed(
    data: &[u8],
    level: u8,
    packed: Result<Vec<u8>, OxiH5Error>,
    stored: &[u8],
    pipeline: &FilterPipeline,
    es: usize,
    r: Result<Vec<u8>, OxiH5Error>,
)
    requires
        call_ensures(compress, (data, level), packed),
        packed is Ok,
        stored@ == packed->Ok_0@,
        pipeline.filters@.len() == 1,
        pipeline.filters@[0].id == 1,
        call_ensures(apply_pipeline, (stored, pipeline, 0, es), r),
    ensures
        outcome(r) == Ok::<Seq<u8>, ErrorKind>(data@),
{
    let all = views(pipeline.filters@);
    lemma_one_filter(all, stored@, es);
    assert(all[0].id == 1);
}

proof fn lemma_never_skipped(i: int)
    ensures
        !skipped(0, i),
{
    if 0 <= i < 32 {
        let s = i as u32;
        assert((0u32 >> s) & 1 != 1) by (bit_vector)
            requires
                s < 32,
        ;
    }
}

proof fn lemma_front(
    filters: Seq<FilterModel>,
    front: Seq<FilterModel>,
    k: nat,
    raw: Seq<u8>,
    es: usize,
)
    requires
        k <= front.len() <= filters.len(),
        front == filters.take(front.len() as int),
    ensures
        undone(filters, k, raw, 0, es) == undone(front, k, raw, 0, es),
    decreases k,
{
    if k > 0 {
        lemma_never_skipped(k - 1);
        assert(front[k - 1] == filters[k - 1]);
        if let Ok(out) = filter_undone(filters[k - 1], raw, es) {
            lemma_front(filters, front, (k - 1) as nat, out, es);
        }
    }
}

/// Filters are undone from the last to the first: what undoing the last one gives goes
/// through the others, and where it cannot be undone, nothing can.
pub proof fn law_filters_are_undone_backward(
    stored: &[u8],
    pipeline: &FilterPipeline,
    last: &FilterPipeline,
    front: &FilterPipeline,
    middle: &[u8],
    es: usize,
    one: Result<Vec<u8>, OxiH5Error>,
    rest: Result<Vec<u8>, OxiH5Error>,
    r: Result<Vec<u8>, OxiH5Error>,
)
    requires
        pipeline.filters@.len() > 0,
        views(last.filters@) == seq![pipeline.filters@.last()@],
        views(front.filters@) == views(pipeline.filters@).drop_last(),
        call_ensures(apply_pipeline, (stored, last, 0, es), one),
        one is Ok ==> middle@ == one->Ok_0@,
        call_ensures(apply_pipeline, (middle, front, 0, es), rest),
        call_ensures(apply_pipeline, (stored, pipeline, 0, es), r),
    ensures
        one is Ok ==> outcome(r) == outcome(rest),
        one is Err ==> outcome(r) == outcome(one),
{
    let all = views(pipeline.filters@);
    let n = all.len();
    let few = all.drop_last();
    assert(views(last.filters@).len() == last.filters@.len());
    assert(views(front.filters@).len() == front.filters@.len());
    lemma_one_filter(seq![all.last()], stored@, es);
    lemma_never_skipped(n - 1);
    assert(few == all.take(few.len() as int));
    if one is Ok {
        lemma_front(all, few, few.len(), middle@, es);
    }
}

/// A filter that was not applied to a chunk is not undone, and an unknown one is refused.
pub proof fn law_skipped_and_unknown_filters(
    stored: &[u8],
    pipeline: &FilterPipeline,
    es: usize,
    without: Result<Vec<u8>, OxiH5Error>,
    with: Result<Vec<u8>, OxiH5Error>,
)
    requires
        pipeline.filters@.len() == 1,
        call_ensures(apply_pipeline, (stored, pipeline, 1, es), without),
        call_ensures(apply_pipeline, (stored, pipeline, 0, es), with),
    ensures
        outcome(without) == Ok::<Seq<u8>, ErrorKind>(stored@),
        !(1 <= pipeline.filters@[0].id <= 3) ==> outcome(with) == Err::<Seq<u8>, ErrorKind>(
            ErrorKind::UnsupportedFilter,
        ),
{
    let all = views(pipeline.filters@);
    lemma_one_filter(all, stored@, es);
    assert(skipped(1, 0)) by {
        assert((1u32 >> 0u32) & 1 == 1) by (bit_vector);
    }
    reveal_with_fuel(undone, 2);
}

} // verus!
