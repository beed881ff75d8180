//! Extents of multi-dimensional data and the row-major order of its elements.

use vstd::prelude::*;

verus! {

/// The product of all extents; 1 where there are none.
pub open spec fn product(dims: Seq<int>) -> int
    decreases dims.len(),
{
    if dims.len() == 0 {
        1
    } else {
        product(dims.drop_last()) * dims.last()
    }
}

/// Machine extents as integers.
pub open spec fn ints(dims: Seq<usize>) -> Seq<int> {
    Seq::new(dims.len(), |i: int| dims[i] as int)
}

/// 64-bit extents as integers.
pub open spec fn ints64(dims: Seq<u64>) -> Seq<int> {
    Seq::new(dims.len(), |i: int| dims[i] as int)
}

/// Whether multiplying the extents one by one, from the first on, stays within
/// a `usize`.
pub open spec fn product_fits(dims: Seq<int>) -> bool {
    forall|k: int| 0 <= k <= dims.len() ==> #[trigger] product(dims.take(k)) <= usize::MAX
}

pub open spec fn non_negative(dims: Seq<int>) -> bool {
    forall|i: int| 0 <= i < dims.len() ==> 0 <= #[trigger] dims[i]
}

pub proof fn lemma_product_non_negative(dims: Seq<int>)
    requires
        non_negative(dims),
    ensures
        product(dims) >= 0,
    decreases dims.len(),
{
    if dims.len() > 0 {
        lemma_product_non_negative(dims.drop_last());
        assert(product(dims) >= 0) by (nonlinear_arith)
            requires
                product(dims) == product(dims.drop_last()) * dims.last(),
                product(dims.drop_last()) >= 0,
                dims.last() >= 0,
        ;
    }
}

pub proof fn lemma_product_positive(dims: Seq<int>)
    requires
        forall|i: int| 0 <= i < dims.len() ==> 0 < #[trigger] dims[i],
    ensures
        product(dims) > 0,
    decreases dims.len(),
{
    if dims.len() > 0 {
        lemma_product_positive(dims.drop_last());
        assert(product(dims) > 0) by (nonlinear_arith)
            requires
                product(dims) == product(dims.drop_last()) * dims.last(),
                product(dims.drop_last()) > 0,
                dims.last() > 0,
        ;
    }
}

/// One zero extent makes the product zero.
pub proof fn lemma_product_zero(dims: Seq<int>, at: int)
    requires
        0 <= at < dims.len(),
        dims[at] == 0,
    ensures
        product(dims) == 0,
    decreases dims.len(),
{
    if at < dims.len() - 1 {
        lemma_product_zero(dims.drop_last(), at);
    }
}

/// Without zero extents, no prefix exceeds the whole product.
pub proof fn lemma_product_prefix(dims: Seq<int>, k: int)
    requires
        forall|i: int| 0 <= i < dims.len() ==> 0 < #[trigger] dims[i],
        0 <= k <= dims.len(),
    ensures
        0 < product(dims.take(k)) <= product(dims),
    decreases dims.len() - k,
{
    lemma_product_positive(dims.take(k));
    if k < dims.len() {
        lemma_product_prefix(dims, k + 1);
        assert(dims.take(k + 1).drop_last() =~= dims.take(k));
        assert(product(dims.take(k)) <= product(dims.take(k + 1))) by (nonlinear_arith)
            requires
                product(dims.take(k + 1)) == product(dims.take(k)) * dims[k],
                product(dims.take(k)) > 0,
                dims[k] > 0,
        ;
    } else {
        assert(dims.take(k) =~= dims);
    }
}

/// Multiply the extents one by one.
pub fn total(dims: &[usize]) -> (r: usize)
    requires
        product_fits(ints(dims@)),
    ensures
        r == product(ints(dims@)),
{
    let mut acc: usize = 1;
    let ghost all = ints(dims@);
    proof {
        assert(all.take(0) =~= Seq::<int>::empty());
    }
    for i in 0..dims.len()
        invariant
            all == ints(dims@),
            product_fits(all),
            acc == product(all.take(i as int)),
    {
        proof {
            assert(all.take(i + 1).drop_last() =~= all.take(i as int));
            assert(product(all.take(i + 1)) == acc * dims@[i as int]);
            assert(0 <= acc * dims@[i as int]) by (nonlinear_arith);
        }
        acc = acc * dims[i];
    }
    proof {
        assert(all.take(dims@.len() as int) =~= all);
    }
    acc
}

/// The product of the extents where it is a `usize`.
pub fn exact_total(dims: &[usize]) -> (r: Option<usize>)
    ensures
        match r {
            Some(n) => n == product(ints(dims@)),
            None => product(ints(dims@)) > usize::MAX,
        },
{
    let ghost all = ints(dims@);
    for i in 0..dims.len()
        invariant
            all == ints(dims@),
            forall|k: int| 0 <= k < i ==> 0 < #[trigger] all[k],
    {
        if dims[i] == 0 {
            proof {
                lemma_product_zero(all, i as int);
            }
            return Some(0);
        }
    }
    let mut acc: usize = 1;
    proof {
        assert(all.take(0) =~= Seq::<int>::empty());
    }
    for i in 0..dims.len()
        invariant
            all == ints(dims@),
            forall|k: int| 0 <= k < all.len() ==> 0 < #[trigger] all[k],
            acc == product(all.take(i as int)),
    {
        proof {
            assert(all.take(i + 1).drop_last() =~= all.take(i as int));
            lemma_product_prefix(all, i + 1);
        }
        match acc.checked_mul(dims[i]) {
            Some(next) => {
                acc = next;
            },
            None => {
                return None;
            },
        }
    }
    proof {
        assert(all.take(dims@.len() as int) =~= all);
    }
    Some(acc)
}

/// The product of 64-bit extents where it is a `usize`.
pub fn exact_total64(dims: &[u64]) -> (r: Option<usize>)
    ensures
        match r {
            Some(n) => n == product(ints64(dims@)),
            None => product(ints64(dims@)) > usize::MAX,
        },
{
    let ghost all = ints64(dims@);
    for i in 0..dims.len()
        invariant
            all == ints64(dims@),
            forall|k: int| 0 <= k < i ==> 0 < #[trigger] all[k],
    {
        if dims[i] == 0 {
            proof {
                lemma_product_zero(all, i as int);
            }
            return Some(0);
        }
    }
    let mut acc: u64 = 1;
    proof {
        assert(all.take(0) =~= Seq::<int>::empty());
    }
    for i in 0..dims.len()
        invariant
            all == ints64(dims@),
            forall|k: int| 0 <= k < all.len() ==> 0 < #[trigger] all[k],
            acc == product(all.take(i as int)),
    {
        proof {
            assert(all.take(i + 1).drop_last() =~= all.take(i as int));
            lemma_product_prefix(all, i + 1);
        }
        match acc.checked_mul(dims[i]) {
            Some(next) => {
                acc = next;
            },
            None => {
                return None;
            },
        }
    }
    proof {
        assert(all.take(dims@.len() as int) =~= all);
    }
    crate::bytes::to_usize(acc)
}

/// Whether `c` is the position of an element in data of extents `dims`.
pub open spec fn in_box(dims: Seq<int>, c: Seq<int>) -> bool {
    &&& c.len() == dims.len()
    &&& forall|d: int| 0 <= d < dims.len() ==> 0 <= #[trigger] c[d] < dims[d]
}

/// The place of position `c` in row-major order.
pub open spec fn rank(dims: Seq<int>, c: Seq<int>) -> int
    decreases dims.len(),
{
    if dims.len() == 0 {
        0
    } else {
        rank(dims.drop_last(), c.drop_last()) * dims.last() + c.last()
    }
}

/// The position whose place in row-major order is `p`.
pub open spec fn unrank(dims: Seq<int>, p: int) -> Seq<int>
    decreases dims.len(),
{
    if dims.len() == 0 {
        Seq::empty()
    } else {
        unrank(dims.drop_last(), p / dims.last()).push(p % dims.last())
    }
}

/// Every position has a place, and the place leads back to the position.
pub proof fn law_rank_then_unrank(dims: Seq<int>, c: Seq<int>)
    requires
        in_box(dims, c),
    ensures
        0 <= rank(dims, c) < product(dims),
        unrank(dims, rank(dims, c)) == c,
    decreases dims.len(),
{
    if dims.len() > 0 {
        let front = dims.drop_last();
        assert(in_box(front, c.drop_last())) by {
            assert forall|d: int| 0 <= d < front.len() implies 0 <= #[trigger] c.drop_last()[d]
                < front[d] by {
                assert(c[d] == c.drop_last()[d]);
            }
        }
        law_rank_then_unrank(front, c.drop_last());
        let r = rank(front, c.drop_last());
        let last = dims.last();
        assert(0 <= c[dims.len() - 1] < last);
        assert(0 <= r * last + c.last() < product(front) * last) by (nonlinear_arith)
            requires
                0 <= r < product(front),
                0 <= c.last() < last,
        ;
        vstd::arithmetic::div_mod::lemma_fundamental_div_mod_converse(
            r * last + c.last(),
            last,
            r,
            c.last(),
        );
        assert(c.drop_last().push(c.last()) =~= c);
    } else {
        assert(c =~= Seq::empty());
    }
}

/// Every place is that of a position, and the position leads back to the place.
pub proof fn law_unrank_then_rank(dims: Seq<int>, p: int)
    requires
        non_negative(dims),
        0 <= p < product(dims),
    ensures
        in_box(dims, unrank(dims, p)),
        rank(dims, unrank(dims, p)) == p,
    decreases dims.len(),
{
    if dims.len() > 0 {
        let front = dims.drop_last();
        let last = dims.last();
        lemma_product_non_negative(front);
        assert(0 <= dims[dims.len() - 1]);
        assert(last > 0) by (nonlinear_arith)
            requires
                product(front) * last > 0,
                last >= 0,
        ;
        assert forall|i: int| 0 <= i < front.len() implies 0 <= #[trigger] front[i] by {
            assert(front[i] == dims[i]);
        }
        vstd::arithmetic::div_mod::lemma_fundamental_div_mod(p, last);
        vstd::arithmetic::div_mod::lemma_div_pos_is_pos(p, last);
        let q = p / last;
        assert(q < product(front)) by (nonlinear_arith)
            requires
                last > 0,
                last * q + p % last < product(front) * last,
                p % last >= 0,
        ;
        law_unrank_then_rank(front, q);
        let c = unrank(dims, p);
        assert(c.drop_last() =~= unrank(front, q));
        assert(c.last() == p % last);
        assert(q * last == last * q) by (nonlinear_arith);
        assert forall|d: int| 0 <= d < dims.len() implies 0 <= #[trigger] c[d] < dims[d] by {
            if d < dims.len() - 1 {
                assert(unrank(front, q)[d] < front[d]);
            }
        }
    }
}

/// Larger extents have a larger product.
pub proof fn lemma_product_monotone(small: Seq<int>, large: Seq<int>)
    requires
        small.len() == large.len(),
        forall|d: int| 0 <= d < small.len() ==> 0 < #[trigger] small[d] <= large[d],
    ensures
        0 < product(small) <= product(large),
    decreases small.len(),
{
    if small.len() > 0 {
        let n = small.len() - 1;
        assert(0 < small[n] <= large[n]);
        lemma_product_monotone(small.drop_last(), large.drop_last());
        let a = product(small.drop_last());
        let b = product(large.drop_last());
        assert(0 < a * small.last() <= b * large.last()) by (nonlinear_arith)
            requires
                0 < a <= b,
                0 < small.last() <= large.last(),
        ;
    }
}

/// How far apart in row-major order two positions are that differ by one along
/// dimension `d`.
pub open spec fn stride(dims: Seq<int>, d: int) -> int {
    product(dims.skip(d + 1))
}

/// Whether every stride is a `usize`.
pub open spec fn strides_fit(dims: Seq<int>) -> bool {
    forall|d: int| 0 <= d < dims.len() ==> #[trigger] stride(dims, d) <= usize::MAX
}

/// The coordinates before dimension `k`, each weighted by its stride.
pub open spec fn weighted(dims: Seq<int>, c: Seq<int>, k: int) -> int
    decreases k,
{
    if k <= 0 {
        0
    } else {
        weighted(dims, c, k - 1) + c[k - 1] * stride(dims, k - 1)
    }
}

/// Dropping the last extent divides the strides by it.
proof fn lemma_stride_front(dims: Seq<int>, d: int)
    requires
        0 <= d < dims.len() - 1,
    ensures
        stride(dims, d) == stride(dims.drop_last(), d) * dims.last(),
{
    let tail = dims.skip(d + 1);
    assert(tail.drop_last() =~= dims.drop_last().skip(d + 1));
    assert(tail.last() == dims.last());
}

proof fn lemma_weighted_front(dims: Seq<int>, c: Seq<int>, k: int)
    requires
        0 <= k <= dims.len() - 1,
        c.len() == dims.len(),
    ensures
        weighted(dims, c, k) == weighted(dims.drop_last(), c.drop_last(), k) * dims.last(),
    decreases k,
{
    if k > 0 {
        lemma_weighted_front(dims, c, k - 1);
        lemma_stride_front(dims, k - 1);
        let front = dims.drop_last();
        let a = weighted(front, c.drop_last(), k - 1);
        let s = stride(front, k - 1);
        assert(c[k - 1] == c.drop_last()[k - 1]);
        assert(a * dims.last() + c[k - 1] * (s * dims.last()) == (a + c[k - 1] * s) * dims.last())
            by (nonlinear_arith);
    }
}

/// The place of a position is the sum of its coordinates, weighted by the strides.
pub proof fn law_rank_is_weighted_sum(dims: Seq<int>, c: Seq<int>)
    requires
        c.len() == dims.len(),
    ensures
        weighted(dims, c, dims.len() as int) == rank(dims, c),
    decreases dims.len(),
{
    if dims.len() > 0 {
        let n = dims.len() as int;
        law_rank_is_weighted_sum(dims.drop_last(), c.drop_last());
        lemma_weighted_front(dims, c, n - 1);
        assert(dims.skip(n) =~= Seq::<int>::empty());
        assert(stride(dims, n - 1) == 1);
    }
}

/// The largest stride times its extent is the number of elements.
pub proof fn lemma_stride_step(dims: Seq<int>, d: int)
    requires
        0 <= d < dims.len(),
    ensures
        d > 0 ==> stride(dims, d - 1) == dims[d] * stride(dims, d),
        d == 0 ==> product(dims) == dims[0] * stride(dims, 0),
{
    let s = dims.skip(d);
    lemma_product_first(s);
    assert(s.skip(1) =~= dims.skip(d + 1));
    if d == 0 {
        assert(s =~= dims);
    }
}

pub proof fn lemma_stride_non_negative(dims: Seq<int>, d: int)
    requires
        non_negative(dims),
        0 <= d < dims.len(),
    ensures
        stride(dims, d) >= 0,
{
    let tail = dims.skip(d + 1);
    assert forall|i: int| 0 <= i < tail.len() implies 0 <= #[trigger] tail[i] by {
        assert(tail[i] == dims[d + 1 + i]);
    }
    lemma_product_non_negative(tail);
}

/// Without zero extents, no stride exceeds the product.
pub proof fn lemma_stride_at_most_product(dims: Seq<int>, d: int)
    requires
        forall|i: int| 0 <= i < dims.len() ==> 0 < #[trigger] dims[i],
        0 <= d < dims.len(),
    ensures
        0 < stride(dims, d) <= product(dims),
    decreases d,
{
    let tail = dims.skip(d + 1);
    assert forall|i: int| 0 <= i < tail.len() implies 0 < #[trigger] tail[i] by {
        assert(tail[i] == dims[d + 1 + i]);
    }
    lemma_product_positive(tail);
    lemma_stride_step(dims, d);
    let s = stride(dims, d);
    assert(dims[d] * s >= s) by (nonlinear_arith)
        requires
            dims[d] >= 1,
            s >= 0,
    ;
    if d > 0 {
        lemma_stride_at_most_product(dims, d - 1);
    }
}

/// Without zero extents, a product that is a `usize` has strides that are.
pub proof fn lemma_strides_fit(dims: Seq<int>)
    requires
        forall|i: int| 0 <= i < dims.len() ==> 0 < #[trigger] dims[i],
        product(dims) <= usize::MAX,
    ensures
        strides_fit(dims),
{
    assert forall|d: int| 0 <= d < dims.len() implies #[trigger] stride(dims, d) <= usize::MAX by {
        lemma_stride_at_most_product(dims, d);
    }
}

/// A product may also be taken from the front.
pub proof fn lemma_product_first(dims: Seq<int>)
    requires
        dims.len() > 0,
    ensures
        product(dims) == dims[0] * product(dims.skip(1)),
    decreases dims.len(),
{
    if dims.len() == 1 {
        assert(dims.skip(1) =~= Seq::<int>::empty());
        assert(dims.drop_last() =~= Seq::<int>::empty());
        assert(product(dims.skip(1)) == 1 && product(dims.drop_last()) == 1);
        assert(product(dims) == dims[0]);
        assert(dims[0] * 1 == dims[0]);
    } else {
        let front = dims.drop_last();
        lemma_product_first(front);
        assert(dims.skip(1).drop_last() =~= front.skip(1));
        assert(dims.skip(1).last() == dims.last());
        assert(front[0] == dims[0]);
        let p = product(front.skip(1));
        assert(product(front) == dims[0] * p);
        assert(product(dims.skip(1)) == p * dims.last());
        assert((dims[0] * p) * dims.last() == dims[0] * (p * dims.last())) by (nonlinear_arith);
    }
}

/// Each coordinate of a place is its quotient by the stride, within the extent.
pub proof fn lemma_unrank_coord(dims: Seq<int>, p: int, d: int)
    requires
        forall|i: int| 0 <= i < dims.len() ==> 0 < #[trigger] dims[i],
        p >= 0,
        0 <= d < dims.len(),
    ensures
        unrank(dims, p).len() == dims.len(),
        unrank(dims, p)[d] == (p / stride(dims, d)) % dims[d],
        stride(dims, d) > 0,
    decreases dims.len(),
{
    let n = dims.len() as int;
    let front = dims.drop_last();
    let last = dims.last();
    assert(last == dims[n - 1]);
    lemma_unrank_len(dims, p);
    assert(dims.skip(n) =~= Seq::<int>::empty());
    if d == n - 1 {
        assert(stride(dims, d) == 1);
    } else {
        assert forall|i: int| 0 <= i < front.len() implies 0 < #[trigger] front[i] by {
            assert(front[i] == dims[i]);
        }
        vstd::arithmetic::div_mod::lemma_div_pos_is_pos(p, last);
        lemma_unrank_coord(front, p / last, d);
        lemma_stride_front(dims, d);
        let s = stride(front, d);
        vstd::arithmetic::div_mod::lemma_div_denominator(p, last, s);
        assert(last * s == s * last) by (nonlinear_arith);
        assert(s * last > 0) by (nonlinear_arith)
            requires
                s > 0,
                last > 0,
        ;
    }
}

pub proof fn lemma_unrank_len(dims: Seq<int>, p: int)
    ensures
        unrank(dims, p).len() == dims.len(),
    decreases dims.len(),
{
    if dims.len() > 0 {
        lemma_unrank_len(dims.drop_last(), p / dims.last());
    }
}

/// What is left of `p` once the dimensions before `d` are accounted for.
pub open spec fn peeled(strides: Seq<int>, p: int, d: int) -> int
    decreases d,
{
    if d <= 0 {
        p
    } else if strides[d - 1] == 0 {
        peeled(strides, p, d - 1)
    } else {
        peeled(strides, p, d - 1) % strides[d - 1]
    }
}

/// The coordinates that dividing by the strides one after the other gives.
pub open spec fn coords_by(strides: Seq<int>, p: int, ndims: nat) -> Seq<int> {
    Seq::new(
        ndims,
        |d: int|
            if strides[d] == 0 {
                0
            } else {
                peeled(strides, p, d) / strides[d]
            },
    )
}

/// The strides of data of extents `dims`.
pub open spec fn strides_of(dims: Seq<int>) -> Seq<int> {
    Seq::new(dims.len(), |d: int| stride(dims, d))
}

proof fn lemma_peeled(dims: Seq<int>, p: int, d: int)
    requires
        forall|i: int| 0 <= i < dims.len() ==> 0 < #[trigger] dims[i],
        0 <= p < product(dims),
        0 <= d <= dims.len(),
    ensures
        d > 0 ==> peeled(strides_of(dims), p, d) == p % stride(dims, d - 1),
    decreases d,
{
    if d > 0 {
        assert(strides_of(dims)[d - 1] == stride(dims, d - 1));
    }
    if d > 1 {
        lemma_peeled(dims, p, d - 1);
        lemma_stride_step(dims, d - 1);
        lemma_unrank_coord(dims, p, d - 1);
        lemma_unrank_coord(dims, p, d - 2);
        let s = stride(dims, d - 1);
        vstd::arithmetic::div_mod::lemma_mod_mod(p, s, dims[d - 1]);
        assert(s * dims[d - 1] == dims[d - 1] * s) by (nonlinear_arith);
    } else if d == 1 {
        lemma_unrank_coord(dims, p, 0);
        assert(peeled(strides_of(dims), p, 0) == p);
    }
}

/// Dividing by the strides one after the other finds the position of a place.
pub proof fn law_strides_unrank(dims: Seq<int>, p: int)
    requires
        non_negative(dims),
        0 <= p < product(dims),
    ensures
        coords_by(strides_of(dims), p, dims.len()) == unrank(dims, p),
{
    assert forall|i: int| 0 <= i < dims.len() implies 0 < #[trigger] dims[i] by {
        if dims[i] == 0 {
            lemma_product_zero(dims, i);
        }
    }
    let found = coords_by(strides_of(dims), p, dims.len());
    lemma_unrank_len(dims, p);
    assert forall|d: int| 0 <= d < dims.len() implies #[trigger] found[d] == unrank(dims, p)[d] by {
        lemma_unrank_coord(dims, p, d);
        lemma_peeled(dims, p, d);
        lemma_stride_step(dims, d);
        let s = stride(dims, d);
        let m = dims[d];
        if d > 0 {
            vstd::arithmetic::div_mod::lemma_breakdown(p, s, m);
            assert(m * s == s * m) by (nonlinear_arith);
            let q = (p / s) % m;
            vstd::arithmetic::div_mod::lemma_fundamental_div_mod_converse(
                p % (s * m),
                s,
                q,
                p % s,
            );
        } else {
            vstd::arithmetic::div_mod::lemma_fundamental_div_mod(p, s);
            vstd::arithmetic::div_mod::lemma_div_pos_is_pos(p, s);
            let q = p / s;
            assert(q < m) by (nonlinear_arith)
                requires
                    s > 0,
                    s * q + p % s < m * s,
                    p % s >= 0,
            ;
            vstd::arithmetic::div_mod::lemma_small_mod(q as nat, m as nat);
        }
    }
    assert(found =~= unrank(dims, p));
}

/// The strides of data of extents `dims`.
pub fn row_major_strides(dims: &[u64]) -> (r: Vec<usize>)
    requires
        strides_fit(ints64(dims@)),
    ensures
        r@.len() == dims@.len(),
        ints(r@) == strides_of(ints64(dims@)),
{
    let n: usize = dims.len();
    let ghost all = ints64(dims@);
    let mut strides: Vec<usize> = vec![1usize; n];
    if n > 0 {
        let mut d: usize = n - 1;
        proof {
            assert(all.skip(n as int) =~= Seq::<int>::empty());
        }
        while d > 0
            invariant
                d < n,
                n == dims@.len(),
                all == ints64(dims@),
                strides_fit(all),
                strides@.len() == n,
                forall|k: int| d <= k < n ==> #[trigger] strides@[k] == stride(all, k),
            decreases d,
        {
            proof {
                lemma_stride_step(all, d as int);
                assert(stride(all, d - 1) <= usize::MAX);
                assert(strides@[d as int] * dims@[d as int] == stride(all, d - 1))
                    by (nonlinear_arith)
                    requires
                        strides@[d as int] == stride(all, d as int),
                        all[d as int] == dims@[d as int],
                        stride(all, d - 1) == all[d as int] * stride(all, d as int),
                ;
                assert(strides@[d as int] * dims@[d as int] >= 0) by (nonlinear_arith);
            }
            let wide: u64 = strides[d] as u64 * dims[d];
            d -= 1;
            strides.set(d, wide as usize);
        }
    }
    proof {
        assert(ints(strides@) =~= strides_of(all));
    }
    strides
}

/// The coordinates that dividing by the strides one after the other gives.
pub fn flat_to_coords(flat: usize, strides: &[usize], ndims: usize) -> (r: Vec<u64>)
    requires
        ndims <= strides@.len(),
    ensures
        ints64(r@) == coords_by(ints(strides@), flat as int, ndims as nat),
{
    let ghost by = ints(strides@);
    let mut rest: usize = flat;
    let mut coords: Vec<u64> = Vec::new();
    proof {
        assert(ints64(coords@) =~= coords_by(by, flat as int, 0));
    }
    for d in 0..ndims
        invariant
            ndims <= strides@.len(),
            by == ints(strides@),
            rest == peeled(by, flat as int, d as int),
            ints64(coords@) == coords_by(by, flat as int, d as nat),
    {
        let ghost before = ints64(coords@);
        let s: usize = strides[d];
        if s == 0 {
            coords.push(0);
        } else {
            coords.push((rest / s) as u64);
            rest = rest % s;
        }
        proof {
            assert(by[d as int] == s);
            assert(ints64(coords@) =~= before.push(coords@[d as int] as int));
            assert(coords_by(by, flat as int, (d + 1) as nat) =~= coords_by(
                by,
                flat as int,
                d as nat,
            ).push(coords_by(by, flat as int, (d + 1) as nat)[d as int]));
        }
    }
    coords
}

/// The smaller of `cap` and the product of the extents.
pub fn capped_total(dims: &[u64], cap: usize) -> (r: usize)
    ensures
        r == if product(ints64(dims@)) < cap {
            product(ints64(dims@))
        } else {
            cap as int
        },
{
    let ghost all = ints64(dims@);
    for i in 0..dims.len()
        invariant
            all == ints64(dims@),
            forall|k: int| 0 <= k < i ==> 0 < #[trigger] all[k],
    {
        if dims[i] == 0 {
            proof {
                lemma_product_zero(all, i as int);
            }
            return 0;
        }
    }
    let mut acc: u64 = 1;
    proof {
        assert(all.take(0) =~= Seq::<int>::empty());
    }
    for i in 0..dims.len()
        invariant
            all == ints64(dims@),
            forall|k: int| 0 <= k < all.len() ==> 0 < #[trigger] all[k],
            acc == product(all.take(i as int)),
    {
        proof {
            assert(all.take(i + 1).drop_last() =~= all.take(i as int));
            lemma_product_prefix(all, i + 1);
        }
        match acc.checked_mul(dims[i]) {
            Some(next) => {
                acc = next;
            },
            None => {
                return cap;
            },
        }
    }
    proof {
        assert(all.take(dims@.len() as int) =~= all);
    }
    if acc < cap as u64 {
        acc as usize
    } else {
        cap
    }
}

/// Whether position `a` comes before `b` in row-major order: the first coordinate in which
/// they differ is smaller.
pub open spec fn precedes(a: Seq<int>, b: Seq<int>) -> bool {
    exists|d: int|
        0 <= d < a.len() && #[trigger] a[d] < b[d] && forall|i: int|
            0 <= i < d ==> #[trigger] a[i] == b[i]
}

/// The first coordinate in which one position is before another.
pub proof fn lemma_first_difference(a: Seq<int>, b: Seq<int>) -> (d: int)
    requires
        precedes(a, b),
    ensures
        0 <= d < a.len(),
        a[d] < b[d],
        forall|i: int| 0 <= i < d ==> #[trigger] a[i] == b[i],
{
    choose|d: int|
        0 <= d < a.len() && #[trigger] a[d] < b[d] && forall|i: int|
            0 <= i < d ==> #[trigger] a[i] == b[i]
}

proof fn lemma_precedes_ranks_less(dims: Seq<int>, a: Seq<int>, b: Seq<int>, d: int)
    requires
        in_box(dims, a),
        in_box(dims, b),
        0 <= d < dims.len(),
        a[d] < b[d],
        forall|i: int| 0 <= i < d ==> #[trigger] a[i] == b[i],
    ensures
        rank(dims, a) < rank(dims, b),
    decreases dims.len(),
{
    let front = dims.drop_last();
    let n = dims.len() - 1;
    let x = a.drop_last();
    let y = b.drop_last();
    assert(0 <= a[n] < dims[n] && 0 <= b[n] < dims[n]);
    assert forall|i: int| 0 <= i < front.len() implies 0 <= #[trigger] x[i] < front[i] by {
        assert(0 <= a[i] < dims[i]);
    }
    assert forall|i: int| 0 <= i < front.len() implies 0 <= #[trigger] y[i] < front[i] by {
        assert(0 <= b[i] < dims[i]);
    }
    if d == n {
        assert(x =~= y);
    } else {
        assert forall|i: int| 0 <= i < d implies #[trigger] x[i] == y[i] by {
            assert(a[i] == b[i]);
        }
        lemma_precedes_ranks_less(front, x, y, d);
        let p = rank(front, x);
        let q = rank(front, y);
        let w = dims[n];
        assert(p * w + w <= q * w) by (nonlinear_arith)
            requires
                p + 1 <= q,
                w >= 0,
        ;
    }
}

/// Elements lie in row-major order: of two positions the one whose first differing
/// coordinate is smaller has the smaller place.
pub proof fn law_row_major_order(dims: Seq<int>, a: Seq<int>, b: Seq<int>)
    requires
        in_box(dims, a),
        in_box(dims, b),
    ensures
        rank(dims, a) < rank(dims, b) <==> precedes(a, b),
{
    if precedes(a, b) {
        let d = lemma_first_difference(a, b);
        lemma_precedes_ranks_less(dims, a, b, d);
    } else if a != b {
        let d = lemma_some_difference(a, b, 0);
        assert(b[d] < a[d]) by {
            if a[d] < b[d] {
                assert(precedes(a, b));
            }
        }
        lemma_precedes_ranks_less(dims, b, a, d);
    }
}

/// The first coordinate, from `from` on, in which two positions differ.
proof fn lemma_some_difference(a: Seq<int>, b: Seq<int>, from: int) -> (d: int)
    requires
        a.len() == b.len(),
        a != b,
        0 <= from <= a.len(),
        forall|i: int| 0 <= i < from ==> #[trigger] a[i] == b[i],
    ensures
        0 <= d < a.len(),
        a[d] != b[d],
        forall|i: int| 0 <= i < d ==> #[trigger] a[i] == b[i],
    decreases a.len() - from,
{
    if from == a.len() {
        assert(a =~= b);
        from
    } else if a[from] == b[from] {
        lemma_some_difference(a, b, from + 1)
    } else {
        from
    }
}

} // verus!
