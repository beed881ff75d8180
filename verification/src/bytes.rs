//! Fixed-width integers in byte strings.

use vstd::prelude::*;

verus! {

/// The unsigned integer that the `n` bytes of `s` from `pos` on spell, least
/// significant byte first.
pub open spec fn le_at(s: Seq<u8>, pos: int, n: nat) -> nat
    decreases n,
{
    if n == 0 {
        0
    } else {
        s[pos] as nat + 256 * le_at(s, pos + 1, (n - 1) as nat)
    }
}

/// The unsigned integer that the `n` bytes of `s` from `pos` on spell, most
/// significant byte first.
pub open spec fn be_at(s: Seq<u8>, pos: int, n: nat) -> nat
    decreases n,
{
    if n == 0 {
        0
    } else {
        256 * be_at(s, pos, (n - 1) as nat) + s[pos + n - 1] as nat
    }
}

/// The `n` low-order bytes of `v`, least significant first.
pub open spec fn le_bytes(v: nat, n: nat) -> Seq<u8>
    decreases n,
{
    if n == 0 {
        Seq::empty()
    } else {
        seq![(v % 256) as u8] + le_bytes(v / 256, (n - 1) as nat)
    }
}

/// `256^n`.
pub open spec fn pow256(n: nat) -> nat
    decreases n,
{
    if n == 0 {
        1
    } else {
        256 * pow256((n - 1) as nat)
    }
}

/// The signed integer of `n` bytes whose two's complement is `v`.
pub open spec fn twos_complement(v: nat, n: nat) -> int {
    if 2 * v < pow256(n) {
        v as int
    } else {
        v - pow256(n)
    }
}

pub proof fn lemma_le_at_bound(s: Seq<u8>, pos: int, n: nat)
    ensures
        le_at(s, pos, n) < pow256(n),
    decreases n,
{
    if n > 0 {
        lemma_le_at_bound(s, pos + 1, (n - 1) as nat);
    }
}

pub proof fn lemma_be_at_bound(s: Seq<u8>, pos: int, n: nat)
    ensures
        be_at(s, pos, n) < pow256(n),
    decreases n,
{
    if n > 0 {
        lemma_be_at_bound(s, pos, (n - 1) as nat);
    }
}

pub proof fn lemma_pow256_values()
    ensures
        pow256(0) == 1,
        pow256(1) == 0x100,
        pow256(2) == 0x1_0000,
        pow256(4) == 0x1_0000_0000,
        pow256(8) == 0x1_0000_0000_0000_0000,
{
    reveal_with_fuel(pow256, 9);
}

/// A spelled integer depends on its own bytes alone.
pub proof fn lemma_le_at_same(s: Seq<u8>, p: int, t: Seq<u8>, q: int, n: nat)
    requires
        forall|i: int| 0 <= i < n ==> s[p + i] == #[trigger] t[q + i],
    ensures
        le_at(s, p, n) == le_at(t, q, n),
    decreases n,
{
    if n > 0 {
        assert(s[p + 0] == t[q + 0]);
        assert forall|i: int| 0 <= i < n - 1 implies s[p + 1 + i] == #[trigger] t[q + 1 + i] by {
            assert(s[p + (1 + i)] == t[q + (1 + i)]);
        }
        lemma_le_at_same(s, p + 1, t, q + 1, (n - 1) as nat);
    }
}

pub proof fn lemma_le_bytes_len(v: nat, n: nat)
    ensures
        le_bytes(v, n).len() == n,
    decreases n,
{
    if n > 0 {
        lemma_le_bytes_len(v / 256, (n - 1) as nat);
    }
}

/// Reading back the low-order bytes of an integer that fits gives the integer.
pub proof fn lemma_le_round_trip(v: nat, n: nat, s: Seq<u8>, pos: int)
    requires
        v < pow256(n),
        0 <= pos,
        pos + n <= s.len(),
        s.subrange(pos, pos + n) == le_bytes(v, n),
    ensures
        le_at(s, pos, n) == v,
    decreases n,
{
    if n > 0 {
        let rest = le_bytes(v / 256, (n - 1) as nat);
        lemma_le_bytes_len(v / 256, (n - 1) as nat);
        assert(s.subrange(pos, pos + n)[0] == s[pos]);
        assert(s.subrange(pos + 1, pos + n) =~= rest) by {
            assert forall|i: int| 0 <= i < n - 1 implies s.subrange(pos + 1, pos + n)[i]
                == #[trigger] rest[i] by {
                assert(s.subrange(pos, pos + n)[i + 1] == rest[i]);
            }
        }
        lemma_le_round_trip(v / 256, (n - 1) as nat, s, pos + 1);
    }
}

/// The `n` low-order bytes of `v`, most significant first.
pub open spec fn be_bytes(v: nat, n: nat) -> Seq<u8>
    decreases n,
{
    if n == 0 {
        Seq::empty()
    } else {
        be_bytes(v / 256, (n - 1) as nat).push((v % 256) as u8)
    }
}

pub proof fn lemma_be_bytes_len(v: nat, n: nat)
    ensures
        be_bytes(v, n).len() == n,
    decreases n,
{
    if n > 0 {
        lemma_be_bytes_len(v / 256, (n - 1) as nat);
    }
}

/// Reading back the low-order bytes of an integer that fits gives the integer, the most
/// significant byte first as well.
pub proof fn lemma_be_round_trip(v: nat, n: nat, s: Seq<u8>, pos: int)
    requires
        v < pow256(n),
        0 <= pos,
        pos + n <= s.len(),
        s.subrange(pos, pos + n) == be_bytes(v, n),
    ensures
        be_at(s, pos, n) == v,
    decreases n,
{
    if n > 0 {
        let front = be_bytes(v / 256, (n - 1) as nat);
        lemma_be_bytes_len(v / 256, (n - 1) as nat);
        assert(s.subrange(pos, pos + n)[n - 1] == s[pos + n - 1]);
        assert(s.subrange(pos, pos + n - 1) =~= front) by {
            assert forall|i: int| 0 <= i < n - 1 implies s.subrange(pos, pos + n - 1)[i]
                == #[trigger] front[i] by {
                assert(s.subrange(pos, pos + n)[i] == front[i]);
            }
        }
        lemma_be_round_trip(v / 256, (n - 1) as nat, s, pos);
    }
}

/// What bytes spell: byte `i` counts `256^i`, from the front where the least significant
/// comes first, from the back where the most significant does.
pub proof fn law_bytes_are_digits(s: Seq<u8>, pos: int, n: nat, i: nat)
    requires
        i < n,
    ensures
        le_at(s, pos, n) / pow256(i) % 256 == s[pos + i],
        be_at(s, pos, n) / pow256(i) % 256 == s[pos + n - 1 - i],
        le_at(s, pos, n) < pow256(n),
        be_at(s, pos, n) < pow256(n),
    decreases n,
{
    lemma_le_at_bound(s, pos, n);
    lemma_be_at_bound(s, pos, n);
    let low = le_at(s, pos + 1, (n - 1) as nat);
    let high = be_at(s, pos, (n - 1) as nat);
    if i == 0 {
        assert(pow256(0) == 1);
    } else {
        let j = (i - 1) as nat;
        law_bytes_are_digits(s, pos + 1, (n - 1) as nat, j);
        law_bytes_are_digits(s, pos, (n - 1) as nat, j);
        let p = pow256(j);
        lemma_pow256_positive(j);
        assert(pow256(i) == 256 * p);
        let a = s[pos] as nat + 256 * low;
        let b = 256 * high + s[pos + n - 1] as nat;
        vstd::arithmetic::div_mod::lemma_div_denominator(a as int, 256, p as int);
        vstd::arithmetic::div_mod::lemma_div_denominator(b as int, 256, p as int);
        assert(a / 256 == low && b / 256 == high);
    }
}

proof fn lemma_pow256_positive(n: nat)
    ensures
        pow256(n) > 0,
    decreases n,
{
    if n > 0 {
        lemma_pow256_positive((n - 1) as nat);
    }
}

/// A signed integer is the number of its own range that its bits agree with.
pub proof fn law_twos_complement(v: nat, n: nat)
    requires
        v < pow256(n),
        n > 0,
    ensures
        -(pow256(n) as int) <= 2 * twos_complement(v, n) < pow256(n),
        twos_complement(v, n) == v || twos_complement(v, n) == v - pow256(n),
{
}

/// The bits of a signed integer of `n` bytes.
pub open spec fn signed_bits(v: int, n: nat) -> nat {
    if v < 0 {
        (v + pow256(n)) as nat
    } else {
        v as nat
    }
}

/// Whether a signed integer has `n` bytes.
pub open spec fn fits_signed(v: int, n: nat) -> bool {
    -(pow256(n) as int) <= 2 * v < pow256(n)
}

pub proof fn lemma_signed_back(v: int, n: nat)
    requires
        fits_signed(v, n),
    ensures
        signed_bits(v, n) < pow256(n),
        twos_complement(signed_bits(v, n), n) == v,
{
    lemma_pow256_positive(n);
}

/// The little-endian `u16` at `pos`.
pub fn get_u16(s: &[u8], pos: usize) -> (r: u16)
    requires
        pos + 2 <= s@.len(),
    ensures
        r == le_at(s@, pos as int, 2),
{
    proof {
        reveal_with_fuel(le_at, 3);
    }
    s[pos] as u16 + s[pos + 1] as u16 * 0x100
}

/// The little-endian `u32` at `pos`.
pub fn get_u32(s: &[u8], pos: usize) -> (r: u32)
    requires
        pos + 4 <= s@.len(),
    ensures
        r == le_at(s@, pos as int, 4),
{
    proof {
        reveal_with_fuel(le_at, 5);
    }
    s[pos] as u32 + s[pos + 1] as u32 * 0x100 + s[pos + 2] as u32 * 0x1_0000 + s[pos + 3] as u32
        * 0x100_0000
}

/// The little-endian `u64` at `pos`.
pub fn get_u64(s: &[u8], pos: usize) -> (r: u64)
    requires
        pos + 8 <= s@.len(),
    ensures
        r == le_at(s@, pos as int, 8),
{
    proof {
        reveal_with_fuel(le_at, 9);
    }
    s[pos] as u64 + s[pos + 1] as u64 * 0x100 + s[pos + 2] as u64 * 0x1_0000 + s[pos + 3] as u64
        * 0x100_0000 + s[pos + 4] as u64 * 0x1_0000_0000 + s[pos + 5] as u64 * 0x100_0000_0000
        + s[pos + 6] as u64 * 0x1_0000_0000_0000 + s[pos + 7] as u64 * 0x100_0000_0000_0000
}

pub proof fn lemma_pow256_monotone(m: nat, n: nat)
    requires
        m <= n,
    ensures
        0 < pow256(m) <= pow256(n),
    decreases n,
{
    if m < n {
        lemma_pow256_monotone(m, (n - 1) as nat);
    } else if n > 0 {
        lemma_pow256_monotone((m - 1) as nat, (n - 1) as nat);
    }
}

/// The little-endian integer of `n` bytes at `pos`.
pub fn get_le(s: &[u8], pos: usize, n: usize) -> (r: u64)
    requires
        n <= 8,
        pos + n <= s@.len(),
    ensures
        r == le_at(s@, pos as int, n as nat),
{
    let mut acc: u64 = 0;
    let mut i: usize = n;
    assert(s.len() <= usize::MAX);
    while i > 0
        invariant
            i <= n <= 8,
            pos + n <= s@.len() <= usize::MAX,
            acc == le_at(s@, pos + i, (n - i) as nat),
        decreases i,
    {
        proof {
            lemma_le_at_bound(s@, pos + i, (n - i) as nat);
            lemma_pow256_monotone((n - i) as nat, 7);
            reveal_with_fuel(pow256, 8);
        }
        i -= 1;
        acc = acc * 256 + s[pos + i] as u64;
    }
    acc
}

/// The big-endian integer of `n` bytes at `pos`.
pub fn get_be(s: &[u8], pos: usize, n: usize) -> (r: u64)
    requires
        n <= 8,
        pos + n <= s@.len(),
    ensures
        r == be_at(s@, pos as int, n as nat),
{
    let mut acc: u64 = 0;
    assert(s.len() <= usize::MAX);
    for i in 0..n
        invariant
            n <= 8,
            pos + n <= s@.len() <= usize::MAX,
            acc == be_at(s@, pos as int, i as nat),
    {
        proof {
            lemma_be_at_bound(s@, pos as int, i as nat);
            lemma_pow256_monotone(i as nat, 7);
            reveal_with_fuel(pow256, 8);
        }
        acc = acc * 256 + s[pos + i] as u64;
    }
    acc
}

/// The signed integer whose two's complement in `n` bytes is `v`.
pub fn to_signed(v: u64, n: usize) -> (r: i64)
    requires
        n == 1 || n == 2 || n == 4 || n == 8,
        v < pow256(n as nat),
    ensures
        r == twos_complement(v as nat, n as nat),
{
    proof {
        lemma_pow256_values();
    }
    if n == 8 {
        if v < 0x8000_0000_0000_0000 {
            v as i64
        } else {
            -((u64::MAX - v) as i64) - 1
        }
    } else {
        let modulus: i64 = if n == 1 {
            0x100
        } else if n == 2 {
            0x1_0000
        } else {
            0x1_0000_0000
        };
        if 2 * (v as i64) < modulus {
            v as i64
        } else {
            v as i64 - modulus
        }
    }
}

/// Whether the four bytes of `s` from `pos` on are `a`, `b`, `c`, `d`.
pub open spec fn tag_at(s: Seq<u8>, pos: int, a: char, b: char, c: char, d: char) -> bool {
    s[pos] == a as u8 && s[pos + 1] == b as u8 && s[pos + 2] == c as u8 && s[pos + 3] == d as u8
}

/// Test for a four-byte signature.
pub fn has_tag(s: &[u8], pos: usize, a: char, b: char, c: char, d: char) -> (r: bool)
    requires
        pos + 4 <= s@.len(),
    ensures
        r == tag_at(s@, pos as int, a, b, c, d),
{
    s[pos] == a as u8 && s[pos + 1] == b as u8 && s[pos + 2] == c as u8 && s[pos + 3] == d as u8
}

/// A 64-bit file address or length as an index, where it is one.
pub fn to_usize(v: u64) -> (r: Option<usize>)
    ensures
        r is Some <==> v <= usize::MAX,
        r is Some ==> r->0 == v,
{
    if v <= usize::MAX as u64 {
        Some(v as usize)
    } else {
        None
    }
}

/// The bytes of `s` from `from` up to `to`.
pub fn copy_range(s: &[u8], from: usize, to: usize) -> (r: Vec<u8>)
    requires
        from <= to <= s@.len(),
    ensures
        r@ == s@.subrange(from as int, to as int),
{
    vstd::slice::slice_to_vec(vstd::slice::slice_subrange(s, from, to))
}

/// `n` zero bytes.
pub open spec fn zeros(n: nat) -> Seq<u8> {
    Seq::new(n, |i: int| 0u8)
}

/// Append `n` zero bytes.
pub fn push_zeros(out: &mut Vec<u8>, n: usize)
    ensures
        final(out)@ == old(out)@ + zeros(n as nat),
{
    let ghost before = out@;
    for i in 0..n
        invariant
            out@ == before + zeros(i as nat),
    {
        out.push(0);
        proof {
            assert(out@ =~= before + zeros((i + 1) as nat));
        }
    }
    proof {
        assert(n == 0 ==> before + zeros(0) =~= before);
    }
}

/// Append all of `data`.
pub fn push_all(out: &mut Vec<u8>, data: &[u8])
    ensures
        final(out)@ == old(out)@ + data@,
{
    let ghost before = out@;
    out.extend_from_slice(data);
    proof {
        assert(out@ =~= before + data@);
    }
}

/// Append the `n` low-order bytes of `v`, least significant first.
pub fn push_le(out: &mut Vec<u8>, v: u64, n: usize)
    ensures
        final(out)@ == old(out)@ + le_bytes(v as nat, n as nat),
{
    let ghost before = out@;
    let mut rest: u64 = v;
    for i in 0..n
        invariant
            out@ + le_bytes(rest as nat, (n - i) as nat) == before + le_bytes(v as nat, n as nat),
    {
        let ghost left = (n - i) as nat;
        let ghost shown = out@;
        out.push((rest % 256) as u8);
        proof {
            let tail = le_bytes((rest / 256) as nat, (left - 1) as nat);
            assert(out@ + tail =~= shown + (seq![(rest % 256) as u8] + tail));
        }
        rest = rest / 256;
    }
    proof {
        assert(le_bytes(rest as nat, 0) =~= Seq::<u8>::empty());
        assert(out@ + Seq::<u8>::empty() =~= out@);
    }
}

/// `s` with the bytes from `at` on replaced by `new`.
pub open spec fn put(s: Seq<u8>, at: int, new: Seq<u8>) -> Seq<u8> {
    Seq::new(
        s.len(),
        |b: int|
            if at <= b < at + new.len() {
                new[b - at]
            } else {
                s[b]
            },
    )
}

/// Replace the bytes from `at` on by `new`.
pub fn put_bytes(out: &mut Vec<u8>, at: usize, new: &[u8])
    requires
        at + new@.len() <= old(out)@.len(),
    ensures
        final(out)@ == put(old(out)@, at as int, new@),
{
    let ghost before = out@;
    assert(out.len() <= usize::MAX);
    for i in 0..new.len()
        invariant
            at + new@.len() <= out@.len() <= usize::MAX,
            out@ == put(before, at as int, new@.take(i as int)),
    {
        out.set(at + i, new[i]);
        proof {
            assert(out@ =~= put(before, at as int, new@.take(i + 1)));
        }
    }
    proof {
        assert(new@.take(new@.len() as int) =~= new@);
        assert(new@.len() == 0 ==> out@ =~= put(before, at as int, new@));
    }
}

} // verus!
