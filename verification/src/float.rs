//! Floating-point elements as bit patterns.
//!
//! The library carries IEEE 754 numbers by their bits and does no arithmetic on
//! them. Half precision is widened to single precision on the way in.

use vstd::prelude::*;
use vstd::arithmetic::power2::{
    lemma2_to64, lemma_pow2_adds, lemma_pow2_strictly_increases, pow2,
};

verus! {

/// A floating-point number by its bits.
#[derive(Debug, Clone, Copy, PartialEq, Eq, Structural)]
pub enum Float {
    /// IEEE 754 binary32.
    Single(u32),
    /// IEEE 754 binary64.
    Double(u64),
}

/// How often `m` must be doubled to reach bit 10.
pub open spec fn doublings(m: nat) -> nat
    decreases 2048 - m,
{
    if m == 0 || m >= 1024 {
        0
    } else {
        1 + doublings(2 * m)
    }
}

/// The binary32 number of the same value as the binary16 number `bits`.
///
/// Sign, exponent and significand take 1, 5 and 10 bits of the one, 1, 8 and 23
/// bits of the other; the exponent biases are 15 and 127. What is subnormal in
/// half precision is normal in single precision.
pub open spec fn half_to_single(bits: u16) -> nat {
    let sign = (bits as nat / 0x8000) * 0x8000_0000;
    let exponent = bits as nat / 0x400 % 0x20;
    let significand = bits as nat % 0x400;
    if exponent == 0 && significand == 0 {
        sign
    } else if exponent == 0 {
        let k = doublings(significand);
        sign + ((113 - k) * 0x80_0000) as nat + ((significand * pow2(k) - 0x400) * 0x2000) as nat
    } else if exponent == 31 {
        sign + 255 * 0x80_0000 + significand * 0x2000
    } else {
        sign + (exponent + 112) * 0x80_0000 + significand * 0x2000
    }
}

/// Widen a half-precision number.
pub fn f16_to_f32(bits: u16) -> (r: u32)
    ensures
        r == half_to_single(bits),
{
    let sign: u32 = (bits as u32 / 0x8000) * 0x8000_0000;
    let exponent: u32 = bits as u32 / 0x400 % 0x20;
    let significand: u32 = bits as u32 % 0x400;
    if exponent == 0 {
        if significand == 0 {
            return sign;
        }
        let mut m: u32 = significand;
        let mut e: u32 = 113;
        proof {
            lemma2_to64();
            assert(significand * pow2(0) == significand);
        }
        while m < 0x400
            invariant
                0 < m < 0x800,
                103 <= e <= 113,
                0 < significand < 0x400,
                m == significand * pow2((113 - e) as nat),
                m >= pow2((113 - e) as nat),
                doublings(significand as nat) == 113 - e + doublings(m as nat),
            decreases 0x800 - m,
        {
            proof {
                lemma_pow2_adds((113 - e) as nat, 1);
                lemma2_to64();
                assert(significand * pow2((113 - e) as nat) * 2 == significand * (pow2(
                    (113 - e) as nat,
                ) * 2)) by (nonlinear_arith);
                assert(e > 103);
            }
            m = m * 2;
            e = e - 1;
        }
        sign + e * 0x80_0000 + (m - 0x400) * 0x2000
    } else if exponent == 31 {
        sign + 255 * 0x80_0000 + significand * 0x2000
    } else {
        sign + (exponent + 112) * 0x80_0000 + significand * 0x2000
    }
}

/// The magnitude of a finite binary16 number, in units of its smallest one.
pub open spec fn half_magnitude(bits: u16) -> nat {
    let exponent = bits as nat / 0x400 % 0x20;
    let significand = bits as nat % 0x400;
    if exponent == 0 {
        significand
    } else {
        (0x400 + significand) * pow2((exponent - 1) as nat)
    }
}

/// The magnitude of a finite binary32 number, in units of its smallest one.
pub open spec fn single_magnitude(bits: nat) -> nat {
    let exponent = bits / 0x80_0000 % 0x100;
    let significand = bits % 0x80_0000;
    if exponent == 0 {
        significand
    } else {
        (0x80_0000 + significand) * pow2((exponent - 1) as nat)
    }
}

proof fn lemma_doublings(m: nat)
    requires
        0 < m < 0x800,
    ensures
        0x400 <= m * pow2(doublings(m)) < 0x800,
    decreases 0x800 - m,
{
    lemma2_to64();
    if m < 0x400 {
        lemma_doublings(2 * m);
        let k = doublings(2 * m);
        lemma_pow2_adds(1, k);
        assert(m * (2 * pow2(k)) == (2 * m) * pow2(k)) by (nonlinear_arith);
    } else {
        assert(m * 1 == m);
    }
}

proof fn lemma_few_doublings(m: nat)
    requires
        0 < m < 0x400,
    ensures
        doublings(m) <= 10,
{
    let k = doublings(m);
    lemma_doublings(m);
    lemma2_to64();
    if k > 10 {
        lemma_pow2_strictly_increases(10, k);
        assert(pow2(k) >= 0x800) by {
            if k > 11 {
                lemma_pow2_strictly_increases(11, k);
            }
        }
        assert(m * pow2(k) >= 0x800) by (nonlinear_arith)
            requires
                m >= 1,
                pow2(k) >= 0x800,
        ;
    }
}

/// A binary32 number by its parts.
proof fn lemma_single_parts(sign: nat, exponent: nat, significand: nat)
    requires
        sign <= 1,
        exponent < 0x100,
        significand < 0x80_0000,
    ensures
        ({
            let bits = sign * 0x8000_0000 + exponent * 0x80_0000 + significand;
            &&& bits / 0x80_0000 % 0x100 == exponent
            &&& bits % 0x80_0000 == significand
            &&& bits / 0x8000_0000 == sign
        }),
{
}

/// Widening keeps the sign and the value: the magnitude of a finite number is the same,
/// counted in units that are smaller by 125 powers of two.
pub proof fn law_widening_keeps_value(bits: u16)
    requires
        bits / 0x400 % 0x20 != 31,
    ensures
        half_to_single(bits) / 0x8000_0000 == bits as nat / 0x8000,
        single_magnitude(half_to_single(bits)) == half_magnitude(bits) * pow2(125),
{
    let sign = bits as nat / 0x8000;
    let exponent = bits as nat / 0x400 % 0x20;
    let s = bits as nat % 0x400;
    lemma2_to64();
    if exponent == 0 && s == 0 {
        lemma_single_parts(sign, 0, 0);
        assert(0 * pow2(125) == 0) by (nonlinear_arith);
    } else if exponent == 0 {
        let k = doublings(s);
        lemma_doublings(s);
        lemma_few_doublings(s);
        let n = s * pow2(k);
        lemma_single_parts(sign, (113 - k) as nat, ((n - 0x400) * 0x2000) as nat);
        let e = (112 - k) as nat;
        assert(0x80_0000 + (n - 0x400) * 0x2000 == n * 0x2000);
        lemma_pow2_adds(k, 13);
        lemma_pow2_adds(k + 13, e);
        assert((s * pow2(k)) * 0x2000 * pow2(e) == s * (pow2(k) * 0x2000 * pow2(e)))
            by (nonlinear_arith);
        assert((k + 13 + e) as nat == 125);
    } else {
        lemma_single_parts(sign, exponent + 112, s * 0x2000);
        let e = exponent + 111;
        let h = (exponent - 1) as nat;
        assert(0x80_0000 + s * 0x2000 == (0x400 + s) * 0x2000);
        lemma_pow2_adds(13, e);
        lemma_pow2_adds(h, 125);
        assert((0x400 + s) * 0x2000 * pow2(e) == (0x400 + s) * (0x2000 * pow2(e)))
            by (nonlinear_arith);
        assert((0x400 + s) * pow2(h) * pow2(125) == (0x400 + s) * (pow2(h) * pow2(125)))
            by (nonlinear_arith);
        assert((13 + e) as nat == (h + 125) as nat);
    }
}

/// A widened number has 32 bits.
pub proof fn lemma_single_bound(bits: u16)
    ensures
        half_to_single(bits) <= u32::MAX,
{
    let exponent = bits as nat / 0x400 % 0x20;
    let s = bits as nat % 0x400;
    if exponent == 0 && s > 0 {
        lemma_doublings(s);
        lemma_few_doublings(s);
    }
}

} // verus!
