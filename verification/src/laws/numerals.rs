//! Numbers in digits, and numbers of half precision.

use vstd::prelude::*;
use crate::describe::{decimal, decimal_text, digit_char, hex, hex_char, hex_text};
use crate::float::f16_to_f32;

verus! {

/// The value of a digit: `0` to `9`, and `a` to `f` from ten on.
pub open spec fn digit_value(c: char) -> int {
    if '0' <= c && c <= '9' {
        c as int - '0' as int
    } else {
        c as int - 'a' as int + 10
    }
}

/// Whether a character is a digit to that base.
pub open spec fn is_digit(c: char, base: int) -> bool {
    &&& ('0' <= c && c <= '9') || ('a' <= c && c <= 'f')
    &&& digit_value(c) < base
}

/// The number that digits spell.
pub open spec fn numeral(digits: Seq<char>, base: int) -> int
    decreases digits.len(),
{
    if digits.len() == 0 {
        0
    } else {
        base * numeral(digits.drop_last(), base) + digit_value(digits.last())
    }
}

/// Whether digits are the usual ones of a number: all of them are digits, and the first is
/// no zero, unless it is the only one.
pub open spec fn plain_numeral(digits: Seq<char>, base: int) -> bool {
    &&& digits.len() > 0
    &&& forall|i: int| 0 <= i < digits.len() ==> is_digit(#[trigger] digits[i], base)
    &&& digits.len() > 1 ==> digits[0] != '0'
}

proof fn lemma_digit(d: nat)
    requires
        d < 10,
    ensures
        digit_char(d).len() == 1,
        '0' <= digit_char(d)[0] && digit_char(d)[0] <= '9',
        digit_value(digit_char(d)[0]) == d,
{
    reveal_strlit("0");
    reveal_strlit("1");
    reveal_strlit("2");
    reveal_strlit("3");
    reveal_strlit("4");
    reveal_strlit("5");
    reveal_strlit("6");
    reveal_strlit("7");
    reveal_strlit("8");
    reveal_strlit("9");
}

proof fn lemma_hex_digit(d: nat)
    requires
        d < 16,
    ensures
        hex_char(d).len() == 1,
        is_digit(hex_char(d)[0], 16),
        digit_value(hex_char(d)[0]) == d,
{
    if d < 10 {
        lemma_digit(d);
    } else {
        reveal_strlit("a");
        reveal_strlit("b");
        reveal_strlit("c");
        reveal_strlit("d");
        reveal_strlit("e");
        reveal_strlit("f");
    }
}

proof fn lemma_decimal(n: nat)
    ensures
        numeral(decimal_text(n), 10) == n,
        plain_numeral(decimal_text(n), 10),
        n > 0 ==> decimal_text(n)[0] != '0',
    decreases n,
{
    let s = decimal_text(n);
    if n < 10 {
        lemma_digit(n);
        assert(s.drop_last() =~= Seq::empty());
        assert(numeral(s.drop_last(), 10) == 0);
    } else {
        lemma_digit(n % 10);
        lemma_decimal(n / 10);
        assert(s.drop_last() =~= decimal_text(n / 10));
        assert(s[0] == decimal_text(n / 10)[0]);
    }
}

proof fn lemma_hex(n: nat)
    ensures
        numeral(hex_text(n), 16) == n,
        plain_numeral(hex_text(n), 16),
        n > 0 ==> hex_text(n)[0] != '0',
    decreases n,
{
    let s = hex_text(n);
    if n < 16 {
        lemma_hex_digit(n);
        assert(s.drop_last() =~= Seq::empty());
        assert(numeral(s.drop_last(), 16) == 0);
    } else {
        lemma_hex_digit(n % 16);
        lemma_hex(n / 16);
        assert(s.drop_last() =~= hex_text(n / 16));
        assert(s[0] == hex_text(n / 16)[0]);
    }
}

/// The decimal digits of a number spell it, without leading zeros.
pub proof fn law_decimal_digits(n: u128, r: String)
    requires
        call_ensures(decimal, (n,), r),
    ensures
        plain_numeral(r@, 10),
        numeral(r@, 10) == n,
{
    lemma_decimal(n as nat);
}

/// The hexadecimal digits of a number spell it, without leading zeros.
pub proof fn law_hexadecimal_digits(n: u64, r: String)
    requires
        call_ensures(hex, (n,), r),
    ensures
        plain_numeral(r@, 16),
        numeral(r@, 16) == n,
{
    lemma_hex(n as nat);
}

/// Widening keeps infinities infinite and what is no number no number, with its sign and
/// the bits of its significand.
pub proof fn law_widening_keeps_special_values(bits: u16, r: u32)
    requires
        call_ensures(f16_to_f32, (bits,), r),
        bits / 0x400 % 0x20 == 31,
    ensures
        r / 0x8000_0000 == bits / 0x8000,
        r / 0x80_0000 % 0x100 == 255,
        r % 0x80_0000 == bits % 0x400 * 0x2000,
{
}

} // verus!
