//! Fixed-point notation with one fractional digit, for binary64 numbers.

use vstd::prelude::*;
use vstd::arithmetic::power2::{pow2, lemma2_to64, lemma_pow2_adds, lemma_pow2_pos};
use vstd::string::StringExecFns;
use crate::binary64::{
    is_finite, is_infinite, is_nan, is_negative, scaled, shift, significand, lemma_field_bounds,
    HIDDEN_BIT, INFINITY, SIGN_BIT,
};
use crate::decimal::{decimal, decimal_string, digit_char, digit_str};
use crate::rounding::{round_half_even, round_shift, lemma_round_exact, lemma_round_scaling};

verus! {

/// Ten times the magnitude, rounded to the nearest integer, ties to even:
/// the magnitude in tenths.
pub open spec fn tenths(bits: u64) -> nat
    recommends
        is_finite(bits),
{
    round_half_even(scaled(bits) * 10, pow2(1074))
}

/// `"-"` where the sign bit is set, else nothing. A negative zero, and a
/// negative number that rounds to zero, keep their sign.
pub open spec fn sign_text(bits: u64) -> Seq<char> {
    if is_negative(bits) {
        seq!['-']
    } else {
        seq![]
    }
}

/// The number with exactly one digit after the decimal point, rounded to
/// nearest, ties to even: sign, the whole part in decimal, a point, one
/// digit. A NaN reads `NaN`, an infinity `inf` or `-inf`.
pub open spec fn one_decimal(bits: u64) -> Seq<char> {
    if is_nan(bits) {
        seq!['N', 'a', 'N']
    } else if is_infinite(bits) {
        sign_text(bits) + seq!['i', 'n', 'f']
    } else {
        sign_text(bits) + decimal(tenths(bits) / 10) + seq!['.', digit_char(tenths(bits) % 10)]
    }
}

/// One of the ten digit characters.
pub open spec fn is_decimal_digit(c: char) -> bool {
    c == '0' || c == '1' || c == '2' || c == '3' || c == '4' || c == '5' || c == '6' || c == '7'
        || c == '8' || c == '9'
}

/// An optional `-`, then `whole`, a point and `tenth`.
pub open spec fn signed_fixed(negative: bool, whole: Seq<char>, tenth: char) -> Seq<char> {
    (if negative {
        seq!['-']
    } else {
        seq![]
    }) + whole + seq!['.', tenth]
}

/// A signed decimal with exactly one fractional digit: an optional `-`, one
/// or more digits, a point, one digit.
pub open spec fn is_fixed_text(text: Seq<char>) -> bool {
    exists|negative: bool, whole: Seq<char>, tenth: char|
        {
            &&& text == #[trigger] signed_fixed(negative, whole, tenth)
            &&& whole.len() >= 1
            &&& forall|i: int| 0 <= i < whole.len() ==> is_decimal_digit(whole[i])
            &&& is_decimal_digit(tenth)
        }
}

/// A decimal numeral has at least one character, and only digits.
pub proof fn lemma_decimal_is_digits(n: nat)
    ensures
        decimal(n).len() >= 1,
        forall|i: int| 0 <= i < decimal(n).len() ==> is_decimal_digit(decimal(n)[i]),
    decreases n,
{
    if n >= 10 {
        lemma_decimal_is_digits(n / 10);
    }
}

/// A finite number is written as a signed decimal with one fractional
/// digit.
pub proof fn lemma_one_decimal_is_fixed(bits: u64)
    requires
        is_finite(bits),
    ensures
        is_fixed_text(one_decimal(bits)),
{
    let whole = decimal(tenths(bits) / 10);
    let tenth = digit_char(tenths(bits) % 10);
    lemma_decimal_is_digits(tenths(bits) / 10);
    assert(one_decimal(bits) =~= signed_fixed(is_negative(bits), whole, tenth));
}

/// The tenths of an integer are ten times the integer; the tenths of any
/// other finite number come from rounding ten times its significand.
pub proof fn lemma_tenths(bits: u64)
    ensures
        shift(bits) >= 1074 ==> tenths(bits) == 10 * (significand(bits) * pow2(
            (shift(bits) - 1074) as nat,
        )),
        shift(bits) < 1074 ==> tenths(bits) == round_half_even(
            10 * significand(bits),
            pow2((1074 - shift(bits)) as nat),
        ),
{
    let m = significand(bits);
    let unit = pow2(1074);
    lemma_pow2_pos(1074);
    if shift(bits) >= 1074 {
        let above = pow2((shift(bits) - 1074) as nat);
        lemma_pow2_adds((shift(bits) - 1074) as nat, 1074);
        assert(m * (above * unit) * 10 == (10 * (m * above)) * unit) by (nonlinear_arith);
        lemma_round_exact(10 * (m * above), unit);
    } else {
        let below = pow2((1074 - shift(bits)) as nat);
        let up = pow2(shift(bits));
        lemma_pow2_pos(shift(bits));
        lemma_pow2_pos((1074 - shift(bits)) as nat);
        lemma_pow2_adds((1074 - shift(bits)) as nat, shift(bits));
        assert(m * up * 10 == (10 * m) * up) by (nonlinear_arith);
        lemma_round_scaling(10 * m, below, up);
    }
}

/// The number in fixed-point notation with one fractional digit.
pub fn format_one_decimal(bits: u64) -> (text: String)
    ensures
        text@ == one_decimal(bits),
{
    proof {
        reveal_strlit("NaN");
        reveal_strlit("inf");
        reveal_strlit("-");
        reveal_strlit(".");
        reveal_strlit(".0");
        lemma_field_bounds(bits);
        lemma_tenths(bits);
    }
    let negative: bool = bits >= SIGN_BIT;
    let mag: u64 = if negative { bits - SIGN_BIT } else { bits };
    if mag > INFINITY {
        let text = String::from_str("NaN");
        assert(text@ =~= one_decimal(bits));
        return text;
    }
    let mut text = String::new();
    if negative {
        text.append("-");
    }
    assert(text@ =~= sign_text(bits));
    if mag == INFINITY {
        text.append("inf");
        assert(text@ =~= one_decimal(bits));
        return text;
    }
    let e: u64 = mag / HIDDEN_BIT;
    let f: u64 = mag % HIDDEN_BIT;
    let m: u64 = if e == 0 { f } else { HIDDEN_BIT + f };
    let up: u32 = if e == 0 { 0 } else { (e - 1) as u32 };
    if up >= 1074 {
        let whole = decimal_string(m, up - 1074);
        text.append(whole.as_str());
        text.append(".0");
        assert(text@ =~= one_decimal(bits));
    } else {
        let t: u64 = round_shift(10 * m, 1074 - up);
        let whole = decimal_string(t / 10, 0);
        proof {
            lemma2_to64();
            assert((t / 10) as nat * 1 == (t / 10) as nat);
        }
        text.append(whole.as_str());
        text.append(".");
        text.append(digit_str((t % 10) as u8));
        assert(text@ =~= one_decimal(bits));
    }
    text
}

} // verus!
