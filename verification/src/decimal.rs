//! Natural numbers in decimal: digit sequences of any length, and their text.

use vstd::prelude::*;
use vstd::arithmetic::power2::{pow2, lemma_pow2_unfold, lemma2_to64};
use vstd::string::StringExecFns;

verus! {

/// The character of a decimal digit.
pub open spec fn digit_char(d: nat) -> char
    recommends
        d < 10,
{
    if d == 0 {
        '0'
    } else if d == 1 {
        '1'
    } else if d == 2 {
        '2'
    } else if d == 3 {
        '3'
    } else if d == 4 {
        '4'
    } else if d == 5 {
        '5'
    } else if d == 6 {
        '6'
    } else if d == 7 {
        '7'
    } else if d == 8 {
        '8'
    } else {
        '9'
    }
}

/// The decimal numeral of `n`: no sign, no leading zero, `"0"` for zero.
pub open spec fn decimal(n: nat) -> Seq<char>
    decreases n,
{
    if n < 10 {
        seq![digit_char(n)]
    } else {
        decimal(n / 10).push(digit_char(n % 10))
    }
}

/// `10^n`: the weight of the digit in place `n`.
pub(crate) open spec fn pow10(n: nat) -> nat
    decreases n,
{
    if n == 0 {
        1
    } else {
        10 * pow10((n - 1) as nat)
    }
}

/// Every element is a decimal digit.
pub(crate) open spec fn is_digits(digits: Seq<u8>) -> bool {
    forall|i: int| 0 <= i < digits.len() ==> digits[i] < 10
}

/// The number whose decimal digits are `digits`, lowest first.
pub(crate) open spec fn digits_value(digits: Seq<u8>) -> nat
    decreases digits.len(),
{
    if digits.len() == 0 {
        0
    } else {
        digits_value(digits.drop_last()) + digits.last() as nat * pow10(
            (digits.len() - 1) as nat,
        )
    }
}

/// Digits, at least one, with no zero in the highest place unless it is the
/// only place.
pub(crate) open spec fn is_canonical(digits: Seq<u8>) -> bool {
    &&& is_digits(digits)
    &&& digits.len() >= 1
    &&& digits.len() == 1 || digits.last() != 0
}

/// The characters of `digits`, highest place first.
pub(crate) open spec fn digits_text(digits: Seq<u8>) -> Seq<char> {
    Seq::new(digits.len(), |i: int| digit_char(digits[digits.len() - 1 - i] as nat))
}

/// A power of ten is positive.
pub(crate) proof fn lemma_pow10_positive(n: nat)
    ensures
        pow10(n) > 0,
    decreases n,
{
    if n > 0 {
        lemma_pow10_positive((n - 1) as nat);
    }
}

/// A digit put in the highest place adds its weight.
pub(crate) proof fn lemma_value_push(digits: Seq<u8>, d: u8)
    ensures
        digits_value(digits.push(d)) == digits_value(digits) + d as nat * pow10(digits.len()),
{
    assert(digits.push(d).drop_last() =~= digits);
}

/// The lowest digit is the value modulo ten; the others are the value
/// divided by ten.
pub(crate) proof fn lemma_value_front(digits: Seq<u8>)
    requires
        digits.len() >= 1,
    ensures
        digits_value(digits) == digits[0] as nat + 10 * digits_value(digits.drop_first()),
    decreases digits.len(),
{
    if digits.len() == 1 {
        assert(digits.drop_last() =~= Seq::<u8>::empty());
        assert(digits.drop_first() =~= Seq::<u8>::empty());
        assert(digits_value(Seq::<u8>::empty()) == 0);
    } else {
        let init = digits.drop_last();
        let top = digits.last() as nat;
        let weight = pow10((digits.len() - 2) as nat);
        lemma_value_front(init);
        assert(init.drop_first() =~= digits.drop_first().drop_last());
        assert(digits.drop_first().last() == digits.last());
        assert(pow10((digits.len() - 1) as nat) == 10 * weight);
        assert(top * (10 * weight) == 10 * (top * weight)) by (nonlinear_arith);
    }
}

/// Canonical digits spell the decimal numeral of their value.
pub(crate) proof fn lemma_canonical_text(digits: Seq<u8>)
    requires
        is_canonical(digits),
    ensures
        digits_text(digits) == decimal(digits_value(digits)),
    decreases digits.len(),
{
    lemma_value_front(digits);
    let rest = digits.drop_first();
    if digits.len() == 1 {
        assert(rest =~= Seq::<u8>::empty());
        assert(digits_value(rest) == 0);
        assert(digits_text(digits) =~= seq![digit_char(digits[0] as nat)]);
    } else {
        assert(is_canonical(rest));
        lemma_canonical_text(rest);
        lemma_pow10_positive((rest.len() - 1) as nat);
        assert(digits_value(rest) >= 1) by {
            let weight = pow10((rest.len() - 1) as nat);
            let top = rest.last() as nat;
            assert(top * weight >= 1) by (nonlinear_arith)
                requires
                    top >= 1,
                    weight >= 1,
            ;
        }
        let n = digits_value(digits);
        assert(n / 10 == digits_value(rest));
        assert(n % 10 == digits[0] as nat);
        assert(digits_text(digits) =~= digits_text(rest).push(digit_char(digits[0] as nat)));
    }
}

/// The decimal digits of `n`, lowest first.
pub(crate) fn digits_of(n: u64) -> (digits: Vec<u8>)
    ensures
        is_canonical(digits@),
        digits_value(digits@) == n,
{
    let mut digits: Vec<u8> = Vec::new();
    let mut rest: u64 = n / 10;
    digits.push((n % 10) as u8);
    proof {
        lemma_value_push(Seq::<u8>::empty(), (n % 10) as u8);
        assert(digits@ =~= Seq::<u8>::empty().push((n % 10) as u8));
        assert(digits_value(Seq::<u8>::empty()) == 0);
        assert(pow10(0) == 1);
        assert(pow10(1) == 10);
        assert((n % 10) as nat * pow10(0) == n % 10) by (nonlinear_arith)
            requires
                pow10(0) == 1,
        ;
        assert(rest as nat * pow10(1) == 10 * rest) by (nonlinear_arith)
            requires
                pow10(1) == 10,
        ;
    }
    while rest > 0
        invariant
            is_digits(digits@),
            digits.len() >= 1,
            digits_value(digits@) + rest * pow10(digits.len() as nat) == n,
            rest == 0 ==> digits.len() == 1 || digits@.last() != 0,
        decreases rest,
    {
        let d: u8 = (rest % 10) as u8;
        proof {
            lemma_value_push(digits@, d);
            let weight = pow10(digits.len() as nat);
            assert(pow10((digits.len() + 1) as nat) == 10 * weight);
            assert(d as nat * weight + (rest / 10) as nat * (10 * weight) == rest as nat * weight)
                by (nonlinear_arith)
                requires
                    d as nat + 10 * (rest / 10) as nat == rest as nat,
            ;
        }
        digits.push(d);
        rest = rest / 10;
    }
    digits
}

/// Twice the number that `digits` spell.
pub(crate) fn double(digits: &Vec<u8>) -> (doubled: Vec<u8>)
    requires
        is_canonical(digits@),
    ensures
        is_canonical(doubled@),
        digits_value(doubled@) == 2 * digits_value(digits@),
{
    let mut doubled: Vec<u8> = Vec::new();
    let mut carry: u8 = 0;
    let mut i: usize = 0;
    proof {
        assert(digits@.take(0) =~= Seq::<u8>::empty());
    }
    while i < digits.len()
        invariant
            i <= digits.len(),
            is_digits(digits@),
            is_digits(doubled@),
            doubled.len() == i,
            carry <= 1,
            digits_value(doubled@) + carry as nat * pow10(i as nat) == 2 * digits_value(
                digits@.take(i as int),
            ),
            i >= 1 && digits[i - 1] != 0 && carry == 0 ==> doubled[i - 1] != 0,
        decreases digits.len() - i,
    {
        let twice: u8 = 2 * digits[i] + carry;
        proof {
            let weight = pow10(i as nat);
            let low = (twice % 10) as nat;
            let high = (twice / 10) as nat;
            let digit = digits[i as int] as nat;
            lemma_value_push(doubled@, (twice % 10) as u8);
            assert(digits@.take(i + 1).drop_last() =~= digits@.take(i as int));
            assert(pow10((i + 1) as nat) == 10 * weight);
            assert(low * weight + high * (10 * weight) == carry as nat * weight + 2 * (digit
                * weight)) by (nonlinear_arith)
                requires
                    low + 10 * high == 2 * digit + carry as nat,
            ;
        }
        doubled.push(twice % 10);
        carry = twice / 10;
        i += 1;
    }
    proof {
        assert(digits@.take(i as int) =~= digits@);
        lemma_value_push(doubled@, carry);
    }
    if carry > 0 {
        doubled.push(carry);
    }
    doubled
}

/// The decimal digits of `n * 2^k`, lowest first.
pub(crate) fn digits_times_pow2(n: u64, k: u32) -> (digits: Vec<u8>)
    ensures
        is_canonical(digits@),
        digits_value(digits@) == n * pow2(k as nat),
{
    let mut digits: Vec<u8> = digits_of(n);
    let mut done: u32 = 0;
    proof {
        lemma2_to64();
    }
    while done < k
        invariant
            done <= k,
            is_canonical(digits@),
            digits_value(digits@) == n * pow2(done as nat),
        decreases k - done,
    {
        proof {
            lemma_pow2_unfold((done + 1) as nat);
            assert(n * (2 * pow2(done as nat)) == 2 * (n * pow2(done as nat)))
                by (nonlinear_arith);
        }
        digits = double(&digits);
        done += 1;
    }
    digits
}

/// The one-character string of a decimal digit.
pub(crate) fn digit_str(d: u8) -> (text: &'static str)
    requires
        d < 10,
    ensures
        text@ == seq![digit_char(d as nat)],
{
    proof {
        reveal_strlit("0");
        reveal_strlit("1");
        reveal_strlit("2");
        reveal_strlit("3");
        reveal_strlit("4");
        reveal_strlit("5");
        reveal_strlit("6");
        reveal_strlit("7");
        reveal_strlit("8");
        reveal_strlit("9");
    }
    let text: &'static str = if d == 0 {
        "0"
    } else if d == 1 {
        "1"
    } else if d == 2 {
        "2"
    } else if d == 3 {
        "3"
    } else if d == 4 {
        "4"
    } else if d == 5 {
        "5"
    } else if d == 6 {
        "6"
    } else if d == 7 {
        "7"
    } else if d == 8 {
        "8"
    } else {
        "9"
    };
    assert(text@ =~= seq![digit_char(d as nat)]);
    text
}

/// Appends the characters of `digits`, highest place first.
pub(crate) fn push_digits(text: &mut String, digits: &Vec<u8>)
    requires
        is_digits(digits@),
    ensures
        final(text)@ == old(text)@ + digits_text(digits@),
{
    let mut i: usize = digits.len();
    while i > 0
        invariant
            i <= digits.len(),
            is_digits(digits@),
            text@ == old(text)@ + digits_text(digits@).take(digits.len() - i),
        decreases i,
    {
        i -= 1;
        let ghost before = text@;
        text.append(digit_str(digits[i]));
        proof {
            let written = digits_text(digits@);
            let n = digits.len() - i - 1;
            assert(written.take(n + 1) =~= written.take(n).push(digit_char(digits[i as int] as nat)));
            assert(text@ =~= old(text)@ + written.take(n + 1));
        }
    }
    proof {
        assert(digits_text(digits@).take(digits.len() as int) =~= digits_text(digits@));
    }
}

/// The decimal numeral of `n * 2^k`.
pub fn decimal_string(n: u64, k: u32) -> (text: String)
    ensures
        text@ == decimal(n as nat * pow2(k as nat)),
{
    let digits = digits_times_pow2(n, k);
    let mut text = String::new();
    proof {
        lemma_canonical_text(digits@);
    }
    push_digits(&mut text, &digits);
    text
}

} // verus!
