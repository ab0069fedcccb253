//! Division of natural numbers with rounding to the nearest integer, ties
//! to even: the rounding of IEEE 754 arithmetic and of decimal rendering.

use vstd::prelude::*;
use vstd::arithmetic::div_mod::*;
use vstd::arithmetic::power2::*;
use vstd::bits::*;

verus! {

/// `n / d`, rounded to the nearest integer, a tie going to the even one.
pub open spec fn round_half_even(n: nat, d: nat) -> nat
    recommends
        d > 0,
{
    let q = n / d;
    let r = n % d;
    if 2 * r < d || (2 * r == d && q % 2 == 0) {
        q
    } else {
        q + 1
    }
}

/// A multiple of the divisor is divided without rounding.
pub proof fn lemma_round_exact(x: nat, d: nat)
    requires
        d > 0,
    ensures
        round_half_even(x * d, d) == x,
{
    lemma_fundamental_div_mod_converse((x * d) as int, d as int, x as int, 0);
}

/// How far apart two numbers are.
pub open spec fn distance(a: nat, b: nat) -> nat {
    if a >= b {
        (a - b) as nat
    } else {
        (b - a) as nat
    }
}

/// The rounded quotient, multiplied back, lies within half a divisor of the
/// dividend.
pub proof fn lemma_round_error(n: nat, d: nat)
    requires
        d > 0,
    ensures
        2 * distance(round_half_even(n, d) * d, n) <= d,
{
    let q = n / d;
    lemma_fundamental_div_mod(n as int, d as int);
    lemma_mod_pos_bound(n as int, d as int);
    assert((q + 1) * d == d * q + d) by (nonlinear_arith);
    assert(q * d == d * q) by (nonlinear_arith);
}

/// No integer multiple of the divisor lies nearer to the dividend than the
/// rounded quotient's.
pub proof fn lemma_round_nearest(n: nat, d: nat, other: nat)
    requires
        d > 0,
    ensures
        distance(round_half_even(n, d) * d, n) <= distance(other * d, n),
{
    let q = round_half_even(n, d);
    lemma_round_error(n, d);
    if other > q {
        assert(other * d >= q * d + d) by (nonlinear_arith)
            requires
                other >= q + 1,
        ;
    } else if other < q {
        assert(other * d + d <= q * d) by (nonlinear_arith)
            requires
                other + 1 <= q,
        ;
    }
}

/// Where the exact quotient lies halfway between two integers, the rounded
/// quotient is the even one.
pub proof fn lemma_round_tie(n: nat, d: nat)
    requires
        d > 0,
        2 * (n % d) == d,
    ensures
        round_half_even(n, d) % 2 == 0,
{
}

/// A common factor of dividend and divisor does not change the rounded
/// quotient.
pub proof fn lemma_round_scaling(n: nat, d: nat, c: nat)
    requires
        d > 0,
        c > 0,
    ensures
        round_half_even(n * c, d * c) == round_half_even(n, d),
{
    let r = n % d;
    lemma_div_multiples_vanish_quotient(c as int, n as int, d as int);
    lemma_truncate_middle(n as int, c as int, d as int);
    assert(n * c == c * n) by (nonlinear_arith);
    assert(d * c == c * d) by (nonlinear_arith);
    assert((n * c) / (d * c) == n / d);
    assert((n * c) % (d * c) == c * r);
    assert(2 * (c * r) < c * d <==> 2 * r < d) by (nonlinear_arith)
        requires
            c > 0,
    ;
    assert(2 * (c * r) == c * d <==> 2 * r == d) by (nonlinear_arith)
        requires
            c > 0,
    ;
}

/// `2^n`, for an exponent that fits.
pub(crate) fn pow2_u64(n: u32) -> (p: u64)
    requires
        n < 64,
    ensures
        p == pow2(n as nat),
{
    proof {
        lemma_u64_pow2_no_overflow(n as nat);
        lemma_u64_shl_is_mul(1, n as u64);
    }
    1u64 << n
}

/// `n / 2^s`, rounded to nearest, ties to even.
pub fn round_shift(n: u64, s: u32) -> (q: u64)
    ensures
        q == round_half_even(n as nat, pow2(s as nat)),
{
    proof {
        lemma2_to64();
        lemma2_to64_rest();
    }
    if s >= 64 {
        proof {
            if s > 64 {
                lemma_pow2_unfold(65);
                if s > 65 {
                    lemma_pow2_strictly_increases(65, s as nat);
                }
            }
            lemma_fundamental_div_mod_converse(n as int, pow2(s as nat) as int, 0, n as int);
        }
        if s == 64 && n > 0x8000_0000_0000_0000 {
            1
        } else {
            0
        }
    } else {
        let d: u64 = pow2_u64(s);
        proof {
            lemma_pow2_pos(s as nat);
            if s < 63 {
                lemma_pow2_strictly_increases(s as nat, 63);
            }
        }
        let q: u64 = n / d;
        let r: u64 = n % d;
        if 2 * r > d || (2 * r == d && q % 2 == 1) {
            assert(d >= 2);
            assert(q <= n / 2) by {
                lemma_div_is_ordered_by_denominator(n as int, 2, d as int);
            }
            q + 1
        } else {
            q
        }
    }
}

} // verus!
