//! IEEE 754 binary64 numbers, held by their 64-bit patterns.
//!
//! A pattern is a sign bit, an 11-bit exponent field and a 52-bit fraction
//! field. The number that a finite pattern stands for is
//! `± significand * 2^(shift - 1074)`, so `scaled`, which is
//! `significand * 2^shift`, is its magnitude in units of `2^-1074`: always a
//! natural number. Contracts compare and divide those natural numbers.

use vstd::prelude::*;
use vstd::arithmetic::power2::*;
use vstd::arithmetic::div_mod::lemma_div_is_ordered_by_denominator;
use crate::rounding::{
    distance, round_half_even, round_shift, lemma_round_exact, lemma_round_nearest,
    lemma_round_scaling, lemma_round_tie,
};

verus! {

/// The pattern of `-0.0`: the sign bit alone.
pub const SIGN_BIT: u64 = 0x8000_0000_0000_0000;

/// The pattern of `+inf`: all exponent bits set, empty fraction.
pub const INFINITY: u64 = 0x7ff0_0000_0000_0000;

/// `2^52`: the weight of the exponent field's lowest bit, and the implicit
/// leading bit of a normal significand.
pub const HIDDEN_BIT: u64 = 0x0010_0000_0000_0000;

/// The pattern of `1.0`.
pub const ONE: u64 = 0x3ff0_0000_0000_0000;

/// The sign bit is set (true of `-0.0` and of negative NaNs too).
pub open spec fn is_negative(bits: u64) -> bool {
    bits >= SIGN_BIT
}

/// The pattern without its sign bit.
pub open spec fn magnitude(bits: u64) -> u64 {
    if bits >= SIGN_BIT {
        (bits - SIGN_BIT) as u64
    } else {
        bits
    }
}

/// Not a number: all exponent bits set, and some fraction bit.
pub open spec fn is_nan(bits: u64) -> bool {
    magnitude(bits) > INFINITY
}

/// `+inf` or `-inf`.
pub open spec fn is_infinite(bits: u64) -> bool {
    magnitude(bits) == INFINITY
}

/// Zero, subnormal or normal.
pub open spec fn is_finite(bits: u64) -> bool {
    magnitude(bits) < INFINITY
}

/// The biased exponent, `0 ..= 2047`.
pub open spec fn exponent_field(bits: u64) -> nat {
    (magnitude(bits) / HIDDEN_BIT) as nat
}

/// The 52 stored bits of the significand.
pub open spec fn fraction_field(bits: u64) -> nat {
    (magnitude(bits) % HIDDEN_BIT) as nat
}

/// The integer significand: the fraction, with the implicit bit unless the
/// exponent field is zero.
pub open spec fn significand(bits: u64) -> nat {
    if exponent_field(bits) == 0 {
        fraction_field(bits)
    } else {
        HIDDEN_BIT as nat + fraction_field(bits)
    }
}

/// How far the significand is shifted above the unit `2^-1074`.
pub open spec fn shift(bits: u64) -> nat {
    if exponent_field(bits) == 0 {
        0
    } else {
        (exponent_field(bits) - 1) as nat
    }
}

/// The magnitude in units of `2^-1074`. For an infinity the same formula
/// gives `2^2098`, which lies above every finite magnitude.
pub open spec fn scaled(bits: u64) -> nat {
    significand(bits) * pow2(shift(bits))
}

/// The number, in units of `2^-1074`, with its sign.
pub open spec fn signed_scaled(bits: u64) -> int {
    if is_negative(bits) {
        -(scaled(bits) as int)
    } else {
        scaled(bits) as int
    }
}

/// `a < b` as IEEE 754 orders numbers: false when either is a NaN.
pub open spec fn less_than(a: u64, b: u64) -> bool {
    !is_nan(a) && !is_nan(b) && signed_scaled(a) < signed_scaled(b)
}

/// The number is `<= 0`: a zero of either sign, a negative number or `-inf`.
pub open spec fn is_non_positive(bits: u64) -> bool {
    !is_nan(bits) && (is_negative(bits) || magnitude(bits) == 0)
}

/// The number is `> 0`.
pub open spec fn is_positive(bits: u64) -> bool {
    !is_nan(bits) && !is_negative(bits) && magnitude(bits) != 0
}

/// The number is `> 2^k`.
pub open spec fn exceeds_pow2(bits: u64, k: nat) -> bool
    recommends
        k <= 1023,
{
    !is_nan(bits) && !is_negative(bits) && scaled(bits) > pow2(1074 + k)
}

/// Bounds of the fields of any pattern.
pub proof fn lemma_field_bounds(bits: u64)
    ensures
        exponent_field(bits) <= 2047,
        fraction_field(bits) < HIDDEN_BIT,
        significand(bits) < 2 * HIDDEN_BIT,
        magnitude(bits) == exponent_field(bits) * HIDDEN_BIT + fraction_field(bits),
        is_finite(bits) <==> exponent_field(bits) < 2047,
        is_infinite(bits) <==> exponent_field(bits) == 2047 && fraction_field(bits) == 0,
        exponent_field(bits) >= 1 ==> significand(bits) >= HIDDEN_BIT,
        shift(bits) <= 2046,
{
}

/// A larger pattern, sign aside, stands for a larger magnitude.
pub proof fn lemma_scaled_increases(a: u64, b: u64)
    requires
        magnitude(a) < magnitude(b),
    ensures
        scaled(a) < scaled(b),
{
    lemma_field_bounds(a);
    lemma_field_bounds(b);
    let pa = pow2(shift(a));
    let pb = pow2(shift(b));
    let ma = significand(a);
    let mb = significand(b);
    lemma_pow2_pos(shift(a));
    lemma_pow2_pos(shift(b));
    if shift(a) == shift(b) {
        assert(ma < mb);
        assert(ma * pa < mb * pa) by (nonlinear_arith)
            requires
                ma < mb,
                pa > 0,
        ;
    } else {
        assert(exponent_field(a) < exponent_field(b));
        assert(shift(a) + 1 <= shift(b));
        lemma_pow2_unfold(shift(a) + 1);
        if shift(a) + 1 < shift(b) {
            lemma_pow2_strictly_increases(shift(a) + 1, shift(b));
        }
        assert(2 * pa <= pb);
        assert(ma * pa < mb * pb) by (nonlinear_arith)
            requires
                ma < 2 * HIDDEN_BIT,
                mb >= HIDDEN_BIT,
                2 * pa <= pb,
                pa > 0,
        ;
    }
}

/// Two patterns of one magnitude are the same pattern, sign aside, and the
/// order of magnitudes is the order of patterns.
pub proof fn lemma_scaled_order(a: u64, b: u64)
    ensures
        magnitude(a) < magnitude(b) <==> scaled(a) < scaled(b),
        magnitude(a) == magnitude(b) <==> scaled(a) == scaled(b),
{
    if magnitude(a) < magnitude(b) {
        lemma_scaled_increases(a, b);
    } else if magnitude(b) < magnitude(a) {
        lemma_scaled_increases(b, a);
    }
}

/// The magnitude of a power of two: exponent field `e`, empty fraction.
pub proof fn lemma_scaled_power(bits: u64)
    requires
        exponent_field(bits) >= 1,
        fraction_field(bits) == 0,
    ensures
        scaled(bits) == pow2(51 + exponent_field(bits)),
{
    lemma2_to64_rest();
    lemma_pow2_adds(52, shift(bits));
}

/// The pattern of `bits / 2^k`, as IEEE 754 division in the default rounding
/// mode gives it. A NaN or an infinity is handed back as it is; a quotient
/// that is still normal has its exponent field lowered by `k`; a smaller one
/// is rounded on the subnormal grid, whose patterns are the magnitudes
/// themselves. What this comes to is stated by [`lemma_quotient_rounds`].
pub open spec fn quotient_pow2(bits: u64, k: nat) -> u64 {
    if !is_finite(bits) {
        bits
    } else if exponent_field(bits) > k {
        (bits - k * HIDDEN_BIT) as u64
    } else {
        (bits - magnitude(bits) + round_half_even(
            significand(bits),
            pow2((k - shift(bits)) as nat),
        )) as u64
    }
}

/// A quotient below the normal range is at most the smallest normal number.
proof fn lemma_subnormal_quotient_fits(bits: u64, k: nat)
    requires
        exponent_field(bits) <= k,
    ensures
        round_half_even(significand(bits), pow2((k - shift(bits)) as nat)) <= HIDDEN_BIT,
{
    let m = significand(bits);
    let s = (k - shift(bits)) as nat;
    lemma_field_bounds(bits);
    lemma_pow2_pos(s);
    lemma2_to64();
    if s == 0 {
        lemma_round_exact(m, 1);
        assert(m * 1 == m);
    } else {
        lemma_pow2_unfold(s);
        lemma_pow2_pos((s - 1) as nat);
        lemma_div_is_ordered_by_denominator(m as int, 2, pow2(s) as int);
    }
}

/// Division by a power of two is correctly rounded: the quotient of a finite
/// number is finite, has the dividend's sign, and its magnitude is the exact
/// quotient rounded to the nearest multiple of `2^-1074`, ties to even. Where
/// the exponent field exceeds `k` nothing is rounded off.
pub proof fn lemma_quotient_rounds(bits: u64, k: nat)
    requires
        is_finite(bits),
    ensures
        is_finite(quotient_pow2(bits, k)),
        is_negative(quotient_pow2(bits, k)) == is_negative(bits),
        scaled(quotient_pow2(bits, k)) == round_half_even(scaled(bits), pow2(k)),
        exponent_field(bits) > k ==> scaled(quotient_pow2(bits, k)) * pow2(k) == scaled(bits),
{
    let q = quotient_pow2(bits, k);
    let m = significand(bits);
    lemma_field_bounds(bits);
    lemma_pow2_pos(k);
    if exponent_field(bits) > k {
        assert(magnitude(q) == magnitude(bits) - k * HIDDEN_BIT);
        assert(exponent_field(q) == exponent_field(bits) - k);
        assert(fraction_field(q) == fraction_field(bits));
        assert(shift(bits) == shift(q) + k);
        lemma_pow2_adds(shift(q), k);
        assert(m * (pow2(shift(q)) * pow2(k)) == (m * pow2(shift(q))) * pow2(k))
            by (nonlinear_arith);
        lemma_round_exact(scaled(q), pow2(k));
    } else {
        let s = (k - shift(bits)) as nat;
        let n = round_half_even(m, pow2(s));
        lemma_pow2_pos(s);
        lemma_pow2_pos(shift(bits));
        lemma2_to64();
        lemma_subnormal_quotient_fits(bits, k);
        assert(magnitude(q) == n);
        assert(scaled(q) == n) by {
            assert(n * 1 == n);
        }
        lemma_pow2_adds(s, shift(bits));
        lemma_round_scaling(m, pow2(s), pow2(shift(bits)));
    }
}

/// No finite binary64 number lies nearer to the exact quotient than the one
/// that division gives, and where the exact quotient lies halfway between
/// two neighbours on the grid of `2^-1074`, division gives the even one.
pub proof fn lemma_quotient_nearest(bits: u64, k: nat, other: u64)
    requires
        is_finite(bits),
        is_finite(other),
    ensures
        distance(scaled(quotient_pow2(bits, k)) * pow2(k), scaled(bits)) <= distance(
            scaled(other) * pow2(k),
            scaled(bits),
        ),
        2 * (scaled(bits) % pow2(k)) == pow2(k) ==> scaled(quotient_pow2(bits, k)) % 2 == 0,
{
    lemma_pow2_pos(k);
    lemma_quotient_rounds(bits, k);
    lemma_round_nearest(scaled(bits), pow2(k), scaled(other));
    if 2 * (scaled(bits) % pow2(k)) == pow2(k) {
        lemma_round_tie(scaled(bits), pow2(k));
    }
}

/// A number exceeds `2^k` exactly where it is positive and its pattern
/// exceeds the pattern of `2^k`.
pub proof fn lemma_exceeds_pattern(bits: u64, k: nat)
    requires
        k <= 1023,
    ensures
        exceeds_pow2(bits, k) <==> !is_nan(bits) && !is_negative(bits) && magnitude(bits) > (1023
            + k) * HIDDEN_BIT,
{
    let power = ((1023 + k) * HIDDEN_BIT) as u64;
    lemma_scaled_power(power);
    lemma_scaled_order(bits, power);
}

/// Division by one changes nothing.
pub proof fn lemma_quotient_by_one(bits: u64)
    ensures
        quotient_pow2(bits, 0) == bits,
{
    lemma2_to64();
    lemma_field_bounds(bits);
    if is_finite(bits) && exponent_field(bits) == 0 {
        lemma_round_exact(significand(bits), 1);
        assert(significand(bits) * 1 == significand(bits));
    }
}

/// Whether the number is `<= 0`.
pub fn non_positive(bits: u64) -> (r: bool)
    ensures
        r == is_non_positive(bits),
{
    bits == 0 || (bits >= SIGN_BIT && bits - SIGN_BIT <= INFINITY)
}

/// Whether the number is `> 1`.
pub fn exceeds_one(bits: u64) -> (r: bool)
    ensures
        r == exceeds_pow2(bits, 0),
        r && is_finite(bits) ==> exponent_field(bits) >= 1023,
{
    proof {
        lemma_scaled_order(bits, ONE);
        lemma_scaled_power(ONE);
    }
    ONE < bits && bits <= INFINITY
}

/// `bits / 2^k` in binary64 arithmetic, rounded to nearest with ties to
/// even. A NaN or an infinity comes back as it is.
pub fn divide_pow2(bits: u64, k: u32) -> (q: u64)
    ensures
        q == quotient_pow2(bits, k as nat),
        !is_finite(bits) ==> q == bits,
        is_finite(bits) ==> {
            &&& is_finite(q)
            &&& is_negative(q) == is_negative(bits)
            &&& scaled(q) == round_half_even(scaled(bits), pow2(k as nat))
        },
{
    proof {
        if is_finite(bits) {
            lemma_quotient_rounds(bits, k as nat);
        }
    }
    let sign: u64 = if bits >= SIGN_BIT { SIGN_BIT } else { 0 };
    let mag: u64 = bits - sign;
    if mag >= INFINITY {
        return bits;
    }
    let e: u64 = mag / HIDDEN_BIT;
    let f: u64 = mag % HIDDEN_BIT;
    if e > k as u64 {
        return bits - (k as u64) * HIDDEN_BIT;
    }
    let m: u64 = if e == 0 { f } else { HIDDEN_BIT + f };
    let s: u32 = if e == 0 { k } else { k - (e as u32 - 1) };
    let n: u64 = round_shift(m, s);
    proof {
        lemma_subnormal_quotient_fits(bits, k as nat);
    }
    sign + n
}

} // verus!
