//! The unit-selection rule: which rung of the ladder a byte count is shown
//! on.

use vstd::prelude::*;
use vstd::arithmetic::power2::{
    pow2, lemma_pow2_adds, lemma_pow2_pos, lemma_pow2_strictly_increases,
};
use crate::binary64::{
    exceeds_pow2, exponent_field, is_finite, is_infinite, is_negative, is_non_positive,
    is_positive, less_than, quotient_pow2, scaled, lemma_exceeds_pattern, lemma_field_bounds,
    lemma_quotient_by_one, lemma_quotient_rounds, lemma_scaled_power,
};
use crate::unit::Unit;

verus! {

/// The unit chosen for a byte count: the highest rung whose scale factor the
/// count exceeds strictly, and `Byte` where it exceeds none. So `1024` bytes
/// are shown in `Byte`, anything above in `Kilo`, and everything above
/// `1024^4` in `Tera`. A NaN, which exceeds nothing, gets `Byte`.
pub open spec fn ladder_unit(bits: u64) -> Unit {
    if exceeds_pow2(bits, 40) {
        Unit::Tera
    } else if exceeds_pow2(bits, 30) {
        Unit::Giga
    } else if exceeds_pow2(bits, 20) {
        Unit::Mega
    } else if exceeds_pow2(bits, 10) {
        Unit::Kilo
    } else {
        Unit::Byte
    }
}

/// The unit on a given rung; rungs above the top are `Tera`.
pub open spec fn unit_on_rung(rung: nat) -> Unit {
    if rung == 0 {
        Unit::Byte
    } else if rung == 1 {
        Unit::Kilo
    } else if rung == 2 {
        Unit::Mega
    } else if rung == 3 {
        Unit::Giga
    } else {
        Unit::Tera
    }
}

/// What holds after `steps` divisions by 1024 on the way up the ladder:
/// every division was exact, so `value` is `bytes / 1024^steps`, and the
/// count exceeded the scale factor of each rung that was left behind.
pub(crate) open spec fn climbed(bytes: u64, value: u64, steps: nat) -> bool {
    &&& !is_non_positive(bytes)
    &&& steps >= 1 ==> exceeds_pow2(bytes, (10 * (steps - 1)) as nat)
    &&& !is_finite(bytes) ==> value == bytes
    &&& is_finite(bytes) ==> {
        &&& is_finite(value)
        &&& !is_negative(value)
        &&& scaled(value) * pow2(10 * steps) == scaled(bytes)
    }
}

/// A number exceeds a power of two if it exceeds a higher one.
pub proof fn lemma_exceeds_lower(bits: u64, low: nat, high: nat)
    requires
        low <= high,
        exceeds_pow2(bits, high),
    ensures
        exceeds_pow2(bits, low),
{
    if low < high {
        lemma_pow2_strictly_increases(1074 + low, 1074 + high);
    }
}

/// After `steps` exact divisions the value exceeds one exactly where the
/// count exceeds `1024^steps`.
pub(crate) proof fn lemma_climbed_exceeds(bytes: u64, value: u64, steps: nat)
    requires
        climbed(bytes, value, steps),
        steps <= 5,
    ensures
        exceeds_pow2(value, 0) <==> exceeds_pow2(bytes, 10 * steps),
{
    if is_finite(bytes) {
        let p = pow2(10 * steps);
        let one = pow2(1074);
        lemma_pow2_pos(10 * steps);
        lemma_pow2_adds(1074, 10 * steps);
        assert(scaled(value) > one <==> scaled(value) * p > one * p) by (nonlinear_arith)
            requires
                p > 0,
        ;
    } else if is_infinite(bytes) {
        lemma_field_bounds(bytes);
        lemma_scaled_power(bytes);
        lemma_pow2_strictly_increases(1074, 2098);
        lemma_pow2_strictly_increases(1074 + 10 * steps, 2098);
    }
}

/// One step up the ladder keeps what `climbed` states.
pub(crate) proof fn lemma_climb_step(bytes: u64, value: u64, steps: nat)
    requires
        climbed(bytes, value, steps),
        steps < 5,
        exceeds_pow2(value, 0),
        is_finite(value) ==> exponent_field(value) >= 1023,
    ensures
        climbed(bytes, quotient_pow2(value, 10), steps + 1),
{
    lemma_climbed_exceeds(bytes, value, steps);
    if is_finite(bytes) {
        let q = quotient_pow2(value, 10);
        lemma_quotient_rounds(value, 10);
        lemma_pow2_adds(10, 10 * steps);
        assert(scaled(q) * (pow2(10) * pow2(10 * steps)) == (scaled(q) * pow2(10)) * pow2(
            10 * steps,
        )) by (nonlinear_arith);
        assert(10 + 10 * steps == 10 * (steps + 1));
    }
}

/// Where the climb stops, it stands one rung above the chosen unit.
pub(crate) proof fn lemma_climb_end(bytes: u64, value: u64, steps: nat)
    requires
        climbed(bytes, value, steps),
        steps <= 5,
        steps < 5 ==> !exceeds_pow2(value, 0),
    ensures
        ladder_unit(bytes) == unit_on_rung(if steps == 0 { 0 } else { (steps - 1) as nat }),
{
    if steps < 5 {
        lemma_climbed_exceeds(bytes, value, steps);
        if exceeds_pow2(bytes, 40) {
            lemma_exceeds_lower(bytes, 10 * steps, 40);
        }
        if exceeds_pow2(bytes, 30) && steps <= 3 {
            lemma_exceeds_lower(bytes, 10 * steps, 30);
        }
        if exceeds_pow2(bytes, 20) && steps <= 2 {
            lemma_exceeds_lower(bytes, 10 * steps, 20);
        }
        if exceeds_pow2(bytes, 10) && steps <= 1 {
            lemma_exceeds_lower(bytes, 10 * steps, 10);
        }
    }
}

/// Of two positive byte counts, the larger is never shown on a lower rung.
pub proof fn lemma_ladder_monotonic(smaller: u64, larger: u64)
    requires
        is_positive(smaller),
        is_positive(larger),
        less_than(smaller, larger),
    ensures
        ladder_unit(smaller).rung() <= ladder_unit(larger).rung(),
{
}

/// The ladder is capped: every byte count above `1024^4`, `+inf` among
/// them, is shown in `Tera`.
pub proof fn lemma_ladder_cap(bits: u64)
    requires
        exceeds_pow2(bits, 40),
    ensures
        ladder_unit(bits) == Unit::Tera,
{
}

/// At an exact power of 1024 the climb stops one rung short: `1024^j`
/// itself is shown on rung `j - 1`, and `1` on rung `0`.
pub proof fn lemma_ladder_tie(bits: u64, rung: nat)
    requires
        rung <= 4,
        is_finite(bits),
        !is_negative(bits),
        scaled(bits) == pow2(1074 + 10 * rung),
    ensures
        ladder_unit(bits) == unit_on_rung(if rung == 0 { 0 } else { (rung - 1) as nat }),
{
    if rung < 4 {
        lemma_pow2_strictly_increases(1074 + 10 * rung, 1114);
    }
    if rung < 3 {
        lemma_pow2_strictly_increases(1074 + 10 * rung, 1104);
    }
    if rung < 2 {
        lemma_pow2_strictly_increases(1074 + 10 * rung, 1094);
    }
    if rung < 1 {
        lemma_pow2_strictly_increases(1074 + 10 * rung, 1084);
    }
    if rung >= 1 {
        lemma_pow2_strictly_increases((1074 + 10 * (rung - 1)) as nat, 1074 + 10 * rung);
    }
    if rung >= 2 {
        lemma_pow2_strictly_increases(1084, 1074 + 10 * rung);
    }
    if rung >= 3 {
        lemma_pow2_strictly_increases(1094, 1074 + 10 * rung);
    }
    if rung >= 4 {
        lemma_pow2_strictly_increases(1104, 1074 + 10 * rung);
    }
}

/// The quantity that a detected amount shows: above one wherever the count
/// is, and at most 1024 for every count up to `1024^5`, from where on the
/// capped ladder lets it grow.
pub proof fn lemma_ladder_quantity(bits: u64)
    requires
        is_finite(bits),
    ensures
        exceeds_pow2(bits, 0) ==> exceeds_pow2(
            quotient_pow2(bits, ladder_unit(bits).exponent() as nat),
            0,
        ),
        !exceeds_pow2(bits, 50) ==> !exceeds_pow2(
            quotient_pow2(bits, ladder_unit(bits).exponent() as nat),
            10,
        ),
{
    let k = ladder_unit(bits).exponent() as nat;
    let q = quotient_pow2(bits, k);
    if k == 0 {
        lemma_quotient_by_one(bits);
    } else {
        lemma_exceeds_pattern(bits, k);
        lemma_field_bounds(bits);
        lemma_quotient_rounds(bits, k);
        lemma_pow2_pos(k);
        lemma_pow2_adds(1074, k);
        lemma_pow2_adds(1084, k);
        let p = pow2(k);
        assert(scaled(q) > pow2(1074) <==> scaled(q) * p > pow2(1074) * p) by (nonlinear_arith)
            requires
                p > 0,
        ;
        assert(scaled(q) > pow2(1084) <==> scaled(q) * p > pow2(1084) * p) by (nonlinear_arith)
            requires
                p > 0,
        ;
        assert(1084 + k == 1074 + (k + 10));
    }
}

} // verus!
