//! A byte count together with the unit under which it is shown.

use vstd::prelude::*;
use vstd::arithmetic::power2::lemma2_to64;
use vstd::string::StringExecFns;
use crate::binary64::{
    divide_pow2, exceeds_one, exponent_field, is_finite, is_negative, is_non_positive,
    non_positive, quotient_pow2, scaled, lemma_quotient_by_one, lemma_quotient_rounds,
};
use crate::notation::{format_one_decimal, is_fixed_text, one_decimal, lemma_one_decimal_is_fixed};
use crate::ladder::{climbed, ladder_unit, lemma_climb_end, lemma_climb_step};
use crate::rounding::{distance, round_half_even, lemma_round_error};
use crate::unit::{is_prefix_text, Unit};

verus! {

/// `quantity`, a space, `prefix` and `B`.
pub open spec fn amount_text(quantity: Seq<char>, prefix: Seq<char>) -> Seq<char> {
    quantity + seq![' '] + prefix + seq!['B']
}

/// The shape of a rendered amount: a signed decimal with one fractional
/// digit, one space, a prefix, `B`.
pub open spec fn is_amount_text(text: Seq<char>) -> bool {
    exists|quantity: Seq<char>, prefix: Seq<char>|
        {
            &&& text == #[trigger] amount_text(quantity, prefix)
            &&& is_fixed_text(quantity)
            &&& is_prefix_text(prefix)
        }
}

/// A byte count and the unit under which it is shown.
///
/// The count is a binary64 number held by its bit pattern (what
/// `f64::to_bits` gives), always in bytes: the unit selects how the amount
/// is displayed and never scales what is stored.
pub struct Amount {
    bytes: u64,
    unit: Unit,
}

impl Amount {
    /// The stored byte count, as a binary64 pattern.
    pub closed spec fn spec_bytes(&self) -> u64 {
        self.bytes
    }

    /// The stored unit.
    pub closed spec fn spec_unit(&self) -> Unit {
        self.unit
    }

    /// The pattern of `bytes / scale(unit)` in binary64 arithmetic.
    pub open spec fn spec_quantity(&self) -> u64 {
        quotient_pow2(self.bytes(), self.unit().exponent() as nat)
    }

    /// The rendered amount: the quantity with one fractional digit, a
    /// space, the unit's prefix and `B`.
    pub open spec fn spec_render(&self) -> Seq<char> {
        one_decimal(self.quantity()) + seq![' '] + self.unit().spec_prefix() + seq!['B']
    }

    /// An amount of `bytes`, shown in `unit`. Both are stored as given.
    pub fn new(bytes: u64, unit: Unit) -> (amount: Amount)
        ensures
            amount.bytes() == bytes,
            amount.unit() == unit,
    {
        Amount { bytes, unit }
    }

    /// An amount of `bytes`, shown in the unit that the ladder rule picks.
    ///
    /// A count that is `<= 0` becomes `0.0` bytes in `Byte`. Any other count
    /// is stored as given, with the unit of [`ladder_unit`]: the climb
    /// divides by 1024 while the value exceeds one and a rung is left, and
    /// the unit is the rung below the one where it stops.
    pub fn auto_detect(bytes: u64) -> (amount: Amount)
        ensures
            is_non_positive(bytes) ==> amount.bytes() == 0 && amount.unit() == Unit::Byte,
            !is_non_positive(bytes) ==> amount.bytes() == bytes && amount.unit() == ladder_unit(
                bytes,
            ),
    {
        let scales: [Unit; 5] = [Unit::Byte, Unit::Kilo, Unit::Mega, Unit::Giga, Unit::Tera];
        if non_positive(bytes) {
            return Amount::new(0, Unit::Byte);
        }
        let mut value: u64 = bytes;
        let mut counter: usize = 0;
        proof {
            lemma2_to64();
            assert(scaled(value) * 1 == scaled(value));
        }
        while exceeds_one(value) && counter < 5
            invariant
                counter <= 5,
                climbed(bytes, value, counter as nat),
            decreases 5 - counter,
        {
            proof {
                lemma_climb_step(bytes, value, counter as nat);
            }
            value = divide_pow2(value, 10);
            counter += 1;
        }
        proof {
            lemma_climb_end(bytes, value, counter as nat);
        }
        let unit: Unit = if counter == 0 {
            Unit::Byte
        } else {
            scales[counter - 1]
        };
        Amount::new(bytes, unit)
    }

    /// The byte count divided by the unit's scale factor, in binary64
    /// arithmetic, as a binary64 pattern.
    ///
    /// Of a finite count the result is finite with the count's sign, and its
    /// magnitude is the exact quotient rounded to the nearest multiple of
    /// `2^-1074`, ties to even; nothing is rounded off unless the quotient
    /// falls below the normal range. A NaN or an infinity comes back as it
    /// is.
    #[verifier::when_used_as_spec(spec_quantity)]
    pub fn quantity(&self) -> (q: u64)
        ensures
            q == self.spec_quantity(),
            !is_finite(self.bytes()) ==> q == self.bytes(),
            is_finite(self.bytes()) ==> {
                &&& is_finite(q)
                &&& is_negative(q) == is_negative(self.bytes())
                &&& scaled(q) == round_half_even(scaled(self.bytes()), self.unit().scale() as nat)
            },
            self.unit() == Unit::Byte ==> q == self.bytes(),
    {
        proof {
            self.unit.lemma_scale_is_power();
            lemma_quotient_by_one(self.bytes);
        }
        divide_pow2(self.bytes, self.unit.exponent())
    }

    /// The amount as text, such as `195.4 KiB`: the quantity in fixed-point
    /// notation with one fractional digit, rounded to nearest with ties to
    /// even, then a space, the unit's prefix and `B`.
    pub fn render(&self) -> (text: String)
        ensures
            text@ == self.spec_render(),
    {
        proof {
            reveal_strlit(" ");
            reveal_strlit("B");
        }
        let mut text = format_one_decimal(self.quantity());
        text.append(" ");
        text.append(self.unit.prefix());
        text.append("B");
        assert(text@ =~= self.spec_render());
        text
    }

    /// Multiplying the quantity by the scale factor gives the byte count
    /// back: exactly where the quotient is a normal number, and otherwise
    /// to within half a scale factor of `2^-1074`, the rounding error of one
    /// division. The sign is kept.
    pub proof fn lemma_quantity_consistent(&self)
        requires
            is_finite(self.bytes()),
        ensures
            is_negative(self.quantity()) == is_negative(self.bytes()),
            2 * distance(
                scaled(self.quantity()) * self.unit().scale() as nat,
                scaled(self.bytes()),
            ) <= self.unit().scale(),
            exponent_field(self.bytes()) > self.unit().exponent() ==> scaled(self.quantity())
                * self.unit().scale() == scaled(self.bytes()),
    {
        self.unit().lemma_scale_is_power();
        lemma_quotient_rounds(self.bytes(), self.unit().exponent() as nat);
        lemma_round_error(scaled(self.bytes()), self.unit().scale() as nat);
    }

    /// A finite amount is rendered in the shape
    /// `quantity SP prefix "B"`, the quantity being a signed decimal with
    /// exactly one fractional digit.
    pub proof fn lemma_render_shape(&self)
        requires
            is_finite(self.bytes()),
        ensures
            is_amount_text(self.spec_render()),
    {
        lemma_quotient_rounds(self.bytes(), self.unit().exponent() as nat);
        lemma_one_decimal_is_fixed(self.quantity());
        assert(self.spec_render() == amount_text(
            one_decimal(self.quantity()),
            self.unit().spec_prefix(),
        ));
    }

    /// The unit under which the amount is shown.
    #[verifier::when_used_as_spec(spec_unit)]
    pub fn unit(&self) -> (unit: Unit)
        ensures
            unit == self.spec_unit(),
    {
        self.unit
    }

    /// The byte count, never scaled, as a binary64 pattern.
    #[verifier::when_used_as_spec(spec_bytes)]
    pub fn bytes(&self) -> (bytes: u64)
        ensures
            bytes == self.spec_bytes(),
    {
        self.bytes
    }
}

} // verus!
