//! The five binary magnitudes, their scale factors and their prefixes.

use vstd::prelude::*;
use vstd::arithmetic::power2::{pow2, lemma2_to64, lemma2_to64_rest};

verus! {

/// A binary magnitude: a power of 1024 bytes.
#[derive(Clone, Copy, Debug, PartialEq, Eq, Structural)]
pub enum Unit {
    Byte,
    Kilo,
    Mega,
    Giga,
    Tera,
}

/// The scale factor of a [`Unit`], as a tag; [`UnitValue::factor`] gives the
/// number.
#[derive(Debug, PartialEq, Eq, Structural)]
pub enum UnitValue {
    Byte,
    Kilo,
    Mega,
    Giga,
    Tera,
}

/// One of the five prefixes.
pub open spec fn is_prefix_text(text: Seq<char>) -> bool {
    exists|unit: Unit| text == #[trigger] unit.spec_prefix()
}

impl UnitValue {
    /// The number of bytes that the tag stands for.
    pub open spec fn spec_factor(&self) -> u64 {
        match self {
            UnitValue::Byte => 1,
            UnitValue::Kilo => 1024,
            UnitValue::Mega => 1_048_576,
            UnitValue::Giga => 1_073_741_824,
            UnitValue::Tera => 1_099_511_627_776,
        }
    }

    /// The number of bytes that the tag stands for.
    #[verifier::when_used_as_spec(spec_factor)]
    pub fn factor(&self) -> (bytes: u64)
        ensures
            bytes == self.spec_factor(),
    {
        assert(1u64 << 10 == 1024u64) by (bit_vector);
        assert(1u64 << 20 == 1_048_576u64) by (bit_vector);
        assert(1u64 << 30 == 1_073_741_824u64) by (bit_vector);
        assert(1u64 << 40 == 1_099_511_627_776u64) by (bit_vector);
        match self {
            UnitValue::Byte => 1,
            UnitValue::Kilo => 1 << 10,
            UnitValue::Mega => 1 << 20,
            UnitValue::Giga => 1 << 30,
            UnitValue::Tera => 1 << 40,
        }
    }
}

impl Unit {
    /// The place of the unit on the ascending ladder
    /// `Byte, Kilo, Mega, Giga, Tera`.
    pub open spec fn rung(&self) -> nat {
        match self {
            Unit::Byte => 0,
            Unit::Kilo => 1,
            Unit::Mega => 2,
            Unit::Giga => 3,
            Unit::Tera => 4,
        }
    }

    /// The binary exponent of the scale factor: ten per rung.
    pub open spec fn spec_exponent(&self) -> u32 {
        match self {
            Unit::Byte => 0,
            Unit::Kilo => 10,
            Unit::Mega => 20,
            Unit::Giga => 30,
            Unit::Tera => 40,
        }
    }

    /// The scale-factor tag of the unit.
    pub open spec fn spec_value(&self) -> UnitValue {
        match self {
            Unit::Byte => UnitValue::Byte,
            Unit::Kilo => UnitValue::Kilo,
            Unit::Mega => UnitValue::Mega,
            Unit::Giga => UnitValue::Giga,
            Unit::Tera => UnitValue::Tera,
        }
    }

    /// The number of bytes in one step of the unit.
    pub open spec fn spec_scale(&self) -> u64 {
        match self {
            Unit::Byte => 1,
            Unit::Kilo => 1024,
            Unit::Mega => 1_048_576,
            Unit::Giga => 1_073_741_824,
            Unit::Tera => 1_099_511_627_776,
        }
    }

    /// The text that stands before `B` where an amount is rendered.
    pub open spec fn spec_prefix(&self) -> Seq<char> {
        match self {
            Unit::Byte => seq![],
            Unit::Kilo => seq!['K', 'i'],
            Unit::Mega => seq!['M', 'i'],
            Unit::Giga => seq!['G', 'i'],
            Unit::Tera => seq!['T', 'i'],
        }
    }

    /// The scale-factor tag of the unit.
    #[verifier::when_used_as_spec(spec_value)]
    pub fn to_value(&self) -> (value: UnitValue)
        ensures
            value == self.spec_value(),
    {
        match self {
            Unit::Byte => UnitValue::Byte,
            Unit::Kilo => UnitValue::Kilo,
            Unit::Mega => UnitValue::Mega,
            Unit::Giga => UnitValue::Giga,
            Unit::Tera => UnitValue::Tera,
        }
    }

    /// The number of bytes in one step of the unit.
    #[verifier::when_used_as_spec(spec_scale)]
    pub fn scale(&self) -> (bytes: u64)
        ensures
            bytes == self.spec_scale(),
    {
        self.to_value().factor()
    }

    /// The binary exponent of the scale factor.
    #[verifier::when_used_as_spec(spec_exponent)]
    pub fn exponent(&self) -> (k: u32)
        ensures
            k == self.spec_exponent(),
    {
        match self {
            Unit::Byte => 0,
            Unit::Kilo => 10,
            Unit::Mega => 20,
            Unit::Giga => 30,
            Unit::Tera => 40,
        }
    }

    /// The text that stands before `B` where an amount is rendered.
    pub fn prefix(&self) -> (text: &'static str)
        ensures
            text@ == self.spec_prefix(),
    {
        proof {
            reveal_strlit("");
            reveal_strlit("Ki");
            reveal_strlit("Mi");
            reveal_strlit("Gi");
            reveal_strlit("Ti");
        }
        match self {
            Unit::Byte => "",
            Unit::Kilo => "Ki",
            Unit::Mega => "Mi",
            Unit::Giga => "Gi",
            Unit::Tera => "Ti",
        }
    }

    /// The prefix as an owned string: `""`, `"Ki"`, `"Mi"`, `"Gi"` or `"Ti"`.
    pub fn render(&self) -> (text: String)
        ensures
            text@ == self.spec_prefix(),
    {
        self.prefix().to_owned()
    }

    /// Every scale factor is a power of two, ten binary orders per rung, and
    /// the tag of a unit carries the unit's scale factor.
    pub proof fn lemma_scale_is_power(&self)
        ensures
            self.scale() == pow2(self.exponent() as nat),
            self.exponent() == 10 * self.rung(),
            self.scale() == self.to_value().factor(),
    {
        lemma2_to64();
        lemma2_to64_rest();
    }

    /// The ladder ascends strictly: a higher rung has a larger scale factor.
    pub proof fn lemma_scale_ascends(&self, other: &Unit)
        ensures
            self.rung() < other.rung() <==> self.scale() < other.scale(),
            self.rung() == other.rung() <==> self == other,
    {
    }
}

} // verus!
