//! Byte amounts with binary (1024-based) magnitude units.
//!
//! An [`Amount`] is a byte count and the [`Unit`] under which it is shown:
//! `B`, `KiB`, `MiB`, `GiB` or `TiB`. [`Amount::auto_detect`] picks the unit
//! from the count, [`Amount::quantity`] divides the count by the unit's scale
//! factor, and [`Amount::render`] writes the pair as text such as
//! `195.4 KiB`.
//!
//! Byte counts are binary64 floating-point numbers. The library holds them
//! by their bit patterns (`f64::to_bits` and `f64::from_bits` convert) and
//! does all arithmetic on the patterns with integers, so that every result,
//! each rounding included, is stated and proved over natural numbers:
//!
//! - [`binary64`] gives a pattern its value, and divides by powers of two;
//! - [`rounding`] is rounding to nearest, ties to even;
//! - [`ladder`] is the rule that selects a unit;
//! - [`decimal`] and [`notation`] write numbers in decimal;
//! - [`unit`] and [`amount`] hold the two types.

pub mod amount;
pub mod binary64;
pub mod decimal;
pub mod ladder;
pub mod notation;
pub mod rounding;
pub mod unit;

pub use amount::Amount;
pub use unit::{Unit, UnitValue};
