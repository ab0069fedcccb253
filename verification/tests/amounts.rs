use byte_amount::{Amount, Unit};

fn detect(bytes: f64) -> Amount {
    Amount::auto_detect(bytes.to_bits())
}

#[test]
fn amount_new() {
    let amount = Amount::new(100.0_f64.to_bits(), Unit::Giga);

    assert_eq!(f64::from_bits(amount.bytes()), 100.0);
    assert_eq!(amount.unit(), Unit::Giga);
}

#[test]
fn amount_bytes() {
    let amount = detect(32_f64 * 1024_f64);

    assert_eq!(f64::from_bits(amount.bytes()), 32768_f64)
}

#[test]
fn amount_quantity() {
    let amount = detect(32_f64 * 1024_f64);

    assert_eq!(f64::from_bits(amount.quantity()), 32_f64)
}

#[test]
fn amount_unit() {
    let amount = detect(32_f64 * 1024_f64);

    assert_eq!(amount.unit(), Unit::Kilo)
}

#[test]
fn amount_auto_detect() {
    assert_eq!(detect(-1.0).unit(), Unit::Byte);
    assert_eq!(detect(0.0).unit(), Unit::Byte);
    assert_eq!(detect(42.0).unit(), Unit::Byte);
    assert_eq!(detect(2048.0).unit(), Unit::Kilo);
    assert_eq!(detect(1234567.0).unit(), Unit::Mega);
    assert_eq!(detect(1234567890.0).unit(), Unit::Giga);
    assert_eq!(detect(1234567890123.0).unit(), Unit::Tera);
}

#[test]
fn amount_display() {
    assert_eq!(detect(42.0).render(), "42.0 B");
    assert_eq!(detect(200124.42).render(), "195.4 KiB");
}

#[test]
fn non_positive_counts_are_clamped() {
    for bytes in [-1.0, -0.0, 0.0, -1e300, f64::NEG_INFINITY, -f64::MIN_POSITIVE, -5e-324] {
        let amount = detect(bytes);
        assert_eq!(amount.bytes(), 0.0_f64.to_bits());
        assert_eq!(amount.unit(), Unit::Byte);
        assert_eq!(f64::from_bits(amount.quantity()), 0.0);
        assert_eq!(amount.render(), "0.0 B");
    }
}

#[test]
fn positive_counts_are_kept() {
    for bytes in [5e-324, 0.5, 1.0, 42.0, 1024.0, 200124.42, 1e15, f64::MAX, f64::INFINITY] {
        assert_eq!(detect(bytes).bytes(), bytes.to_bits());
    }
}

#[test]
fn small_counts_stay_in_bytes() {
    assert_eq!(detect(5e-324).unit(), Unit::Byte);
    assert_eq!(detect(0.25).unit(), Unit::Byte);
    assert_eq!(detect(1.0).unit(), Unit::Byte);
    assert_eq!(detect(1.5).unit(), Unit::Byte);
}

#[test]
fn exact_powers_stop_one_rung_short() {
    assert_eq!(detect(1024.0).unit(), Unit::Byte);
    assert_eq!(detect(1024.0 * 1024.0).unit(), Unit::Kilo);
    assert_eq!(detect(1024.0 * 1024.0 * 1024.0).unit(), Unit::Mega);
    assert_eq!(detect(1099511627776.0).unit(), Unit::Giga);
}

#[test]
fn just_above_a_power_climbs() {
    let next = |x: f64| f64::from_bits(x.to_bits() + 1);
    assert_eq!(detect(next(1024.0)).unit(), Unit::Kilo);
    assert_eq!(detect(next(1048576.0)).unit(), Unit::Mega);
    assert_eq!(detect(next(1073741824.0)).unit(), Unit::Giga);
    assert_eq!(detect(next(1099511627776.0)).unit(), Unit::Tera);
}

#[test]
fn ladder_is_capped() {
    assert_eq!(detect(1e13).unit(), Unit::Tera);
    assert_eq!(detect(1e100).unit(), Unit::Tera);
    assert_eq!(detect(f64::MAX).unit(), Unit::Tera);
    assert_eq!(detect(f64::INFINITY).unit(), Unit::Tera);
}

#[test]
fn nan_is_stored_and_shown_in_bytes() {
    let amount = detect(f64::NAN);
    assert!(f64::from_bits(amount.bytes()).is_nan());
    assert_eq!(amount.unit(), Unit::Byte);
    assert!(f64::from_bits(amount.quantity()).is_nan());
    assert_eq!(amount.render(), "NaN B");
}

#[test]
fn seed_scenarios() {
    let a = detect(2048.0);
    assert_eq!(a.unit(), Unit::Kilo);
    assert_eq!(f64::from_bits(a.bytes()), 2048.0);
    assert_eq!(f64::from_bits(a.quantity()), 2.0);
    assert_eq!(a.render(), "2.0 KiB");

    let b = detect(1234567.0);
    assert_eq!(b.unit(), Unit::Mega);
    assert_eq!(f64::from_bits(b.bytes()), 1234567.0);
    assert!((f64::from_bits(b.quantity()) - 1.18).abs() < 0.01);
    assert_eq!(b.render(), "1.2 MiB");

    let c = detect(200124.42);
    assert_eq!(c.unit(), Unit::Kilo);
    assert_eq!(f64::from_bits(c.bytes()), 200124.42);
    assert!((f64::from_bits(c.quantity()) - 195.4).abs() < 0.05);

    let d = detect(42.0);
    assert_eq!(f64::from_bits(d.quantity()), 42.0);
    assert_eq!(detect(1234567890.0).render(), "1.1 GiB");
    assert_eq!(detect(1234567890123.0).render(), "1.1 TiB");
}

#[test]
fn quantity_in_bytes_is_the_count() {
    for bytes in [0.0_f64, -0.0, 1.0, 42.5, 5e-324, f64::MAX, f64::INFINITY, -3.25] {
        let amount = Amount::new(bytes.to_bits(), Unit::Byte);
        assert_eq!(amount.quantity(), bytes.to_bits());
    }
}

#[test]
fn quantity_times_scale_is_the_count() {
    for unit in [Unit::Byte, Unit::Kilo, Unit::Mega, Unit::Giga, Unit::Tera] {
        for bytes in [1.0_f64, 42.0, 200124.42, 1e-290, 1e300, 3.5e-5, -7.75] {
            let amount = Amount::new(bytes.to_bits(), unit);
            let back = f64::from_bits(amount.quantity()) * unit.scale() as f64;
            assert_eq!(back, bytes);
        }
    }
}

#[test]
fn quantity_below_the_normal_range_is_within_half_a_step() {
    // One step of the subnormal grid is 2^-1074; the quotient is off by at
    // most half of it, so the product by at most half a step times the scale.
    let step = f64::from_bits(1);
    for unit in [Unit::Kilo, Unit::Mega, Unit::Giga, Unit::Tera] {
        for bytes in [1e-300_f64, 3e-308, 5e-324, 1.2345e-310, -9.87e-305] {
            let amount = Amount::new(bytes.to_bits(), unit);
            let scale = unit.scale() as f64;
            let back = f64::from_bits(amount.quantity()) * scale;
            assert!((back - bytes).abs() <= step * scale / 2.0);
        }
    }
}

#[test]
fn new_stores_what_it_is_given() {
    let amount = Amount::new(1.0_f64.to_bits(), Unit::Tera);
    assert_eq!(amount.bytes(), 0x3ff0_0000_0000_0000);
    assert_eq!(amount.unit(), Unit::Tera);
    assert_eq!(amount.render(), "0.0 TiB");
    let negative = Amount::new((-2048.0_f64).to_bits(), Unit::Kilo);
    assert_eq!(f64::from_bits(negative.bytes()), -2048.0);
    assert_eq!(negative.render(), "-2.0 KiB");
}

#[test]
fn larger_counts_never_get_a_lower_unit() {
    let rung = |u: Unit| match u {
        Unit::Byte => 0,
        Unit::Kilo => 1,
        Unit::Mega => 2,
        Unit::Giga => 3,
        Unit::Tera => 4,
    };
    let counts = [
        5e-324, 0.5, 1.0, 1.5, 1023.9, 1024.0, 1024.1, 1e6, 1048576.0, 1048577.0, 1e9,
        1073741824.0, 1073741825.0, 1e12, 1099511627776.0, 1099511627777.0, 1e20, f64::MAX,
    ];
    for pair in counts.windows(2) {
        assert!(pair[0] < pair[1]);
        assert!(rung(detect(pair[0]).unit()) <= rung(detect(pair[1]).unit()));
    }
}
