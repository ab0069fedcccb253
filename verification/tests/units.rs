use byte_amount::{Unit, UnitValue};

#[test]
fn unit_to_value() {
    assert_eq!(Unit::Byte.to_value(), UnitValue::Byte);
    assert_eq!(Unit::Kilo.to_value(), UnitValue::Kilo);
    assert_eq!(Unit::Mega.to_value(), UnitValue::Mega);
    assert_eq!(Unit::Giga.to_value(), UnitValue::Giga);
    assert_eq!(Unit::Tera.to_value(), UnitValue::Tera);
}

#[test]
fn unit_format() {
    assert_eq!(Unit::Byte.render(), String::from(""));
    assert_eq!(Unit::Kilo.render(), String::from("Ki"));
    assert_eq!(Unit::Mega.render(), String::from("Mi"));
    assert_eq!(Unit::Giga.render(), String::from("Gi"));
    assert_eq!(Unit::Tera.render(), String::from("Ti"));
}

#[test]
fn scale_table() {
    assert_eq!(Unit::Byte.scale(), 1);
    assert_eq!(Unit::Kilo.scale(), 1024);
    assert_eq!(Unit::Mega.scale(), 1_048_576);
    assert_eq!(Unit::Giga.scale(), 1_073_741_824);
    assert_eq!(Unit::Tera.scale(), 1_099_511_627_776);
}

#[test]
fn value_factors() {
    assert_eq!(UnitValue::Byte.factor(), 1);
    assert_eq!(UnitValue::Kilo.factor(), 1 << 10);
    assert_eq!(UnitValue::Mega.factor(), 1 << 20);
    assert_eq!(UnitValue::Giga.factor(), 1 << 30);
    assert_eq!(UnitValue::Tera.factor(), 1 << 40);
}

#[test]
fn scale_is_two_to_the_exponent() {
    for unit in [Unit::Byte, Unit::Kilo, Unit::Mega, Unit::Giga, Unit::Tera] {
        assert_eq!(unit.scale(), 1u64 << unit.exponent());
        assert_eq!(unit.scale(), unit.to_value().factor());
    }
}

#[test]
fn prefix_table() {
    assert_eq!(Unit::Byte.prefix(), "");
    assert_eq!(Unit::Kilo.prefix(), "Ki");
    assert_eq!(Unit::Mega.prefix(), "Mi");
    assert_eq!(Unit::Giga.prefix(), "Gi");
    assert_eq!(Unit::Tera.prefix(), "Ti");
}
