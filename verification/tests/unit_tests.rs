use rpxlog_core::unit::{unit_exponent, value_with_unit, UnitError};

fn scaled(number: &str, exponent: Option<i8>) -> f64 {
    let n: f64 = number.parse().unwrap();
    match exponent {
        Some(e) => n * 10f64.powi(e as i32),
        None => 0.0,
    }
}

#[test]
fn unit_it_works() {
    let dst = value_with_unit("-2.83mA").unwrap();
    assert_eq!(dst.number, "-2.83");
    assert_eq!(dst.unit, "mA");
    assert_eq!(dst.exponent, Some(-3));
    assert!((scaled(&dst.number, dst.exponent) - (-0.00283)).abs() < 1e-12);

    let dst = value_with_unit("-2.83A").unwrap();
    assert_eq!(dst.number, "-2.83");
    assert_eq!(dst.unit, "A");
    assert_eq!(dst.exponent, Some(0));
    assert!((scaled(&dst.number, dst.exponent) - (-2.83)).abs() < 1e-12);
}

#[test]
fn unit_table_voltages() {
    assert_eq!(unit_exponent("GV"), Some(9));
    assert_eq!(unit_exponent("MV"), Some(6));
    assert_eq!(unit_exponent("kV"), Some(3));
    assert_eq!(unit_exponent("V"), Some(0));
    assert_eq!(unit_exponent("mV"), Some(-3));
    assert_eq!(unit_exponent("uV"), Some(-6));
    assert_eq!(unit_exponent("nV"), Some(-9));
    assert_eq!(unit_exponent("pV"), Some(-12));
    assert_eq!(unit_exponent("fV"), Some(-15));
}

#[test]
fn unit_table_currents_and_prefixes() {
    assert_eq!(unit_exponent("GA"), Some(9));
    assert_eq!(unit_exponent("MA"), Some(6));
    assert_eq!(unit_exponent("kA"), Some(3));
    assert_eq!(unit_exponent("A"), Some(0));
    assert_eq!(unit_exponent("mA"), Some(-3));
    assert_eq!(unit_exponent("uA"), Some(-6));
    assert_eq!(unit_exponent("nA"), Some(-9));
    assert_eq!(unit_exponent("pA"), Some(-12));
    assert_eq!(unit_exponent("G"), Some(9));
    assert_eq!(unit_exponent("M"), Some(6));
    assert_eq!(unit_exponent("k"), Some(3));
    assert_eq!(unit_exponent(""), Some(0));
    assert_eq!(unit_exponent("m"), Some(-3));
    assert_eq!(unit_exponent("u"), Some(-6));
    assert_eq!(unit_exponent("n"), Some(-9));
    assert_eq!(unit_exponent("p"), Some(-12));
}

#[test]
fn unit_outside_table_has_no_scale() {
    assert_eq!(unit_exponent("fA"), None);
    assert_eq!(unit_exponent("sec"), None);
    assert_eq!(unit_exponent("v"), None);
    assert_eq!(unit_exponent("m V"), None);
}

#[test]
fn unit_white_space_around_is_ignored() {
    assert_eq!(unit_exponent(" mV "), unit_exponent("mV"));
    assert_eq!(unit_exponent("\tuA\n"), Some(-6));
    assert_eq!(unit_exponent("   "), Some(0));
}

#[test]
fn value_with_blank_before_unit() {
    let v = value_with_unit("-0.236 V").unwrap();
    assert_eq!(v.number, "-0.236");
    assert_eq!(v.unit, " V");
    assert_eq!(v.exponent, Some(0));
}

#[test]
fn value_first_number_is_taken() {
    let v = value_with_unit("Temp 25C then 30C").unwrap();
    assert_eq!(v.number, "25");
    assert_eq!(v.unit, "C then ");
    assert_eq!(v.exponent, None);
}

#[test]
fn value_fractions_without_leading_digit() {
    let v = value_with_unit(".5uA").unwrap();
    assert_eq!(v.number, ".5");
    assert_eq!(v.unit, "uA");
    assert_eq!(v.exponent, Some(-6));
    assert!((scaled(&v.number, v.exponent) - 0.5e-6).abs() < 1e-18);
}

#[test]
fn value_without_number_is_refused() {
    assert!(matches!(value_with_unit("mA"), Err(UnitError::NoNumber)));
    assert!(matches!(value_with_unit(""), Err(UnitError::NoNumber)));
}

#[test]
fn value_with_malformed_number_is_refused() {
    assert!(matches!(value_with_unit("--V"), Err(UnitError::BadNumber)));
    assert!(matches!(value_with_unit("1.2.3V"), Err(UnitError::BadNumber)));
    assert!(matches!(value_with_unit(".V"), Err(UnitError::BadNumber)));
}

#[test]
fn base_unit_after_prefix_keeps_scale() {
    for p in ["G", "M", "k", "", "m", "u", "n", "p"] {
        assert_eq!(unit_exponent(&format!("{}V", p)), unit_exponent(p));
        assert_eq!(unit_exponent(&format!("{}A", p)), unit_exponent(p));
    }
}
