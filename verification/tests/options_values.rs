//! Command options and the fixed-point value type.

use metakit::value::Value;

#[test]
fn mvm_options() {
    let args = vec!["meta".to_string(), "p.m".to_string(), "src.txt".to_string()];
    let o = metakit::mvm::Options::build(args).expect("both paths");
    assert_eq!(o.mpgm_path, "p.m");
    assert_eq!(o.source_path, "src.txt");
    let e = metakit::mvm::Options::build(vec!["meta".to_string()]);
    assert_eq!(e.err(), Some("missing meta machine program path argument"));
    let e = metakit::mvm::Options::build(vec!["meta".to_string(), "p.m".to_string()]);
    assert_eq!(e.err(), Some("missing source file path argument"));
}

#[test]
fn avm_options() {
    let args = vec!["valgol1m".to_string(), "p.v".to_string()];
    let o = metakit::avm::Options::build(args).expect("a path");
    assert_eq!(o.pgm_path, "p.v");
    let e = metakit::avm::Options::build(vec!["valgol1m".to_string()]);
    assert_eq!(e.err(), Some("missing program path argument"));
}

#[test]
fn value_arithmetic_is_exact() {
    let half = Value::from_micros(500000);
    assert_eq!(half.add(half), Value::from_int(1));
    assert_eq!(Value::from_int(2).sub(Value::from_int(5)), Value::from_int(-3));
    assert_eq!(Value::from_micros(2300000).mul(Value::from_int(10)), Value::from_int(23));
    assert!(Value::from_int(7).close_to(Value::from_int(7)));
    assert!(!Value::from_int(7).close_to(Value::from_micros(7000001)));
}

#[test]
fn value_saturates_at_the_ends() {
    let top = Value::from_micros(i64::MAX);
    assert_eq!(top.add(Value::from_int(1)), top);
    let bottom = Value::from_micros(i64::MIN);
    assert_eq!(bottom.sub(Value::from_int(1)), bottom);
}

#[test]
fn value_renders_like_a_decimal() {
    assert_eq!(Value::from_int(5).render(), "5.0");
    assert_eq!(Value::from_micros(2300000).render(), "2.3");
    assert_eq!(Value::from_int(-12).render(), "-12.0");
    assert_eq!(Value::from_micros(120000).render(), "0.12");
}

#[test]
fn rounding_halves_away_from_zero() {
    assert_eq!(Value::from_micros(2500000).round_units(), 3);
    assert_eq!(Value::from_micros(-2500000).round_units(), -3);
    assert_eq!(Value::from_micros(2499999).round_units(), 2);
}
