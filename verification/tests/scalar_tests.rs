use onyx::scalar::{is_float_lit, parse_i64, parse_u64, ConfigScalar, ConfigValue};

#[test]
fn string_round_trips_unchanged() {
    let v = ConfigValue::new("abc");
    assert_eq!(v.as_str(), "abc");
    assert_eq!(v.to_output(), ConfigScalar::Text(String::from("abc")));
}

#[test]
fn integer_emits_as_unsigned() {
    let v = ConfigValue::new("42");
    assert_eq!(v.to_output(), ConfigScalar::Uint(42));
}

#[test]
fn plus_signed_integer_is_unsigned() {
    let v = ConfigValue::new("+10");
    assert_eq!(v.to_output(), ConfigScalar::Uint(10));
}

#[test]
fn negative_integer_emits_as_signed() {
    let v = ConfigValue::new("-7");
    assert_eq!(v.to_output(), ConfigScalar::Int(-7));
}

#[test]
fn float_emits_as_float() {
    let v = ConfigValue::new("3.14");
    assert_eq!(v.to_output(), ConfigScalar::Float(String::from("3.14")));
}

#[test]
fn exponent_form_is_a_float() {
    let v = ConfigValue::new("1e3");
    assert_eq!(v.to_output(), ConfigScalar::Float(String::from("1e3")));
}

#[test]
fn ten_is_unsigned_not_float() {
    // specificity order: "10" could parse as a float too, but the
    // unsigned trial comes first
    let v = ConfigValue::new("10");
    assert_eq!(v.to_output(), ConfigScalar::Uint(10));
}

#[test]
fn one_never_emits_as_boolean() {
    let v = ConfigValue::new("1");
    assert_eq!(v.to_output(), ConfigScalar::Uint(1));
}

#[test]
fn boolean_literals_emit_as_booleans() {
    assert_eq!(ConfigValue::new("true").to_output(), ConfigScalar::Boolean(true));
    assert_eq!(ConfigValue::new("false").to_output(), ConfigScalar::Boolean(false));
}

#[test]
fn boolean_parsing_is_literal_only() {
    // only the exact words count: a capitalised form stays a string
    assert_eq!(
        ConfigValue::new("TRUE").to_output(),
        ConfigScalar::Text(String::from("TRUE"))
    );
    assert_eq!(
        ConfigValue::new("True").to_output(),
        ConfigScalar::Text(String::from("True"))
    );
}

#[test]
fn huge_integer_falls_through_to_float() {
    // one past u64::MAX: too big for both integer trials, but a valid
    // float mantissa
    let v = ConfigValue::new("18446744073709551616");
    assert_eq!(
        v.to_output(),
        ConfigScalar::Float(String::from("18446744073709551616"))
    );
}

#[test]
fn u64_boundary_still_unsigned() {
    let v = ConfigValue::new("18446744073709551615");
    assert_eq!(v.to_output(), ConfigScalar::Uint(u64::MAX));
}

#[test]
fn i64_min_is_signed() {
    let v = ConfigValue::new("-9223372036854775808");
    assert_eq!(v.to_output(), ConfigScalar::Int(i64::MIN));
}

#[test]
fn infinity_word_is_a_float() {
    assert_eq!(
        ConfigValue::new("inf").to_output(),
        ConfigScalar::Float(String::from("inf"))
    );
    assert_eq!(
        ConfigValue::new("-Infinity").to_output(),
        ConfigScalar::Float(String::from("-Infinity"))
    );
    assert_eq!(
        ConfigValue::new("NaN").to_output(),
        ConfigScalar::Float(String::from("NaN"))
    );
}

#[test]
fn empty_and_odd_strings_stay_text() {
    assert_eq!(ConfigValue::new("").to_output(), ConfigScalar::Text(String::new()));
    assert_eq!(
        ConfigValue::new("1.2.3").to_output(),
        ConfigScalar::Text(String::from("1.2.3"))
    );
    assert_eq!(
        ConfigValue::new(".").to_output(),
        ConfigScalar::Text(String::from("."))
    );
}

#[test]
fn dotted_fractions_are_floats() {
    assert_eq!(
        ConfigValue::new(".5").to_output(),
        ConfigScalar::Float(String::from(".5"))
    );
    assert_eq!(
        ConfigValue::new("5.").to_output(),
        ConfigScalar::Float(String::from("5."))
    );
}

#[test]
fn unsigned_parse_matches_the_grammar() {
    assert_eq!(parse_u64("18446744073709551615"), Some(u64::MAX));
    assert_eq!(parse_u64("18446744073709551616"), None);
    assert_eq!(parse_u64("+5"), Some(5));
    assert_eq!(parse_u64("-5"), None);
    assert_eq!(parse_u64(""), None);
    assert_eq!(parse_u64("+"), None);
    assert_eq!(parse_u64("5 "), None);
    assert_eq!(parse_u64("0"), Some(0));
}

#[test]
fn signed_parse_matches_the_grammar() {
    assert_eq!(parse_i64("9223372036854775807"), Some(i64::MAX));
    assert_eq!(parse_i64("9223372036854775808"), None);
    assert_eq!(parse_i64("-9223372036854775808"), Some(i64::MIN));
    assert_eq!(parse_i64("-9223372036854775809"), None);
    assert_eq!(parse_i64("-0"), Some(0));
    assert_eq!(parse_i64("-"), None);
}

#[test]
fn float_recognition_matches_the_grammar() {
    assert!(is_float_lit("1e+5"));
    assert!(is_float_lit("-1E9"));
    assert!(is_float_lit("+.5"));
    assert!(is_float_lit("Infinity"));
    assert!(!is_float_lit("1e"));
    assert!(!is_float_lit("e5"));
    assert!(!is_float_lit("."));
    assert!(!is_float_lit("--1"));
    assert!(!is_float_lit("Infx"));
    assert!(!is_float_lit("1.2.3"));
}
