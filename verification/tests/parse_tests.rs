use ml_cli::parse::{parse_class_field, parse_field, SCALE};

#[test]
fn parses_integers() {
    assert_eq!(parse_field("0"), Some(0));
    assert_eq!(parse_field("7"), Some(7 * SCALE));
    assert_eq!(parse_field("007"), Some(7 * SCALE));
    assert_eq!(parse_field("-3"), Some(-3 * SCALE));
    assert_eq!(parse_field("-0"), Some(0));
}

#[test]
fn parses_fractions() {
    assert_eq!(parse_field("0.5"), Some(500000));
    assert_eq!(parse_field("-12.75"), Some(-12750000));
    assert_eq!(parse_field("1.000001"), Some(1000001));
    assert_eq!(parse_field("2.10"), Some(2100000));
    assert_eq!(parse_field("0.000001"), Some(1));
}

#[test]
fn rejects_bad_fields() {
    assert_eq!(parse_field(""), None);
    assert_eq!(parse_field("-"), None);
    assert_eq!(parse_field("."), None);
    assert_eq!(parse_field(".5"), None);
    assert_eq!(parse_field("5."), None);
    assert_eq!(parse_field("1.2.3"), None);
    assert_eq!(parse_field("abc"), None);
    assert_eq!(parse_field("1e3"), None);
    assert_eq!(parse_field("1.2345678"), None);
    assert_eq!(parse_field(" 1"), None);
    assert_eq!(parse_field("+1"), None);
}

#[test]
fn rejects_out_of_range_magnitudes() {
    assert_eq!(parse_field("9223372036854775808"), None);
    assert_eq!(parse_field("9223372036854"), Some(9223372036854 * SCALE));
    assert_eq!(parse_field("9223372036855"), None);
}

#[test]
fn truncates_labels_toward_zero() {
    assert_eq!(parse_class_field("3"), Some(3));
    assert_eq!(parse_class_field("1.7"), Some(1));
    assert_eq!(parse_class_field("0.9"), Some(0));
    assert_eq!(parse_class_field("-1.2"), Some(0));
    assert_eq!(parse_class_field("x"), None);
}
