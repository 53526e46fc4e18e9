use order_discount::parse_amount;

#[test]
fn parses_plain_decimals() {
    assert!(parse_amount("0").is_some());
    assert!(parse_amount("2500.00").is_some());
    assert!(parse_amount("-17.5").is_some());
    assert!(parse_amount("+3").is_some());
    assert!(parse_amount(".5").is_some());
    assert!(parse_amount("5.").is_some());
}

#[test]
fn rejects_what_is_not_a_decimal() {
    assert!(parse_amount("").is_none());
    assert!(parse_amount(".").is_none());
    assert!(parse_amount("-").is_none());
    assert!(parse_amount("+.").is_none());
    assert!(parse_amount("1e5").is_none());
    assert!(parse_amount("12.34.5").is_none());
    assert!(parse_amount("12a").is_none());
    assert!(parse_amount(" 12").is_none());
    assert!(parse_amount("12 ").is_none());
    assert!(parse_amount("NaN").is_none());
    assert!(parse_amount("inf").is_none());
}

#[test]
fn canonical_form_makes_equal_values_equal() {
    assert_eq!(parse_amount("2500.00"), parse_amount("2500"));
    assert_eq!(parse_amount("007"), parse_amount("7"));
    assert_eq!(parse_amount("-0"), parse_amount("0"));
    assert_eq!(parse_amount("-0.000"), parse_amount("0"));
    assert_eq!(parse_amount("0.50"), parse_amount(".5"));
    assert_ne!(parse_amount("0.5"), parse_amount("0.05"));
}

#[test]
fn comparison_is_numeric() {
    let gt = |a: &str, b: &str| {
        parse_amount(a).unwrap().gt(&parse_amount(b).unwrap())
    };
    assert!(gt("2000.01", "2000"));
    assert!(!gt("2000", "2000.0"));
    assert!(!gt("1999.99", "2000"));
    assert!(gt("10", "9.999999"));
    assert!(gt("0.5", "0.05"));
    assert!(gt("0", "-0.1"));
    assert!(gt("-1", "-2"));
    assert!(!gt("-2", "-1"));
    assert!(!gt("-1", "1"));
    assert!(gt("1", "-1"));
    assert!(!gt("0", "-0"));
    assert!(gt("123456789012345678901234567890", "123456789012345678901234567889"));
    assert!(gt("0.1000000000000000000001", "0.1"));
}
