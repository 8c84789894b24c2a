use best_rates::rat::{parse_positive_decimal, Rat};

#[test]
fn parses_plain_integers_and_decimals() {
    assert_eq!(parse_positive_decimal("1000"), Some(Rat::new(1000, 1)));
    assert_eq!(parse_positive_decimal("1000.0"), Some(Rat::new(1000, 1)));
    assert_eq!(parse_positive_decimal("0.0009"), Some(Rat::new(9, 10000)));
    assert_eq!(parse_positive_decimal("0.0008"), Some(Rat::new(1, 1250)));
    assert_eq!(parse_positive_decimal("1.1"), Some(Rat::new(11, 10)));
    assert_eq!(parse_positive_decimal("007"), Some(Rat::new(7, 1)));
}

#[test]
fn rejects_malformed_decimals() {
    assert_eq!(parse_positive_decimal(""), None);
    assert_eq!(parse_positive_decimal("1abc00"), None);
    assert_eq!(parse_positive_decimal("0.xx0009"), None);
    assert_eq!(parse_positive_decimal(".5"), None);
    assert_eq!(parse_positive_decimal("5."), None);
    assert_eq!(parse_positive_decimal("1.2.3"), None);
    assert_eq!(parse_positive_decimal("-5"), None);
    assert_eq!(parse_positive_decimal("+5"), None);
    assert_eq!(parse_positive_decimal(" 5"), None);
}

#[test]
fn rejects_zero_and_out_of_range_values() {
    assert_eq!(parse_positive_decimal("0"), None);
    assert_eq!(parse_positive_decimal("0.000"), None);
    // a 20-digit mantissa exceeds u64
    assert_eq!(parse_positive_decimal("99999999999999999999"), None);
    // 20 fractional digits exceed the supported scale
    assert_eq!(parse_positive_decimal("0.00000000000000000001"), None);
    assert_eq!(parse_positive_decimal("18446744073709551615"), Some(Rat::new(u64::MAX, 1)));
}

#[test]
fn comparison_and_multiplication_are_exact() {
    let a = Rat::new(1, 3);
    let b = Rat::new(333333333333, 1000000000000);
    // 1/3 > 0.333333333333
    assert!(b.lt(a));
    assert!(!a.lt(b));
    assert!(!a.lt(a));
    let c = Rat::new(2, 3).checked_mul(Rat::new(3, 2));
    assert_eq!(c, Some(Rat::new(1, 1)));
    let big = Rat::new(u64::MAX, 1);
    assert_eq!(big.checked_mul(big), None);
    assert_eq!(Rat::new(1000, 1).checked_mul(Rat::new(9, 10000)), Some(Rat::new(9, 10)));
}
