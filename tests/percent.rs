use fees::percent::{
    format_percent, parse_percent, validate_decimal_part, NumberErrorKind, ParseError,
};

#[test]
fn test_parse_percent() {
    assert_eq!(parse_percent("10").unwrap(), 1000);
    assert_eq!(parse_percent("2").unwrap(), 200);
    assert_eq!(parse_percent("0.25").unwrap(), 25);
    assert_eq!(parse_percent("0.01").unwrap(), 1);
    assert!(matches!(
        parse_percent("0.015").err(),
        Some(ParseError::TooManyDecimals)
    ));
    assert!(matches!(
        parse_percent("0.009").err(),
        Some(ParseError::TooManyDecimals)
    ));
    assert!(matches!(
        parse_percent("10.1").err(),
        Some(ParseError::TooHighPercent)
    ));
    assert!(matches!(
        parse_percent("hello").err(),
        Some(ParseError::InvalidNumber(_))
    ));
}

#[test]
fn parse_accepts_sign_and_bare_dot_forms() {
    assert_eq!(parse_percent("+7.5"), Ok(750));
    assert_eq!(parse_percent(".5"), Ok(50));
    assert_eq!(parse_percent("5."), Ok(500));
    assert_eq!(parse_percent("007.05"), Ok(705));
    assert_eq!(parse_percent("0.29"), Ok(29));
}

#[test]
fn parse_rejects_low_values() {
    assert_eq!(parse_percent("0"), Err(ParseError::TooLowPercent));
    assert_eq!(parse_percent("0.00"), Err(ParseError::TooLowPercent));
    assert_eq!(parse_percent("-1"), Err(ParseError::TooLowPercent));
    assert_eq!(parse_percent("-0"), Err(ParseError::TooLowPercent));
}

#[test]
fn parse_rejects_high_values() {
    assert_eq!(parse_percent("10.01"), Err(ParseError::TooHighPercent));
    assert_eq!(parse_percent("12.12"), Err(ParseError::TooHighPercent));
    assert_eq!(
        parse_percent("123456789012345678901234567890"),
        Err(ParseError::TooHighPercent)
    );
}

#[test]
fn parse_rejects_non_numbers() {
    assert_eq!(
        parse_percent(""),
        Err(ParseError::InvalidNumber(NumberErrorKind::Empty))
    );
    assert_eq!(
        parse_percent("."),
        Err(ParseError::InvalidNumber(NumberErrorKind::Invalid))
    );
    assert_eq!(
        parse_percent("+"),
        Err(ParseError::InvalidNumber(NumberErrorKind::Invalid))
    );
    assert_eq!(
        parse_percent("1.2.3"),
        Err(ParseError::TooManyDecimals)
    );
    assert_eq!(
        parse_percent("1.2."),
        Err(ParseError::InvalidNumber(NumberErrorKind::Invalid))
    );
    assert_eq!(
        parse_percent("5 "),
        Err(ParseError::InvalidNumber(NumberErrorKind::Invalid))
    );
}

#[test]
fn long_fraction_is_rejected_before_anything_else() {
    assert_eq!(parse_percent("abc.defg"), Err(ParseError::TooManyDecimals));
    assert_eq!(parse_percent("99.999"), Err(ParseError::TooManyDecimals));
    assert_eq!(validate_decimal_part("1.234"), Err(ParseError::TooManyDecimals));
    assert_eq!(validate_decimal_part("1.23"), Ok(()));
    assert_eq!(validate_decimal_part("123"), Ok(()));
    assert_eq!(validate_decimal_part("x.yz"), Ok(()));
}

#[test]
fn format_writes_two_decimals() {
    assert_eq!(format_percent(500), "5.00");
    assert_eq!(format_percent(750), "7.50");
    assert_eq!(format_percent(1), "0.01");
    assert_eq!(format_percent(1000), "10.00");
    assert_eq!(format_percent(1234567), "12345.67");
}

#[test]
fn parse_then_format_normalizes() {
    assert_eq!(format_percent(parse_percent("2").unwrap()), "2.00");
    assert_eq!(format_percent(parse_percent("02.5").unwrap()), "2.50");
    assert_eq!(format_percent(parse_percent("+0.07").unwrap()), "0.07");
}

#[test]
fn format_then_parse_round_trips() {
    for p in [1u64, 9, 10, 99, 100, 101, 500, 999, 1000] {
        assert_eq!(parse_percent(&format_percent(p)), Ok(p));
    }
}

#[test]
fn parse_error_messages() {
    assert_eq!(
        ParseError::TooManyDecimals.message(),
        "provided percent could contain only 2 decimals"
    );
    assert_eq!(
        ParseError::TooHighPercent.message(),
        "provided percent is more than 10%"
    );
    assert_eq!(
        ParseError::TooLowPercent.message(),
        "provided percent is less than 0.01%"
    );
    assert_eq!(
        ParseError::InvalidNumber(NumberErrorKind::Empty).message(),
        "cannot parse float from empty string"
    );
    assert_eq!(
        ParseError::InvalidNumber(NumberErrorKind::Invalid).message(),
        "invalid float literal"
    );
}

#[test]
fn parse_accepts_exponents() {
    assert_eq!(parse_percent("1e1"), Ok(1000));
    assert_eq!(parse_percent("1E0"), Ok(100));
    assert_eq!(parse_percent("5e-1"), Ok(50));
    assert_eq!(parse_percent("+25e-2"), Ok(25));
    assert_eq!(parse_percent("1.e1"), Ok(1000));
    assert_eq!(parse_percent("1e-2"), Ok(1));
    assert_eq!(parse_percent("15e-3"), Ok(1));
    assert_eq!(parse_percent("123456789e-8"), Ok(123));
    assert_eq!(parse_percent("0.0001e4"), Err(ParseError::TooManyDecimals));
    assert_eq!(parse_percent("1e2"), Err(ParseError::TooHighPercent));
    assert_eq!(parse_percent("1e-3"), Err(ParseError::TooLowPercent));
    assert_eq!(parse_percent("0e5"), Err(ParseError::TooLowPercent));
    assert_eq!(parse_percent("-1e1"), Err(ParseError::TooLowPercent));
    assert_eq!(
        parse_percent("1e99999999999999999999999999999999999999999"),
        Err(ParseError::TooHighPercent)
    );
    assert_eq!(
        parse_percent("5e-99999999999999999999999999999999999999999"),
        Err(ParseError::TooLowPercent)
    );
}

#[test]
fn parse_rejects_broken_exponents() {
    for text in ["1e", "1e+", "1e-", "e5", "1e5.0", "1ee2", "1e2x", ".e1"] {
        assert_eq!(
            parse_percent(text),
            Err(ParseError::InvalidNumber(NumberErrorKind::Invalid)),
            "{}",
            text
        );
    }
}

#[test]
fn parse_reads_infinities_and_nan() {
    assert_eq!(parse_percent("inf"), Err(ParseError::TooHighPercent));
    assert_eq!(parse_percent("+Infinity"), Err(ParseError::TooHighPercent));
    assert_eq!(parse_percent("INF"), Err(ParseError::TooHighPercent));
    assert_eq!(parse_percent("-inf"), Err(ParseError::TooLowPercent));
    assert_eq!(parse_percent("NaN"), Err(ParseError::TooLowPercent));
    assert_eq!(parse_percent("-nan"), Err(ParseError::TooLowPercent));
    assert_eq!(
        parse_percent("infinit"),
        Err(ParseError::InvalidNumber(NumberErrorKind::Invalid))
    );
}

#[test]
fn decimals_are_counted_in_bytes() {
    assert_eq!(parse_percent("1.\u{e9}a"), Err(ParseError::TooManyDecimals));
    assert_eq!(validate_decimal_part("1.\u{e9}a"), Err(ParseError::TooManyDecimals));
    assert_eq!(validate_decimal_part("1.\u{e9}"), Ok(()));
    assert_eq!(
        parse_percent("1.\u{e9}"),
        Err(ParseError::InvalidNumber(NumberErrorKind::Invalid))
    );
}
