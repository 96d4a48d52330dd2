use scinote::{Coefficient, SciError, SciNote};

fn parsed(input: &str) -> SciNote {
    SciNote::parse_from_str(input).unwrap()
}

#[test]
fn parse_keeps_the_coefficient_as_written() {
    let value = parsed("315.20x10^7");
    assert_eq!(value.coefficient.mantissa, 31520);
    assert_eq!(value.coefficient.scale, 2);
    assert_eq!(value.exponent, 7);
    assert_eq!(value.display_decimals, None);
}

#[test]
fn parse_negative_coefficient_and_exponent() {
    let value = parsed("-0.0042x10^-7");
    assert_eq!(value.coefficient.mantissa, -42);
    assert_eq!(value.coefficient.scale, 4);
    assert_eq!(value.exponent, -7);
}

#[test]
fn parse_leading_zeros_do_not_count_against_the_mantissa() {
    let value = parsed("000000000000000000000000000000000012.5x10^0007");
    assert_eq!(value.coefficient.mantissa, 125);
    assert_eq!(value.coefficient.scale, 1);
    assert_eq!(value.exponent, 7);
}

#[test]
fn parse_mantissa_at_both_64_bit_bounds() {
    let top = parsed("9223372036854775807x10^0");
    assert_eq!(top.coefficient.mantissa, i64::MAX);
    let bottom = parsed("-9223372036854775808x10^0");
    assert_eq!(bottom.coefficient.mantissa, i64::MIN);
    assert_eq!(bottom.coefficient.scale, 0);
}

#[test]
fn parse_mantissa_one_past_the_64_bit_bounds_fails() {
    assert!(matches!(
        SciNote::parse_from_str("9223372036854775808x10^0"),
        Err(SciError::ParseError(_))
    ));
    assert!(matches!(
        SciNote::parse_from_str("-9223372036854775809x10^0"),
        Err(SciError::ParseError(_))
    ));
}

#[test]
fn parse_coefficient_one_digit_longer_than_the_bound_fails() {
    assert!(SciNote::parse_from_str("9.223372036854775807x10^-5").is_ok());
    assert!(matches!(
        SciNote::parse_from_str("9.2233720368547758070x10^-5"),
        Err(SciError::ParseError(_))
    ));
    assert!(matches!(
        SciNote::parse_from_str("19.223372036854775807x10^-5"),
        Err(SciError::ParseError(_))
    ));
    let moved = SciNote::parse_from_str("92.23372036854775807x10^-5").unwrap();
    assert_eq!(moved.coefficient.mantissa, i64::MAX);
    assert_eq!(moved.coefficient.scale, 17);
}

#[test]
fn parse_very_long_coefficient_fails() {
    let input = format!("{}x10^1", "7".repeat(64));
    assert!(matches!(SciNote::parse_from_str(&input), Err(SciError::ParseError(_))));
}

#[test]
fn parse_scale_limit() {
    let at_limit = format!("0.{}1x10^0", "0".repeat(27));
    let value = parsed(&at_limit);
    assert_eq!(value.coefficient.mantissa, 1);
    assert_eq!(value.coefficient.scale, 28);
    let past_limit = format!("0.{}1x10^0", "0".repeat(28));
    assert!(matches!(SciNote::parse_from_str(&past_limit), Err(SciError::ParseError(_))));
}

#[test]
fn parse_exponent_bounds() {
    assert_eq!(parsed("1x10^32767").exponent, i16::MAX);
    assert_eq!(parsed("1x10^-32768").exponent, i16::MIN);
    assert_eq!(parsed("1x10^-0").exponent, 0);
    assert!(matches!(SciNote::parse_from_str("1x10^32768"), Err(SciError::ParseError(_))));
    assert!(matches!(SciNote::parse_from_str("1x10^-32769"), Err(SciError::ParseError(_))));
    assert!(matches!(
        SciNote::parse_from_str("1x10^99999999999999999999999"),
        Err(SciError::ParseError(_))
    ));
}

#[test]
fn parse_separator_missing_or_repeated_is_a_format_error() {
    assert!(matches!(SciNote::parse_from_str("asd1234"), Err(SciError::FormatError(_))));
    assert!(matches!(SciNote::parse_from_str(""), Err(SciError::FormatError(_))));
    assert!(matches!(SciNote::parse_from_str("5X10^3"), Err(SciError::FormatError(_))));
    assert!(matches!(SciNote::parse_from_str("5x10 ^3"), Err(SciError::FormatError(_))));
    assert!(matches!(SciNote::parse_from_str("2x10^x10^-23"), Err(SciError::FormatError(_))));
    assert!(matches!(SciNote::parse_from_str("2x10^3x10^"), Err(SciError::FormatError(_))));
}

#[test]
fn parse_malformed_parts_are_parse_errors() {
    for input in [
        "x10^3", "5x10^", "x10^", "2ax10^-20", "2x10^-23.4", "2x10^3a", "+5x10^3", "5x10^+3",
        "1_000x10^3", "1e3x10^3", "5.x10^3", ".5x10^3", "-x10^3", "5x10^-", "1.2.3x10^3",
        "--5x10^3", "5x10^--3", " 5x10^3", "5x10^3 ", "5 x10^3", "٥x10^3",
    ] {
        assert!(
            matches!(SciNote::parse_from_str(input), Err(SciError::ParseError(_))),
            "{}",
            input
        );
    }
}

#[test]
fn coefficient_parse_reads_a_decimal_literal() {
    let value = Coefficient::parse_from_str("-12.340").unwrap();
    assert_eq!(value.mantissa, -12340);
    assert_eq!(value.scale, 3);
    let zero = Coefficient::parse_from_str("-0.0").unwrap();
    assert_eq!(zero.mantissa, 0);
    assert_eq!(zero.scale, 1);
    assert!(matches!(Coefficient::parse_from_str(""), Err(SciError::ParseError(_))));
    assert!(matches!(Coefficient::parse_from_str("-"), Err(SciError::ParseError(_))));
    assert!(matches!(Coefficient::parse_from_str("1,5"), Err(SciError::ParseError(_))));
}

#[test]
fn coefficient_parse_long_literal_takes_the_wide_path() {
    let value = Coefficient::parse_from_str("0.0000000000000000001234567").unwrap();
    assert_eq!(value.mantissa, 1234567);
    assert_eq!(value.scale, 25);
    let wide = Coefficient::parse_from_str("-92233720368.54775808").unwrap();
    assert_eq!(wide.mantissa, i64::MIN);
    assert_eq!(wide.scale, 8);
}

#[test]
fn coefficient_parse_at_the_widest_literals() {
    let value = Coefficient::parse_from_str("0.0000000009223372036854775807").unwrap();
    assert_eq!(value.mantissa, i64::MAX);
    assert_eq!(value.scale, 28);
    let value = Coefficient::parse_from_str("-0.0000000009223372036854775808").unwrap();
    assert_eq!(value.mantissa, i64::MIN);
    assert_eq!(value.scale, 28);
    for input in [
        "0.0000000009223372036854775808",
        "-0.0000000009223372036854775809",
        "1234567890123456789012345678",
        "-9999999999999999999999999999",
        "0.9999999999999999999999999999",
        "99999999999999999999999999999",
        "79228162514264337593543950335",
        "79228162514264337593543950336",
        "1.00000000000000000000000000000",
        "0.00000000000000000000000000000",
    ] {
        assert!(
            matches!(Coefficient::parse_from_str(input), Err(SciError::ParseError(_))),
            "{}",
            input
        );
    }
    let zero = Coefficient::parse_from_str("0.0000000000000000000000000000").unwrap();
    assert_eq!((zero.mantissa, zero.scale), (0, 28));
    let zero = Coefficient::parse_from_str("-000000000000000000000000000000000000.0").unwrap();
    assert_eq!((zero.mantissa, zero.scale), (0, 1));
}
