use scinote::{Coefficient, SciNote};

fn shown(mantissa: i64, scale: u32, exponent: i16, decimals: Option<usize>) -> String {
    let value = SciNote::build().coefficient(Coefficient::new(mantissa, scale)).exponent(exponent);
    match decimals {
        Some(decimals) => value.display_decimals(decimals).to_string(),
        None => value.to_string(),
    }
}

#[test]
fn render_default_precision_is_two() {
    assert_eq!(shown(123456, 5, 0, None), "1.23x10^0");
    assert_eq!(shown(1235, 3, 4, None), "1.23x10^4");
    assert_eq!(shown(12351, 4, 4, None), "1.24x10^4");
}

#[test]
fn render_never_pads() {
    assert_eq!(shown(5, 0, 3, Some(4)), "5x10^3");
    assert_eq!(shown(15, 1, 3, Some(4)), "1.5x10^3");
    assert_eq!(shown(150, 2, 3, Some(4)), "1.50x10^3");
}

#[test]
fn render_tie_goes_toward_zero() {
    assert_eq!(shown(25, 1, 0, Some(0)), "2x10^0");
    assert_eq!(shown(35, 1, 0, Some(0)), "3x10^0");
    assert_eq!(shown(-25, 1, 0, Some(0)), "-2x10^0");
    assert_eq!(shown(1125, 3, 0, Some(2)), "1.12x10^0");
    assert_eq!(shown(2500, 3, 0, Some(0)), "2x10^0");
}

#[test]
fn render_above_and_below_the_tie() {
    assert_eq!(shown(251, 2, 0, Some(0)), "3x10^0");
    assert_eq!(shown(249, 2, 0, Some(0)), "2x10^0");
    assert_eq!(shown(-251, 2, 0, Some(0)), "-3x10^0");
    assert_eq!(shown(6278964, 5, -20, Some(3)), "62.790x10^-20");
    assert_eq!(shown(999, 2, 0, Some(1)), "10.0x10^0");
}

#[test]
fn render_small_values_round_to_zero_without_sign() {
    assert_eq!(shown(-4, 3, 0, Some(2)), "0.00x10^0");
    assert_eq!(shown(4, 3, 0, Some(0)), "0x10^0");
    assert_eq!(shown(0, 3, 0, Some(1)), "0.0x10^0");
    assert_eq!(shown(0, 3, 0, Some(5)), "0.000x10^0");
}

#[test]
fn render_fraction_keeps_leading_zeros() {
    assert_eq!(shown(5, 4, 10, Some(4)), "0.0005x10^10");
    assert_eq!(shown(-7, 2, -1, None), "-0.07x10^-1");
}

#[test]
fn render_huge_display_precision_shows_everything() {
    assert_eq!(shown(1, 28, 0, Some(usize::MAX)), "0.0000000000000000000000000001x10^0");
    assert_eq!(shown(i64::MIN, 0, i16::MIN, Some(28)), "-9223372036854775808x10^-32768");
    assert_eq!(shown(i64::MAX, 18, i16::MAX, Some(18)), "9.223372036854775807x10^32767");
}

#[test]
fn render_zero_value() {
    assert_eq!(SciNote::zero().to_string(), "0x10^0");
    assert_eq!(SciNote::build().to_string(), "1x10^0");
    assert_eq!(SciNote::default().to_string(), "1x10^0");
}

#[test]
fn render_rounds_at_the_64_bit_bounds() {
    assert_eq!(shown(-123456, 3, 0, Some(1)), "-123.5x10^0");
    assert_eq!(shown(-123456, 3, 0, Some(3)), "-123.456x10^0");
    assert_eq!(shown(-123456, 3, 0, Some(7)), "-123.456x10^0");
    assert_eq!(shown(i64::MIN, 1, 0, Some(0)), "-922337203685477581x10^0");
    assert_eq!(shown(i64::MAX, 28, 0, Some(27)), "0.000000000922337203685477581x10^0");
}

#[test]
fn parse_then_render_gives_the_text_back() {
    for input in [
        "315.2x10^-14", "5x10^-15", "-0.07x10^0", "0x10^3", "12.34x10^32767", "-9x10^-32768",
    ] {
        assert_eq!(SciNote::parse_from_str(input).unwrap().to_string(), input);
    }
}

#[test]
fn render_then_parse_gives_the_shown_value_back() {
    let value = SciNote::build()
        .coefficient(Coefficient::new(-6278964, 5))
        .exponent(-20)
        .display_decimals(3);
    let read = SciNote::parse_from_str(&value.to_string()).unwrap();
    assert_eq!(read.coefficient.mantissa, -62790);
    assert_eq!(read.coefficient.scale, 3);
    assert_eq!(read.exponent, -20);
    assert_eq!(read.display_decimals, None);
}

#[test]
fn integer_text_both_ways() {
    let digits: Vec<char> = "-32768".chars().collect();
    assert_eq!(scinote::text::read_integer(&digits, 0), Some(i16::MIN));
    assert_eq!(scinote::text::read_integer(&digits, 1), None);
    assert_eq!(scinote::text::read_integer(&digits, 2), Some(2768));
    assert_eq!(scinote::text::read_integer(&digits, 6), None);
    for value in [i16::MIN, -1000, -1, 0, 7, 10, 909, i16::MAX] {
        let text = scinote::text::integer_to_string(value);
        assert_eq!(text, value.to_string());
        let chars: Vec<char> = text.chars().collect();
        assert_eq!(scinote::text::read_integer(&chars, 0), Some(value));
    }
}
