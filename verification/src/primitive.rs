//! The calls into `rust_decimal`, the exact decimal arithmetic that the
//! library reads, rounds and writes coefficients with. The contracts in this
//! file are taken from that crate's source and are not proved here: every
//! proof of the library rests on them.

use crate::coefficient::MAX_SCALE;
use crate::digits::{magnitude, pow10};
use crate::text::{
    decimal_text, digits_value, is_decimal_literal, literal_digits, literal_mantissa,
    literal_scale,
};
use core::str::FromStr;
use rust_decimal::{Decimal, RoundingStrategy};
use vstd::prelude::*;

verus! {

/// `rust_decimal::Error`, with its variants as that crate declares them.
#[verifier::external_type_specification]
pub struct ExDecimalError(rust_decimal::Error);

/// The mantissa of `mantissa / 10^scale` after rounding to `places`
/// fractional digits, a tie going toward zero. A decimal with no more than
/// `places` fractional digits is left as it is.
pub open spec fn rounded_mantissa(mantissa: int, scale: nat, places: nat) -> int {
    if scale <= places {
        mantissa
    } else {
        let unit = pow10((scale - places) as nat);
        let size = magnitude(mantissa);
        let kept = if 2 * (size % unit) > unit {
            size / unit + 1
        } else {
            size / unit
        };
        if mantissa < 0 {
            -(kept as int)
        } else {
            kept as int
        }
    }
}

/// The scale of a decimal of scale `scale` after rounding to `places`
/// fractional digits.
pub open spec fn rounded_scale(scale: nat, places: nat) -> nat {
    if scale <= places {
        scale
    } else {
        places
    }
}

/// Calls `Decimal::from_str` of `rust_decimal` and hands back the mantissa
/// and the scale of what it read.
///
/// Claimed of it: a decimal literal (an optional minus sign, digits, and
/// optionally a point and more digits) with at most 28 fractional digits and
/// a value of its digits below `10^28` is read exactly: the mantissa is the
/// number its digits spell, with the literal's sign, and the scale is the
/// count of its fractional digits. Nothing is claimed of any other text.
#[verifier::external_body]
pub(crate) fn decimal_from_literal(text: &str) -> (r: Result<(i128, u32), rust_decimal::Error>)
    requires
        is_decimal_literal(text@),
        literal_scale(text@) <= MAX_SCALE,
        digits_value(literal_digits(text@)) < pow10(MAX_SCALE as nat),
    ensures
        r is Ok,
        r matches Ok(read) ==> read.0 == literal_mantissa(text@) && read.1 == literal_scale(text@),
{
    match Decimal::from_str(text) {
        Ok(decimal) => Ok((decimal.mantissa(), decimal.scale())),
        Err(error) => Err(error),
    }
}

/// Calls `Decimal::round_dp_with_strategy` of `rust_decimal` with the
/// strategy `MidpointTowardZero`, on the decimal `mantissa / 10^scale`, and
/// hands back the mantissa and the scale of the result.
///
/// Claimed of it: a decimal with no more than `places` fractional digits
/// comes back unchanged; any other comes back with `places` fractional
/// digits, rounded to the nearest such decimal, and toward zero where two
/// are equally near.
#[verifier::external_body]
pub(crate) fn decimal_round_toward_zero(mantissa: i64, scale: u32, places: u32) -> (r: (i128, u32))
    requires
        scale <= MAX_SCALE,
    ensures
        r.0 == rounded_mantissa(mantissa as int, scale as nat, places as nat),
        r.1 == rounded_scale(scale as nat, places as nat),
{
    let rounded = Decimal::new(mantissa, scale).round_dp_with_strategy(
        places,
        RoundingStrategy::MidpointTowardZero,
    );
    (rounded.mantissa(), rounded.scale())
}

/// Calls `to_string` on the `rust_decimal` decimal `mantissa / 10^scale`.
///
/// Claimed of it: the text is a minus sign where the decimal is negative,
/// then the digits of its whole part and, where the scale is not zero, a
/// point and exactly `scale` fractional digits.
#[verifier::external_body]
pub(crate) fn decimal_to_string(mantissa: i64, scale: u32) -> (r: String)
    requires
        scale <= MAX_SCALE,
    ensures
        r@ == decimal_text(mantissa as int, scale as nat),
{
    Decimal::new(mantissa, scale).to_string()
}

} // verus!
