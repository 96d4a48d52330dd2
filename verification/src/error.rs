//! The error type shared by every fallible operation of the library.

use vstd::prelude::*;

verus! {

/// Result of a fallible operation of this library.
pub type SciResult<R> = Result<R, SciError>;

/// What went wrong, tagged by kind, with an optional descriptive message.
#[derive(Debug)]
pub enum SciError {
    CoefficientError(Option<String>),
    ConversionError(Option<String>),
    ExponentError(Option<String>),
    FormatError(Option<String>),
    GenericError(Option<String>),
    OperationError(Option<String>),
    OutOfRangeError(Option<String>),
    ParseError(Option<String>),
    PrecisionError(Option<String>),
    ScaleError(Option<String>),
    Unexpected(String),
}

impl SciError {
    /// Whether `message` is the text that the decimal primitive renders its
    /// error `e` as.
    pub open spec fn is_message_of(e: rust_decimal::Error, message: String) -> bool {
        vstd::string::to_string_from_display_ensures::<rust_decimal::Error>(&e, message)
    }

    /// Whether `r` is what the error `e` of the decimal primitive is
    /// reported as: the kind that stands for `e`, with the text of `e` as
    /// its message.
    pub open spec fn from_decimal_error(e: rust_decimal::Error, r: SciError) -> bool {
        match e {
            rust_decimal::Error::ErrorString(_) => r matches SciError::GenericError(Some(m))
                && SciError::is_message_of(e, m),
            rust_decimal::Error::ExceedsMaximumPossibleValue => r matches SciError::OutOfRangeError(
                Some(m),
            ) && SciError::is_message_of(e, m),
            rust_decimal::Error::LessThanMinimumPossibleValue => r matches SciError::OutOfRangeError(
                Some(m),
            ) && SciError::is_message_of(e, m),
            rust_decimal::Error::Underflow => r matches SciError::PrecisionError(Some(m))
                && SciError::is_message_of(e, m),
            rust_decimal::Error::ScaleExceedsMaximumPrecision(_) => r matches SciError::ScaleError(
                Some(m),
            ) && SciError::is_message_of(e, m),
            rust_decimal::Error::ConversionTo(_) => r matches SciError::ConversionError(Some(m))
                && SciError::is_message_of(e, m),
        }
    }
}

impl From<rust_decimal::Error> for SciError {
    fn from(value: rust_decimal::Error) -> (r: Self)
        ensures
            SciError::from_decimal_error(value, r),
    {
        let text = value.to_string();
        match value {
            rust_decimal::Error::ErrorString(_) => Self::GenericError(Some(text)),
            rust_decimal::Error::ExceedsMaximumPossibleValue => Self::OutOfRangeError(Some(text)),
            rust_decimal::Error::LessThanMinimumPossibleValue => Self::OutOfRangeError(Some(text)),
            rust_decimal::Error::Underflow => Self::PrecisionError(Some(text)),
            rust_decimal::Error::ScaleExceedsMaximumPrecision(_) => Self::ScaleError(Some(text)),
            rust_decimal::Error::ConversionTo(_) => Self::ConversionError(Some(text)),
        }
    }
}

impl vstd::std_specs::convert::FromSpecImpl<rust_decimal::Error> for SciError {
    open spec fn obeys_from_spec() -> bool {
        false
    }

    open spec fn from_spec(v: rust_decimal::Error) -> Self {
        SciError::GenericError(None)
    }
}

} // verus!
