//! Error kinds of the library.
use vstd::prelude::*;

verus! {

/// An error which can be returned when parsing a decimal.
#[derive(Debug, Clone, Copy, PartialEq, Eq, Structural)]
pub enum DecimalParseError {
    /// Empty string.
    Empty,
    /// Invalid decimal.
    Invalid,
    /// Decimal is overflowed.
    Overflow,
    /// Decimal is underflow.
    Underflow,
}

/// An error which can be returned when a conversion between other type and decimal fails.
#[derive(Debug, Clone, Copy, PartialEq, Eq, Structural)]
pub enum DecimalConvertError {
    /// Invalid decimal.
    Invalid,
    /// Decimal is overflowed.
    Overflow,
}

/// An error which can be returned when format decimal to string.
#[derive(Debug, Clone, Copy, PartialEq, Eq, Structural)]
pub enum DecimalFormatError {
    /// The sink refused the text.
    Format,
    /// Decimal is out of range.
    OutOfRange,
}

impl DecimalConvertError {
    /// The conversion error that a parse error stands for.
    pub fn from_parse_error(e: DecimalParseError) -> (r: DecimalConvertError)
        ensures
            r == (match e {
                DecimalParseError::Empty | DecimalParseError::Invalid => DecimalConvertError::Invalid,
                _ => DecimalConvertError::Overflow,
            }),
    {
        match e {
            DecimalParseError::Empty | DecimalParseError::Invalid => DecimalConvertError::Invalid,
            DecimalParseError::Overflow | DecimalParseError::Underflow => DecimalConvertError::Overflow,
        }
    }
}

impl From<DecimalParseError> for DecimalConvertError {
    fn from(e: DecimalParseError) -> (r: DecimalConvertError) {
        DecimalConvertError::from_parse_error(e)
    }
}

impl vstd::std_specs::convert::FromSpecImpl<DecimalParseError> for DecimalConvertError {
    open spec fn obeys_from_spec() -> bool {
        true
    }

    open spec fn from_spec(e: DecimalParseError) -> DecimalConvertError {
        match e {
            DecimalParseError::Empty | DecimalParseError::Invalid => DecimalConvertError::Invalid,
            _ => DecimalConvertError::Overflow,
        }
    }
}

} // verus!
