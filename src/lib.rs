//! High precision decimal with a maximum precision of 38 digits.
//!
//! A [`Decimal`] is `(-1)^s * m * 10^-e` with a significand `m` below `10^38` and a scale `e`
//! from -126 to 167; zero has the single form `(0, 0, +)`. Arithmetic comes in checked forms
//! that return `None` on overflow, and every value they hand out is well formed.
//!
//! - `u256`: the 256-bit unsigned integers behind exact intermediate products and quotients.
//! - `decimal`: the value type, rescaling, rounding, and the arithmetic kernel.
//! - `transcend`: logarithm, exponential and powers.
//! - `parse`, `format`: text in and out; `codec`: the compact binary form.
//! - `convert`, `float`: primitive integers, and the bit patterns of binary floats.
//! - `laws`: properties proved across operations.
use vstd::prelude::*;

pub mod codec;
pub mod convert;
pub mod decimal;
pub mod error;
pub mod float;
pub mod format;
pub mod iterate;
pub mod laws;
pub mod parse;
pub mod transcend;
pub mod u256;

pub use crate::decimal::{Decimal, MAX_BINARY_SIZE, MAX_PRECISION};
pub use crate::error::{DecimalConvertError, DecimalFormatError, DecimalParseError};

verus! {

} // verus!
