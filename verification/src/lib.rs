//! Exact decimal arithmetic for numbers kept in standard form (scientific
//! notation): a significand together with a signed 8-bit power of ten.
//!
//! A [`StandardForm`] value is `mantissa * 10^exponent`, where the mantissa is
//! an exact decimal held as integer digits over a power-of-ten scale.  Every
//! constructor and operation renormalizes so that the stored mantissa is `0`
//! or has magnitude between `1` and `10`, both bounds inclusive: the
//! in-range check of this representation accepts the boundary on each side.

pub mod arith;
pub mod cmp;
pub mod convert;
pub mod error;
pub mod fmt;
pub mod laws;
pub mod num;
pub mod ops;
pub mod parse;
pub mod sf;

pub use error::ParsingStandardFormError;
pub use parse::parse_exponent;
pub use parse::parse_standard_form_with_optional_exponent;
pub use parse::parse_standard_form_with_required_exponent;
pub use sf::Mantissa;
pub use sf::StandardForm;
