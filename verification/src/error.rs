//! The errors a textual read of a standard-form number can end in.

use vstd::prelude::*;

verus! {

/// The possible failures when reading a [`crate::StandardForm`] from text.
/// All are non-fatal: the caller gets the variant back and decides.
#[derive(Clone, Copy, PartialEq, Eq, Structural, Debug)]
pub enum ParsingStandardFormError {
    /// The mantissa segment did not read as a decimal number.
    Mantissa,
    /// The exponent segment did not read as a signed 8-bit integer.
    Exponent,
    /// None of the recognized textual shapes matched.
    InvalidFormat,
    /// The raw bytes were not valid text; only the byte entry point ends
    /// here.
    InvalidBytes,
    /// A radix other than ten was handed to the radix-aware entry point.
    InvalidRadix,
}

/// The message text of each error, as character sequences.
pub open spec fn message_seq(e: ParsingStandardFormError) -> Seq<char> {
    match e {
        ParsingStandardFormError::Mantissa => "Failed parsing mantissa"@,
        ParsingStandardFormError::Exponent => "Failed parsing exponent"@,
        ParsingStandardFormError::InvalidFormat => "Invalid format"@,
        ParsingStandardFormError::InvalidBytes => "Given bytes are not formatted in UTF-8"@,
        ParsingStandardFormError::InvalidRadix => "Invalid radix : Only radix 10 is supported"@,
    }
}

impl ParsingStandardFormError {
    /// The human-readable message of this error.
    pub fn message(&self) -> (r: &'static str)
        ensures
            r@ == message_seq(*self),
    {
        match *self {
            ParsingStandardFormError::Mantissa => "Failed parsing mantissa",
            ParsingStandardFormError::Exponent => "Failed parsing exponent",
            ParsingStandardFormError::InvalidFormat => "Invalid format",
            ParsingStandardFormError::InvalidBytes => "Given bytes are not formatted in UTF-8",
            ParsingStandardFormError::InvalidRadix => "Invalid radix : Only radix 10 is supported",
        }
    }
}

} // verus!
