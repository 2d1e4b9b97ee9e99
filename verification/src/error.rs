//! The failures that the codec reports.

use vstd::prelude::*;

verus! {

/// Why an encode or decode call gave no result.
#[derive(Clone, Copy, Debug, PartialEq, Eq, Structural)]
pub enum Error {
    /// The sequence holds more bits than the 32-bit length prefix can count.
    LengthOverflow,
    /// The input ends before the record does, or its length prefix is not a
    /// canonical compact integer.
    TruncatedInput,
    /// The claimed bit count is larger than the storage that was materialized.
    CapacityViolation,
    /// The requested backing word is not 8, 16, 32 or 64 bits wide.
    UnsupportedWordWidth,
}

impl Error {
    /// A short description of the failure, for messages.
    pub fn message(&self) -> (text: &'static str)
        ensures
            text@ == spec_message(*self)@,
    {
        match self {
            Error::LengthOverflow => "bit length does not fit the length prefix",
            Error::TruncatedInput => "input ended before the record was complete",
            Error::CapacityViolation => "bit count exceeds the decoded storage",
            Error::UnsupportedWordWidth => "backing word width is not supported",
        }
    }
}

/// The text that [`Error::message`] returns for each failure.
pub open spec fn spec_message(e: Error) -> &'static str {
    match e {
        Error::LengthOverflow => "bit length does not fit the length prefix",
        Error::TruncatedInput => "input ended before the record was complete",
        Error::CapacityViolation => "bit count exceeds the decoded storage",
        Error::UnsupportedWordWidth => "backing word width is not supported",
    }
}

} // verus!
