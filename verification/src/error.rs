//! The failures that the codec reports.

use vstd::prelude::*;

verus! {

/// Why an encode or decode operation failed.
#[derive(Debug, PartialEq, Eq, Structural, Clone, Copy)]
pub enum LotusError {
    /// The topmost tier width does not fit in the jumpstarter field.
    JumpstarterOverflow,
    /// More bits were requested than the input holds.
    UnexpectedEof,
    /// The configuration is invalid or the bits do not form a Lotus encoding.
    InvalidEncoding,
    /// The value lies outside what the configuration can represent.
    ValueTooLarge,
}

impl LotusError {
    /// The text that describes this failure.
    pub open spec fn message_text(self) -> Seq<char> {
        match self {
            LotusError::JumpstarterOverflow => "payload length exceeds jumpstarter capacity"@,
            LotusError::UnexpectedEof => "insufficient bits in input slice"@,
            LotusError::InvalidEncoding => "invalid lotus encoding"@,
            LotusError::ValueTooLarge =>
                "value exceeds algorithmic range for this (J,d) configuration"@,
        }
    }

    /// A human-readable description of the failure.
    pub fn message(&self) -> (text: &'static str)
        ensures
            text@ == self.message_text(),
    {
        match self {
            LotusError::JumpstarterOverflow => "payload length exceeds jumpstarter capacity",
            LotusError::UnexpectedEof => "insufficient bits in input slice",
            LotusError::InvalidEncoding => "invalid lotus encoding",
            LotusError::ValueTooLarge =>
                "value exceeds algorithmic range for this (J,d) configuration",
        }
    }
}

} // verus!
