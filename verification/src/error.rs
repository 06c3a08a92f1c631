//! Failures of parsing, conversion and digit arithmetic.
//!
//! Every failure carries a category to branch on and a human-readable
//! message. No operation here can fail for a resource or environment
//! reason; each variant names a property of the inputs.

use vstd::prelude::*;

verus! {

/// The category of a failure.
#[derive(Debug, Clone, Copy, PartialEq, Eq)]
pub enum CompaErrorKind {
    /// An input character is not one of the 94 digit symbols.
    InvalidDigit,
    /// A value does not fit the requested machine integer width.
    Overflow,
    /// A decrement was asked of the zero value.
    Underflow,
    /// A subtraction would produce a value below zero.
    NegativeResult,
}

/// An error from parsing, conversion or arithmetic.
#[derive(Debug)]
pub struct CompaDecimalError {
    /// The category of the failure.
    pub kind: CompaErrorKind,
    /// A human-readable description of the failure.
    pub error_message: &'static str,
}

impl CompaDecimalError {
    /// An error of the given category with the given message.
    pub fn new(kind: CompaErrorKind, error_message: &'static str) -> (r: CompaDecimalError)
        ensures
            r.kind == kind,
            r.error_message == error_message,
    {
        CompaDecimalError { kind, error_message }
    }
}

impl Clone for CompaDecimalError {
    /// An identical error.
    fn clone(&self) -> (r: Self)
        ensures
            r.kind == self.kind,
            r.error_message == self.error_message,
    {
        CompaDecimalError { kind: self.kind, error_message: self.error_message }
    }
}

} // verus!
