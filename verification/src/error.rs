//! Why a row, or a whole input, is rejected.

use vstd::prelude::*;

verus! {

/// A malformed input. Any of these invalidates the whole run: a table built
/// from the rows before the fault would silently miss the rest.
#[derive(Debug, Clone, Copy, PartialEq, Eq, Structural)]
pub enum ParseError {
    /// A row holds no `;` between key and value.
    MissingSeparator,
    /// The input ends inside a row where a terminating newline is required.
    MissingNewline,
    /// The value field does not have the form `'-'? digit+ ('.' digit+)?`.
    InvalidDigit,
    /// A row is not completed by the second page on which it lies: it
    /// reaches a third page.
    RowTooLarge,
    /// The value is well formed but its magnitude is beyond what the
    /// fixed-point representation holds.
    OutOfRange,
}

impl ParseError {
    /// The description of each error.
    pub open spec fn message_spec(&self) -> Seq<char> {
        match self {
            ParseError::MissingSeparator => "row has no ';' separator"@,
            ParseError::MissingNewline => "input ends inside a row"@,
            ParseError::InvalidDigit => "value is not a decimal number"@,
            ParseError::RowTooLarge => "row spans too many pages"@,
            ParseError::OutOfRange => "value is out of range"@,
        }
    }

    /// A short description, for diagnostics.
    pub fn message(&self) -> (text: &'static str)
        ensures
            text@ == self.message_spec(),
    {
        match self {
            ParseError::MissingSeparator => "row has no ';' separator",
            ParseError::MissingNewline => "input ends inside a row",
            ParseError::InvalidDigit => "value is not a decimal number",
            ParseError::RowTooLarge => "row spans too many pages",
            ParseError::OutOfRange => "value is out of range",
        }
    }
}

} // verus!
