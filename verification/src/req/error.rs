use vstd::prelude::*;

verus! {

/// Error returned when `.req` input cannot be converted into an executable request.
#[derive(Debug, Clone, PartialEq, Eq)]
pub struct ParseError {
    /// Human-readable error message.
    pub message: String,
    /// One-based line number where the error happened.
    pub line: usize,
    /// One-based column number where the error happened.
    pub column: usize,
}

/// Mathematical value of a [`ParseError`].
pub struct ParseErrorModel {
    pub message: Seq<char>,
    pub line: nat,
    pub column: nat,
}

impl View for ParseError {
    type V = ParseErrorModel;

    open spec fn view(&self) -> ParseErrorModel {
        ParseErrorModel { message: self.message@, line: self.line as nat, column: self.column as nat }
    }
}

} // verus!
