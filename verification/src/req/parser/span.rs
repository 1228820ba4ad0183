use vstd::prelude::*;

verus! {

/// One-based source range for parsed `.req` syntax.
#[derive(Debug, Clone, Copy, PartialEq, Eq, Structural)]
pub struct Span {
    pub start_line: usize,
    pub start_column: usize,
    pub end_line: usize,
    pub end_column: usize,
}

impl Span {
    /// The span of a whole line of `len` bytes.
    pub fn line(line: usize, len: usize) -> (s: Self)
        requires
            len < usize::MAX,
        ensures
            s == (Span { start_line: line, start_column: 1, end_line: line, end_column: (len + 1) as usize }),
    {
        Self { start_line: line, start_column: 1, end_line: line, end_column: len + 1 }
    }

    /// The span from column 1 of `start_line` to `end_column` of `end_line`.
    pub fn between(start_line: usize, end_line: usize, end_column: usize) -> (s: Self)
        ensures
            s == (Span { start_line, start_column: 1, end_line, end_column }),
    {
        Self { start_line, start_column: 1, end_line, end_column }
    }
}

} // verus!
