//! The error taxonomy shared by every fallible construction step.

use vstd::prelude::*;

verus! {

/// A construction-time failure. Every fallible operation of the library
/// reports one of these; per-row evaluation never fails, it only excludes
/// the row.
#[derive(Clone, Copy, Debug, PartialEq, Eq, Structural)]
pub enum FilterError {
    /// A cell or range reference is not letters-then-digits, or the
    /// coordinate it names does not fit the coordinate type.
    InvalidAddress,
    /// A filter string starts with none of the recognized operator prefixes.
    InvalidFilterSyntax,
    /// A text holds no numeric substring to extract.
    NoNumericMatch,
    /// A numeric substring was found but its value does not fit the
    /// number type.
    NumericOverflow,
    /// A filter pattern is not a valid regular expression.
    RegexCompileError,
    /// The workbook has no readable first sheet. Raised by the shell
    /// around the library, which owns workbook access.
    MissingSheet,
}

impl FilterError {
    /// A short human-readable label for the error, for reporting at the edge.
    pub fn label(&self) -> (r: &'static str)
        ensures
            r@ == match self {
                FilterError::InvalidAddress => "invalid cell or range reference"@,
                FilterError::InvalidFilterSyntax => "unrecognized filter operator"@,
                FilterError::NoNumericMatch => "no number found"@,
                FilterError::NumericOverflow => "number out of range"@,
                FilterError::RegexCompileError => "invalid pattern"@,
                FilterError::MissingSheet => "no readable first sheet"@,
            },
    {
        match self {
            FilterError::InvalidAddress => "invalid cell or range reference",
            FilterError::InvalidFilterSyntax => "unrecognized filter operator",
            FilterError::NoNumericMatch => "no number found",
            FilterError::NumericOverflow => "number out of range",
            FilterError::RegexCompileError => "invalid pattern",
            FilterError::MissingSheet => "no readable first sheet",
        }
    }
}

} // verus!
