use vstd::prelude::*;

verus! {

/// The failures the analysis pipeline can report.
#[derive(Debug, Clone, Copy, PartialEq, Eq, Structural)]
pub enum AnalysisError {
    /// Fewer than two price records, or fewer than two returns: neither a
    /// return series nor an unbiased variance can be formed.
    DegenerateSample,
    /// A closing price at or below zero: the logarithm of a price ratio
    /// involving it is undefined.
    NonPositiveClose,
    /// An interval whose expected count is zero: the chi-square contribution
    /// would divide by zero, so the evaluation is refused.
    ZeroExpectedCount,
    /// A price field that is not a plain decimal number, or that does not
    /// fit the fixed-point representation.
    NonNumeric,
    /// A header row without the required Date and Close columns.
    MissingColumn,
}

} // verus!
