//! Errors of the tokenization core.

use vstd::prelude::*;

verus! {

/// Every failure the core can report.
#[derive(Debug, Clone, Copy, PartialEq, Eq, Structural)]
pub enum TokenizerError {
    /// `Encoding` construction was given parallel sequences of differing
    /// lengths, or an overflow child that is itself malformed.
    MismatchedLengths,
    /// A pipeline was built without the mandatory model.
    MissingModel,
    /// `truncate` was called with `max_len == 0` or `stride >= max_len`.
    InvalidTruncation,
}

impl TokenizerError {
    /// A short description, for callers that need to display the error.
    pub fn describe(&self) -> (r: &'static str)
    {
        match self {
            TokenizerError::MismatchedLengths => "parallel sequences have differing lengths",
            TokenizerError::MissingModel => "a pipeline needs a model",
            TokenizerError::InvalidTruncation => "truncation needs 0 < stride < max_len",
        }
    }
}

} // verus!
