//! Lexical analysis for a small C-like scripting language.
//!
//! The scanner turns a source text into an ordered sequence of tokens, each
//! carrying its kind, its lexeme (the exact substring of the source that
//! formed it), an optional parsed literal value, and the `(line, column)`
//! position at which its emission was committed.  Scanning stops at the first
//! lexical error: an unexpected character, or a string literal left open at
//! the end of the input.

pub mod token_type;
pub mod literal;
pub mod token;
pub mod model;
pub mod scanner;
pub mod laws;

use vstd::prelude::*;

verus! {

/// Top-level error wrapper handed to a driver: it carries the scan error
/// that ended a run.
pub struct RoxError {
    error: scanner::ScanError,
}

impl RoxError {
    /// The view of the carried scan error.
    pub closed spec fn error_view(&self) -> model::ScanErrorV {
        self.error@
    }

    pub fn new(error: scanner::ScanError) -> (r: RoxError)
        ensures
            r.error_view() == error@,
    {
        RoxError { error }
    }

    /// The scan error this wrapper carries.
    pub fn error(&self) -> (r: &scanner::ScanError)
        ensures
            r@ == self.error_view(),
    {
        &self.error
    }
}

} // verus!
