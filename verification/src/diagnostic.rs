//! What the parser reports when a token it needs is not there.
use vstd::prelude::*;

verus! {

/// A report of a token that was needed and not found.
#[derive(Debug, PartialEq, Eq, Clone, Copy)]
pub enum Diagnostic {
    /// Another token stands where the given symbol was needed.
    Expected(char),
    /// The text ended where a symbol was needed.
    UnexpectedEnd,
}

} // verus!
