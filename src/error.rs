use vstd::prelude::*;

verus! {

/// Errors from automaton construction and combination.
#[derive(Debug, Clone, Copy, PartialEq, Eq, Structural)]
pub enum Error {
    /// Start state was not specified.
    MissingStartState,
    /// State specified was not valid for this automaton.
    InvalidState,
    /// Symbol not found in alphabet.
    SymbolNotInAlphabet,
    /// State not found.
    StateNotFound,
    /// Attempted to perform operation with two different alphabets.
    OperationWithNonEqualAlphabets,
}

impl Error {
    /// A human-readable description of the error.
    pub fn message(&self) -> (r: &'static str)
    {
        match self {
            Error::MissingStartState => "Start state was not specified.",
            Error::InvalidState => "State specified was not valid for this automaton.",
            Error::SymbolNotInAlphabet => "Symbol not found in alphabet.",
            Error::StateNotFound => "State not found.",
            Error::OperationWithNonEqualAlphabets => "Attempted to perform operation with two different alphabets.",
        }
    }
}

} // verus!
