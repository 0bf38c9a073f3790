use vstd::prelude::*;

verus! {

/// Why a piece of source text could not be turned into tokens.
#[derive(Debug, Clone, PartialEq)]
pub enum LexingError {
    /// No token starts with this character.
    InvalidToken(char),
    RegexStringError(String),
    /// A run of digits (underscores removed) that does not fit in a `u32`.
    InvalidNumber(String),
    Other,
}

impl Default for LexingError {
    fn default() -> (e: Self)
        ensures
            e is Other,
    {
        LexingError::Other
    }
}

} // verus!
