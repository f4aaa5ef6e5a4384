use vstd::prelude::*;

verus! {

/// The fatal errors of an index build.
#[derive(Clone, Copy, Debug, PartialEq, Eq, Structural)]
pub enum MinisearchIndexrsError {
    /// A document to index has no `id` field.
    MissingId,
    /// An edge label of the term trie is not valid UTF-8.
    TermDecoding,
    /// The corpus holds more tokens than a counter can count.
    TooManyTokens,
}

impl MinisearchIndexrsError {
    /// The message that describes the error.
    pub fn message(&self) -> (r: &'static str) {
        match self {
            MinisearchIndexrsError::MissingId => "item to index does not have an id field",
            MinisearchIndexrsError::TermDecoding => "a term of the index is not valid UTF-8",
            MinisearchIndexrsError::TooManyTokens => "the corpus holds too many tokens to count",
        }
    }
}

} // verus!
