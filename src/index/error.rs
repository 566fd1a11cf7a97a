use vstd::prelude::*;

verus! {

/// What can go wrong when reading an index or looking a word up in it.
#[derive(Debug, Clone, PartialEq, Eq)]
pub enum IndexError {
    /// The index holds no metadata entries.
    NoMetadataFound,
    /// No entry matches the word that was looked up (after normalization).
    WordNotFound(String),
    /// A character outside the digit alphabet, with its line and its column (both counted
    /// from 0, the column in characters).
    InvalidCharacter(char, usize, usize),
    /// A line with fewer than three tab-separated columns, with its line number.
    MissingColumnInIndex(usize),
    /// A number that does not fit in 64 bits, with its line and the column where its field
    /// starts.
    NumberTooLarge(usize, usize),
}

} // verus!
