use vstd::prelude::*;
use crate::hint::Hint;

verus! {

/// Why a string was rejected as a word.
#[derive(Debug, Clone, PartialEq, Eq)]
pub enum WordError {
    /// The word has the wrong number of letters.
    WrongWordLen { word: String, expected_len: usize },
    /// The word holds a character outside `'a'..='z'`.
    NotLowerAlpha { word: String },
}

/// Why a `(word, hint)` pair was rejected by [`crate::puzzle::Puzzle::guess`].
#[derive(Debug, Clone, PartialEq, Eq)]
pub enum GuessError {
    /// The hint sequence does not have one entry per letter of the puzzle.
    WrongHintLen { hint: Vec<Hint>, expected_len: usize },
    /// The word has the wrong number of letters.
    WrongWordLen { word: String, expected_len: usize },
    /// The word holds a character outside `'a'..='z'`.
    NotLowerAlpha { word: String },
}

/// Why no guess could be recommended.
#[derive(Debug, Clone, PartialEq, Eq)]
pub enum SolveErr {
    /// No word in the dictionary satisfies the accumulated constraints.
    Inconsistent,
}

/// How a [`WordError`] reads as a [`GuessError`].
pub open spec fn word_error_to_guess_error(e: WordError) -> GuessError {
    match e {
        WordError::WrongWordLen { word, expected_len } => GuessError::WrongWordLen {
            word,
            expected_len,
        },
        WordError::NotLowerAlpha { word } => GuessError::NotLowerAlpha { word },
    }
}

impl From<WordError> for GuessError {
    fn from(e: WordError) -> (r: GuessError) {
        match e {
            WordError::WrongWordLen { word, expected_len } => GuessError::WrongWordLen {
                word,
                expected_len,
            },
            WordError::NotLowerAlpha { word } => GuessError::NotLowerAlpha { word },
        }
    }
}

impl vstd::std_specs::convert::FromSpecImpl<WordError> for GuessError {
    open spec fn obeys_from_spec() -> bool {
        true
    }

    open spec fn from_spec(e: WordError) -> GuessError {
        word_error_to_guess_error(e)
    }
}

} // verus!
