pub mod bit_set;
pub mod errors;
pub mod hint;
pub mod puzzle;
pub mod words;

pub use errors::GuessError;
pub use errors::SolveErr;
pub use errors::WordError;
pub use hint::get_hint;
pub use hint::Hint;
pub use puzzle::BestGuess;
pub use puzzle::Puzzle;
pub use words::Dictionary;
