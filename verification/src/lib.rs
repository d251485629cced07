//! A verified hangman / crossword helper.
//!
//! Given a partially revealed word (letters at known positions, wildcards
//! elsewhere) and a set of excluded letters, the library finds every word of
//! matching length in an immutable word corpus that is consistent with the
//! pattern, and ranks the letters that could usefully be guessed next.

pub mod ascii_char_iterator;
pub mod chars;
pub mod generic_char_collection;
pub mod infallible_char_collection;
pub mod hangman_result;
pub mod language;
pub mod laws;
pub mod pattern;
pub mod pattern_trait;
pub mod solver;
pub mod tally;
pub mod word_sequence;

pub use crate::ascii_char_iterator::AsciiCharIterator;
pub use crate::chars::{CharUtils, ControlChars};
pub use crate::generic_char_collection::GenericCharCollection;
pub use crate::hangman_result::HangmanResult;
pub use crate::infallible_char_collection::InfallibleCharCollection;
pub use crate::language::{Corpus, Language};
pub use crate::pattern::Pattern;
pub use crate::pattern_trait::{
    compile_pattern, AsciiPattern, CompiledPattern, PatternLetter, PatternTrait,
};
pub use crate::solver::{solve, solve_hangman_puzzle, solve_infallible};
pub use crate::word_sequence::{StringChunkIter, WordSequence};
