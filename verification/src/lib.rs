//! A solver for five-letter word-guessing puzzles.
//!
//! A puzzle hides an answer; every guess is answered with one mark per
//! letter. The crate models those marks, reads a log of earlier guesses,
//! keeps the dictionary words that agree with the log and picks the next
//! guess that splits the remaining words most evenly.

pub mod algorithm;
pub mod correctness;
pub mod guess;
pub mod history;
pub mod natural;
pub mod word;

pub use correctness::{enumerate_mask, Correctness, MAX_MASK_ENUM};
pub use guess::Guess;
pub use history::{get_guesses, HistoryError, HistoryFault};
pub use word::Word;
