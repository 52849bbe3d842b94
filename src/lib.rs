//! A letter-grid word search: board generation from a dictionary's letter
//! frequencies, and a depth-first search for words traced through adjacent,
//! distinct cells.

pub mod board;
pub mod grid;
pub mod letters;
pub mod words;

pub use board::{Board, Rejection};
pub use letters::{filter_words, get_char_counts, pick_letter};
pub use words::{compress_qu, expand_qu, normalize_word};
