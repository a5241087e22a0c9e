//! Processing of Uzbek text in its Latin and Cyrillic spellings.
//!
//! - `spelling`: canonical spelling, where each digraph and each letter with an
//!   apostrophe is one character, and the way back.
//! - `alphabetic`: the alphabet's collation order, comparison and sorting.
//! - `tokenize`: splitting a word into syllables.
//! - `number`: integers in words.
//! - `words`: removing repeated words from a text and counting them.
//! - `text`: character-level helpers.
pub mod text;
pub mod spelling;
pub mod alphabetic;
pub mod tokenize;
pub mod number;
pub mod words;
