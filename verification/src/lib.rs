//! Solver for the five-by-five word puzzle: find every combination of five
//! five-letter words that together use twenty-five distinct letters, with no
//! letter repeated within or across the words.
//!
//! Words are sequences of lowercase ASCII letter bytes. The library filters a
//! raw word list down to five-letter isograms, then runs a depth-first
//! backtracking search that extends a partial solution one word at a time,
//! always moving forward through the dictionary so that each five-word set is
//! produced exactly once.

pub mod dictionary;
pub mod letters;
pub mod laws;
pub mod search;
pub mod seqs;
