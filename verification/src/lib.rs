//! Exhaustive solver for letter-grid word puzzles.
//!
//! A board of up to 64 letters is to be split into words of a dictionary
//! that together use every cell, each word lying on a path of neighbouring
//! cells. A word earns a bonus by its length, and the split with the
//! highest sum of bonuses is looked for.
//!
//! - [`letters`] numbers the letters of the alphabet.
//! - [`bits`] holds sets of cells in machine words.
//! - [`geometry`] says which cells are neighbours, and [`grid`] holds the
//!   board.
//! - [`dict`] is the dictionary, a prefix tree; [`builder`] puts words into
//!   it, [`wordlist`] builds it from a list of words, and [`spell`] reads
//!   words back from it. [`lex`] is the order of the dictionary.
//! - [`paths`] says what it is for a word to lie on the board, and
//!   [`search`] finds the words that do.
//! - [`scoring`] holds the bonuses, [`cover`] says what a split of the board
//!   is and what it scores, [`order`] sorts the words that are tried, and
//!   [`solve`] finds a best split.
//! - [`puzzle`] puts board and dictionary together.
//! - [`text`] reads the characters of a text.

pub mod bits;
pub mod builder;
pub mod cover;
pub mod dict;
pub mod geometry;
pub mod grid;
pub mod letters;
pub mod lex;
pub mod order;
pub mod paths;
pub mod puzzle;
pub mod scoring;
pub mod search;
pub mod solve;
pub mod spell;
pub mod text;
pub mod wordlist;
