//! Core engine of a terminal word-search game: a square board of letter
//! dice, an anagram-bucketed dictionary, and a backtracking path search
//! that decides whether a word can be traced over adjacent, non-reused
//! tiles.  Scoring and exhaustive enumeration of every word a board
//! admits are built on top of the same pieces.

pub mod board;
pub mod chars;
pub mod dict;
pub mod finder;
pub mod score;
pub mod search;
