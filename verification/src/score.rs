//! Scoring: a word's score is a fixed function of its length.

use vstd::prelude::*;

verus! {

/// The score of a word of the given character sequence: lengths 0 to 2
/// score nothing, 3 and 4 score 1, then 2, 3 and 5 points for lengths
/// 5, 6 and 7, and 11 points for anything longer.
pub open spec fn score_of(word: Seq<char>) -> u32 {
    if word.len() <= 2 {
        0
    } else if word.len() <= 4 {
        1
    } else if word.len() == 5 {
        2
    } else if word.len() == 6 {
        3
    } else if word.len() == 7 {
        5
    } else {
        11
    }
}

/// Calculate the score of a word.
pub fn score_word(word: &str) -> (s: u32)
    ensures
        s == score_of(word@),
{
    let n = word.unicode_len();
    if n <= 2 {
        0
    } else if n <= 4 {
        1
    } else if n == 5 {
        2
    } else if n == 6 {
        3
    } else if n == 7 {
        5
    } else {
        11
    }
}

} // verus!
