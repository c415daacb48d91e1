use bewilder::board::{Board, Die};
use bewilder::dict::Dictionary;
use bewilder::finder::find_all_words;
use bewilder::search::{get_neighbor_positions, is_valid_word};

fn die_showing(c: char) -> Die {
    Die { letters: [c, c, c, c, c, c], value: c }
}

fn board_from(letters: &[char]) -> Board {
    let mut dice: Vec<Die> = Vec::new();
    for &c in letters {
        dice.push(die_showing(c));
    }
    Board::with_dice(dice)
}

fn board_4x4(rows: [&str; 4]) -> Board {
    let mut letters: Vec<char> = Vec::new();
    for row in rows.iter() {
        for c in row.chars() {
            letters.push(c);
        }
    }
    assert_eq!(letters.len(), 16);
    board_from(&letters)
}

#[test]
fn corner_cell_has_three_neighbors() {
    let mut n = get_neighbor_positions(0, 4);
    n.sort();
    assert_eq!(n, vec![1, 4, 5]);
}

#[test]
fn interior_cell_has_eight_neighbors() {
    let mut n = get_neighbor_positions(5, 4);
    n.sort();
    assert_eq!(n, vec![0, 1, 2, 4, 6, 8, 9, 10]);
    assert_eq!(n.len(), 8);
}

#[test]
fn edge_cell_has_five_neighbors() {
    let mut n = get_neighbor_positions(1, 4);
    n.sort();
    assert_eq!(n, vec![0, 2, 4, 5, 6]);
}

#[test]
fn neighbors_on_5x5_corner() {
    let mut n = get_neighbor_positions(24, 5);
    n.sort();
    assert_eq!(n, vec![18, 19, 23]);
}

#[test]
fn cat_on_diagonal_is_valid() {
    // cell 0 = 'C', cell 1 = 'A', cell 5 = 'T' (diagonal to both)
    let board = board_4x4(["CAXX", "XTXX", "XXXX", "XXXX"]);
    let mut dict = Dictionary::new();
    dict.insert_word("cat");
    assert!(is_valid_word("CAT", &dict, &board));
    assert!(is_valid_word("cat", &dict, &board));
}

#[test]
fn word_not_in_any_bucket_is_invalid() {
    let board = board_4x4(["CATD", "OGXX", "XXXX", "XXXX"]);
    let mut dict = Dictionary::new();
    dict.insert_word("dog");
    // "CAT" is traceable on the board but no bucket has its signature
    assert!(!is_valid_word("CAT", &dict, &board));
}

#[test]
fn anagram_collision_is_not_a_match() {
    let board = board_4x4(["CATD", "OGXX", "XXXX", "XXXX"]);
    let mut dict = Dictionary::new();
    dict.insert_word("act");
    // the signature bucket exists, but only "ACT" is a member
    assert!(!is_valid_word("CAT", &dict, &board));
    // while a word stored under that signature does match when traceable
    let board2 = board_4x4(["ACTX", "XXXX", "XXXX", "XXXX"]);
    assert!(is_valid_word("ACT", &dict, &board2));
}

#[test]
fn word_must_be_traceable_without_reuse() {
    let mut dict = Dictionary::new();
    dict.insert_word("aba");
    // only one 'A' on the board: "ABA" would need to reuse it
    let board = board_4x4(["ABXX", "XXXX", "XXXX", "XXXX"]);
    assert!(!is_valid_word("ABA", &dict, &board));
    // with a second 'A' adjacent to 'B' the path exists
    let board2 = board_4x4(["ABAX", "XXXX", "XXXX", "XXXX"]);
    assert!(is_valid_word("ABA", &dict, &board2));
}

#[test]
fn disconnected_letters_are_invalid() {
    let mut dict = Dictionary::new();
    dict.insert_word("cat");
    // all three letters present but never adjacent in sequence
    let board = board_4x4(["CXXT", "XXXX", "XXXX", "AXXX"]);
    assert!(!is_valid_word("CAT", &dict, &board));
}

#[test]
fn validation_is_idempotent() {
    let board = board_4x4(["CAXX", "XTXX", "XXXX", "XXXX"]);
    let mut dict = Dictionary::new();
    dict.insert_word("cat");
    let first = is_valid_word("CAT", &dict, &board);
    let second = is_valid_word("CAT", &dict, &board);
    assert_eq!(first, second);
    assert!(first);
    // the inputs are observably unchanged
    assert_eq!(board.len(), 16);
    assert_eq!(board.at(0), 'C');
    assert_eq!(board.at(1), 'A');
    assert_eq!(board.at(5), 'T');
    let third = is_valid_word("CAT", &dict, &board);
    assert!(third);
}

#[test]
fn qu_collapses_consistently() {
    // the 'Q' die face stands for "Qu": "QUIET" is stored and queried
    // as "QIET"
    let board = board_4x4(["QIET", "XXXX", "XXXX", "XXXX"]);
    let mut dict = Dictionary::new();
    dict.insert_word("quiet");
    assert!(is_valid_word("QUIET", &dict, &board));
    assert!(is_valid_word("quiet", &dict, &board));
    // "QUEEN" is stored as "QEEN" and traced without any 'U' tile
    let board2 = board_4x4(["QEEN", "XXXX", "XXXX", "XXXX"]);
    let mut dict2 = Dictionary::new();
    dict2.insert_word("queen");
    assert!(is_valid_word("QUEEN", &dict2, &board2));
    // a spelling that would need a literal 'U' tile is not on this board
    assert!(!is_valid_word("QUUEEN", &dict2, &board2));
}

#[test]
fn empty_word_is_invalid_when_absent() {
    let board = board_4x4(["CAXX", "XTXX", "XXXX", "XXXX"]);
    let dict = Dictionary::new();
    assert!(!is_valid_word("", &dict, &board));
}

#[test]
fn find_all_orders_by_score_then_word() {
    // CAT at 0-1-2, DOG at 4-5-6, HOUSE at 8-5?-... craft a board
    // where all three can be traced
    let board = board_4x4(["CATX", "DOGX", "HUSE", "XXXX"]);
    // HOUSE: H(8) O(5) U(9) S(10) E(11)
    let mut dict = Dictionary::new();
    dict.insert_word("cat");
    dict.insert_word("dog");
    dict.insert_word("house");
    let found = find_all_words(&dict, &board);
    assert_eq!(found.len(), 3);
    assert_eq!(found[0].0, "HOUSE");
    assert_eq!(found[0].1, 2);
    assert_eq!(found[1].0, "CAT");
    assert_eq!(found[1].1, 1);
    assert_eq!(found[2].0, "DOG");
    assert_eq!(found[2].1, 1);
}

#[test]
fn find_all_skips_short_and_untraceable_words() {
    let board = board_4x4(["CATX", "XXXX", "XXXX", "XXXX"]);
    let mut dict = Dictionary::new();
    dict.insert_word("at"); // scores zero
    dict.insert_word("cat");
    dict.insert_word("tact"); // not traceable: one T, one A
    let found = find_all_words(&dict, &board);
    assert_eq!(found.len(), 1);
    assert_eq!(found[0].0, "CAT");
    assert_eq!(found[0].1, 1);
}

#[test]
fn find_all_never_lists_a_word_twice() {
    let board = board_4x4(["CATX", "XXXX", "XXXX", "XXXX"]);
    let mut dict = Dictionary::new();
    dict.insert_word("cat");
    dict.insert_word("cat"); // duplicate dictionary line
    let found = find_all_words(&dict, &board);
    assert_eq!(found.len(), 1);
    assert_eq!(found[0].0, "CAT");
}
