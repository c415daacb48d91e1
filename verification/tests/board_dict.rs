use bewilder::board::{generate_board_4x4, generate_board_5x5, Board, Die};
use bewilder::chars::sort_word;
use bewilder::dict::Dictionary;
use bewilder::finder::{score_submitted_words, total_score};
use bewilder::score::score_word;

fn die_showing(c: char) -> Die {
    Die { letters: [c, c, c, c, c, c], value: c }
}

fn board_4x4(rows: [&str; 4]) -> Board {
    let mut dice: Vec<Die> = Vec::new();
    for row in rows.iter() {
        for c in row.chars() {
            dice.push(die_showing(c));
        }
    }
    assert_eq!(dice.len(), 16);
    Board::with_dice(dice)
}

#[test]
fn score_table() {
    assert_eq!(score_word(""), 0);
    assert_eq!(score_word("A"), 0);
    assert_eq!(score_word("AB"), 0);
    assert_eq!(score_word("CAT"), 1);
    assert_eq!(score_word("FOUR"), 1);
    assert_eq!(score_word("WORDS"), 2);
    assert_eq!(score_word("LETTER"), 3);
    assert_eq!(score_word("LETTERS"), 5);
    assert_eq!(score_word("ADVENTURE"), 11);
    assert_eq!(score_word("DICTIONARIES"), 11);
}

#[test]
fn sort_word_orders_letters() {
    assert_eq!(sort_word("TCA"), "ACT");
    assert_eq!(sort_word("CAT"), "ACT");
    assert_eq!(sort_word(""), "");
    assert_eq!(sort_word("BANANA"), "AAABNN");
}

#[test]
fn anagrams_share_a_signature() {
    assert_eq!(sort_word("STOP"), sort_word("POTS"));
    assert_ne!(sort_word("STOP"), sort_word("STOOP"));
}

#[test]
fn empty_board_has_dimension_zero() {
    let b = Board::new();
    assert_eq!(b.len(), 0);
    assert_eq!(b.dim(), 0);
}

#[test]
fn board_getters() {
    let b = board_4x4(["ABCD", "EFGH", "IJKL", "MNOP"]);
    assert_eq!(b.len(), 16);
    assert_eq!(b.dim(), 4);
    assert_eq!(b.at(0), 'A');
    assert_eq!(b.at(15), 'P');
}

#[test]
fn new_die_shows_placeholder_until_rolled() {
    let mut d = Die::new(['A', 'B', 'C', 'D', 'E', 'F']);
    assert_eq!(d.value, '0');
    d.roll();
    assert!(d.letters.contains(&d.value));
    assert_ne!(d.value, '0');
}

#[test]
fn shuffle_keeps_the_dice() {
    let mut b = board_4x4(["ABCD", "EFGH", "IJKL", "MNOP"]);
    b.shuffle();
    assert_eq!(b.len(), 16);
    // every die keeps its six faces, so the shown letters are a
    // permutation of the same sixteen letters here
    let mut seen: Vec<char> = Vec::new();
    for i in 0..b.len() {
        seen.push(b.at(i));
    }
    seen.sort();
    let expected: Vec<char> = "ABCDEFGHIJKLMNOP".chars().collect();
    assert_eq!(seen, expected);
}

#[test]
fn generated_boards_have_the_right_shape() {
    let b4 = generate_board_4x4();
    assert_eq!(b4.len(), 16);
    assert_eq!(b4.dim(), 4);
    for i in 0..b4.len() {
        let c = b4.at(i);
        assert!(c.is_ascii_uppercase());
    }
    let b5 = generate_board_5x5();
    assert_eq!(b5.len(), 25);
    assert_eq!(b5.dim(), 5);
    for i in 0..b5.len() {
        let c = b5.at(i);
        assert!(c.is_ascii_uppercase());
    }
}

#[test]
fn dictionary_lookup_is_by_signature_and_member() {
    let mut dict = Dictionary::new();
    dict.insert_word("cat");
    dict.insert_word("act");
    let sig = sort_word("CAT");
    assert!(dict.contains_exact(&sig, &"CAT".to_string()));
    assert!(dict.contains_exact(&sig, &"ACT".to_string()));
    assert!(!dict.contains_exact(&sig, &"TAC".to_string()));
    assert!(!dict.contains_exact(&sort_word("DOG"), &"DOG".to_string()));
}

#[test]
fn dictionary_lines_are_trimmed_and_upper_cased() {
    let mut dict = Dictionary::new();
    dict.insert_word("  cat \n");
    let sig = sort_word("CAT");
    assert!(dict.contains_exact(&sig, &"CAT".to_string()));
}

#[test]
fn scoring_lists_only_valid_scoring_words() {
    let board = board_4x4(["CATX", "DOGX", "HUSE", "XXXX"]);
    let mut dict = Dictionary::new();
    dict.insert_word("cat");
    dict.insert_word("dog");
    dict.insert_word("house");
    dict.insert_word("at");
    let words: Vec<String> = vec![
        "CAT".to_string(), // valid, 1 point
        "AT".to_string(), // too short
        "HOUSE".to_string(), // valid, 2 points
        "HORSE".to_string(), // not in the dictionary
        "DOGS".to_string(), // not in the dictionary
    ];
    let scored = score_submitted_words(&words, &dict, &board);
    assert_eq!(scored.len(), 2);
    assert_eq!(scored[0].0, "HOUSE");
    assert_eq!(scored[0].1, 2);
    assert_eq!(scored[1].0, "CAT");
    assert_eq!(scored[1].1, 1);
    assert_eq!(total_score(&scored), 3);
}

#[test]
fn duplicate_submissions_score_twice_if_resubmitted() {
    // the input loop rejects duplicates; the scorer itself keeps
    // whatever it is handed
    let board = board_4x4(["CATX", "XXXX", "XXXX", "XXXX"]);
    let mut dict = Dictionary::new();
    dict.insert_word("cat");
    let words: Vec<String> = vec!["CAT".to_string(), "CAT".to_string()];
    let scored = score_submitted_words(&words, &dict, &board);
    assert_eq!(scored.len(), 2);
    assert_eq!(total_score(&scored), 2);
}

#[test]
fn total_of_empty_table_is_zero() {
    let scored: Vec<(String, u32)> = Vec::new();
    assert_eq!(total_score(&scored), 0);
}
