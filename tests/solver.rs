use std::sync::Arc;
use wordgrid::board::{Board, BoardLocation};
use wordgrid::dictionary::{lex_less, starts_with, Dictionary};
use wordgrid::rank::sort_entries;
use wordgrid::recognize::nearest;
use wordgrid::search::{find_words, grown_words, solve, words_from};
use wordgrid::tile::{letter_value_of, tile_letters, Multiplier, Tile};
use wordgrid::word::Word;

fn tile(letter: &str, multiplier: Multiplier) -> Tile {
    Tile::new(letter.to_string(), multiplier)
}

fn plain(letter: &str) -> Tile {
    tile(letter, Multiplier::Unmultiplied)
}

/// A sample game board: rows `o e i j`, `r e c r`, `d a s a`, `r i t e`, with triple-letter
/// tiles at (0,1), (0,2), (1,2) and a triple-word tile at (1,1).
fn sample_board() -> Arc<Board> {
    let grid = vec![
        vec![plain("o"), tile("e", Multiplier::Letter(3)), tile("i", Multiplier::Letter(3)), plain("j")],
        vec![plain("r"), tile("e", Multiplier::Word(3)), tile("c", Multiplier::Letter(3)), plain("r")],
        vec![plain("d"), plain("a"), plain("s"), plain("a")],
        vec![plain("r"), plain("i"), plain("t"), plain("e")],
    ];
    assert!(Board::is_valid_grid(&grid));
    Arc::new(Board::new(grid))
}

fn dictionary(words: &[&str]) -> Dictionary {
    let mut list: Vec<String> = words.iter().map(|w| w.to_string()).collect();
    list.sort();
    list.dedup();
    Dictionary::new(list).unwrap()
}

fn word_on(board: &Arc<Board>, cells: &[(usize, usize)]) -> Word {
    let mut w = Word::new(board.clone());
    for &(r, c) in cells {
        w.add_tile(BoardLocation(r, c));
    }
    w
}

#[test]
fn letter_values_follow_table() {
    assert_eq!(letter_value_of("a"), 1);
    assert_eq!(letter_value_of("b"), 4);
    assert_eq!(letter_value_of("j"), 10);
    assert_eq!(letter_value_of("k"), 5);
    assert_eq!(letter_value_of("qu"), 10);
    assert_eq!(letter_value_of("z"), 10);
    assert_eq!(letter_value_of("q"), 0);
    assert_eq!(letter_value_of("ab"), 0);
    assert_eq!(letter_value_of(""), 0);
    assert_eq!(plain("y").letter_value(), 3);
}

#[test]
fn grid_validation() {
    assert!(Board::is_valid_grid(&vec![vec![plain("a")]]));
    assert!(!Board::is_valid_grid(&vec![vec![plain("a"), plain("b")]]));
    assert!(!Board::is_valid_grid(&vec![vec![plain("q")]]));
    assert!(!Board::is_valid_grid(&vec![vec![tile("a", Multiplier::Letter(0))]]));
    assert!(!Board::is_valid_grid(&vec![vec![tile("a", Multiplier::Word(0))]]));
    assert!(Board::is_valid_grid(&vec![]));
}

#[test]
fn adjacency_counts_on_four_by_four() {
    let board = sample_board();
    assert_eq!(board.get_adjacent_tiles(&BoardLocation(0, 0)).len(), 3);
    assert_eq!(board.get_adjacent_tiles(&BoardLocation(0, 2)).len(), 5);
    assert_eq!(board.get_adjacent_tiles(&BoardLocation(1, 2)).len(), 8);
    assert_eq!(board.get_adjacent_tiles(&BoardLocation(3, 3)).len(), 3);
    let adj = board.get_adjacent_tiles(&BoardLocation(0, 0));
    assert_eq!(adj, vec![BoardLocation(0, 1), BoardLocation(1, 0), BoardLocation(1, 1)]);
}

#[test]
fn triple_word_multiplies_letter_sum() {
    let board = sample_board();
    let dare = word_on(&board, &[(2, 0), (2, 1), (1, 0), (1, 1)]);
    assert_eq!(dare.get_string(), "dare");
    assert_eq!(dare.get_score(), Some(15));
    let red = word_on(&board, &[(1, 0), (1, 1), (2, 0)]);
    assert_eq!(red.get_string(), "red");
    assert_eq!(red.get_score(), Some(12));
}

#[test]
fn triple_letter_multiplies_one_tile() {
    let board = sample_board();
    let ice = word_on(&board, &[(0, 2), (1, 2), (0, 1)]);
    assert_eq!(ice.get_string(), "ice");
    assert_eq!(ice.get_score(), Some(3 + 12 + 3));
}

#[test]
fn word_factors_compound() {
    let grid = vec![
        vec![tile("a", Multiplier::Word(2)), tile("t", Multiplier::Word(2))],
        vec![plain("e"), plain("s")],
    ];
    let board = Arc::new(Board::new(grid));
    let w = word_on(&board, &[(0, 0), (0, 1)]);
    assert_eq!(w.get_score(), Some(8));
}

#[test]
fn score_is_deterministic() {
    let board = sample_board();
    let a = word_on(&board, &[(2, 0), (2, 1), (1, 0), (1, 1)]);
    let b = word_on(&board, &[(2, 0), (2, 1), (1, 0), (1, 1)]);
    assert_eq!(a.get_score(), a.get_score());
    assert_eq!(a.get_score(), b.get_score());
}

#[test]
fn score_overflow_is_reported() {
    let grid = vec![
        vec![tile("z", Multiplier::Word(65535)), tile("z", Multiplier::Word(65535))],
        vec![tile("z", Multiplier::Word(65535)), tile("z", Multiplier::Word(65535))],
    ];
    let board = Arc::new(Board::new(grid));
    let short = word_on(&board, &[(0, 0), (0, 1)]);
    assert_eq!(short.get_score(), Some(20 * 65535 * 65535));
    let long = word_on(&board, &[(0, 0), (0, 1), (1, 1), (1, 0)]);
    assert_eq!(long.get_score(), None);
}

#[test]
fn qu_tile_adds_one_letter() {
    let grid = vec![vec![plain("qu"), plain("i")], vec![plain("t"), plain("e")]];
    let board = Arc::new(Board::new(grid));
    let w = word_on(&board, &[(0, 0), (0, 1), (1, 0)]);
    assert_eq!(w.get_string(), "quit");
    assert_eq!(w.get_string().chars().count(), 3 + 1);
    assert_eq!(w.get_score(), Some(12));
    let plain_path = word_on(&board, &[(0, 1), (1, 0), (1, 1)]);
    assert_eq!(plain_path.get_string().chars().count(), 3);
}

#[test]
fn uses_loc_reports_visited_cells() {
    let board = sample_board();
    let w = word_on(&board, &[(0, 0), (1, 1)]);
    assert!(w.uses_loc(&BoardLocation(1, 1)));
    assert!(!w.uses_loc(&BoardLocation(1, 0)));
}

#[test]
fn dictionary_lookups() {
    let d = dictionary(&["dare", "red"]);
    assert!(d.contains(&"red".to_string()));
    assert!(!d.contains(&"re".to_string()));
    assert!(d.has_prefix(&"re".to_string()));
    assert!(d.has_prefix(&"dare".to_string()));
    assert!(!d.has_prefix(&"dares".to_string()));
    assert!(starts_with("dare", "da"));
    assert!(!starts_with("da", "dare"));
}

#[test]
fn search_finds_words_within_bound() {
    let board = sample_board();
    let d = dictionary(&["dare", "red", "ice", "zzz"]);
    let words = find_words(board.clone(), &d, 5);
    let mut texts: Vec<String> = words.iter().map(|w| w.get_string()).collect();
    texts.sort();
    for t in &texts {
        assert!(d.contains(t));
    }
    assert!(texts.contains(&"dare".to_string()));
    assert!(texts.contains(&"red".to_string()));
    assert!(texts.contains(&"ice".to_string()));
    assert!(!texts.contains(&"zzz".to_string()));
    let short = find_words(board, &d, 3);
    for w in &short {
        assert!(w.loc_vector.len() <= 3);
    }
    assert!(short.iter().all(|w| w.get_string() != "dare"));
    assert!(short.iter().any(|w| w.get_string() == "red"));
}

#[test]
fn same_text_routes_stay_separate() {
    let board = sample_board();
    let d = dictionary(&["re"]);
    let ranked = solve(board, &d, 2).unwrap();
    assert_eq!(ranked, vec![("re".to_string(), 4), ("re".to_string(), 6)]);
}

#[test]
fn ranked_output_in_dictionary_and_sorted() {
    let board = sample_board();
    let d = dictionary(&["dare", "red", "ice", "sat", "tie"]);
    let ranked = solve(board, &d, 5).unwrap();
    assert!(!ranked.is_empty());
    for (text, _) in &ranked {
        assert!(d.contains(text));
    }
    for pair in ranked.windows(2) {
        assert!(pair[0].1 <= pair[1].1);
    }
    assert!(ranked.contains(&("dare".to_string(), 15)));
    assert!(ranked.contains(&("red".to_string(), 12)));
}

#[test]
fn single_cell_board_has_no_words() {
    let board = Arc::new(Board::new(vec![vec![plain("a")]]));
    let d = dictionary(&["a", "aa"]);
    assert!(find_words(board.clone(), &d, 5).is_empty());
    assert_eq!(solve(board, &d, 5), Some(vec![]));
}

#[test]
fn words_from_one_start_cell() {
    let board = sample_board();
    let d = dictionary(&["dare", "red"]);
    let found = words_from(board.clone(), BoardLocation(2, 0), &d, 5);
    let texts: Vec<String> = found.iter().map(|w| w.get_string()).collect();
    assert_eq!(texts, vec!["dare".to_string(), "dare".to_string()]);
    let scores: Vec<Option<u64>> = found.iter().map(|w| w.get_score()).collect();
    assert_eq!(scores, vec![Some(7), Some(15)]);
    let start = word_on(&board, &[(1, 0)]);
    let grown = grown_words(&start, 3, &d);
    assert_eq!(grown.len(), 1);
    assert_eq!(grown[0].get_string(), "red");
}

#[test]
fn sort_is_stable() {
    let entries = vec![
        ("b".to_string(), 5u64),
        ("a".to_string(), 2),
        ("c".to_string(), 5),
        ("d".to_string(), 1),
        ("e".to_string(), 2),
    ];
    let sorted = sort_entries(entries);
    let names: Vec<&str> = sorted.iter().map(|e| e.0.as_str()).collect();
    assert_eq!(names, vec!["d", "a", "e", "b", "c"]);
    assert!(sort_entries(Vec::<(String, u64)>::new()).is_empty());
}

#[test]
fn multiplier_codes() {
    assert_eq!(Multiplier::from_code("dl"), Some(Multiplier::Letter(2)));
    assert_eq!(Multiplier::from_code("tl"), Some(Multiplier::Letter(3)));
    assert_eq!(Multiplier::from_code("dw"), Some(Multiplier::Word(2)));
    assert_eq!(Multiplier::from_code("tw"), Some(Multiplier::Word(3)));
    assert_eq!(Multiplier::from_code("un"), Some(Multiplier::Unmultiplied));
    assert_eq!(Multiplier::from_code("no"), None);
    assert_eq!(Multiplier::from_code("d"), None);
}

#[test]
fn nearest_reference() {
    assert_eq!(nearest(&vec![5, 3, 3, 9], 64), Some(1));
    assert_eq!(nearest(&vec![64, 70], 64), None);
    assert_eq!(nearest(&vec![], 64), None);
    assert_eq!(nearest(&vec![70, 63], 64), Some(1));
}

#[test]
fn dictionary_needs_increasing_words() {
    let sorted = vec!["a".to_string(), "ab".to_string(), "b".to_string()];
    assert!(Dictionary::new(sorted).is_some());
    let unsorted = vec!["b".to_string(), "a".to_string()];
    assert!(Dictionary::new(unsorted).is_none());
    let repeated = vec!["a".to_string(), "a".to_string()];
    assert!(Dictionary::new(repeated).is_none());
    assert!(Dictionary::new(Vec::new()).is_some());
}

#[test]
fn lexicographic_order() {
    assert!(lex_less("a", "ab"));
    assert!(lex_less("ab", "b"));
    assert!(!lex_less("b", "ab"));
    assert!(!lex_less("ab", "ab"));
    assert!(lex_less("", "a"));
    assert!(!lex_less("a", ""));
}

#[test]
fn prefix_lookup_over_many_words() {
    let d = dictionary(&["apple", "apply", "banana", "band", "bandana", "can", "cane"]);
    assert!(d.has_prefix(&"ban".to_string()));
    assert!(d.has_prefix(&"banda".to_string()));
    assert!(d.has_prefix(&"c".to_string()));
    assert!(!d.has_prefix(&"bb".to_string()));
    assert!(!d.has_prefix(&"canes".to_string()));
    assert!(!d.has_prefix(&"d".to_string()));
    assert!(d.contains(&"band".to_string()));
    assert!(!d.contains(&"ban".to_string()));
    assert!(d.contains(&"apple".to_string()));
    assert!(d.contains(&"cane".to_string()));
}

#[test]
fn alphabet_of_tiles() {
    let letters = tile_letters();
    assert_eq!(letters.len(), 26);
    assert_eq!(letters[0], "a");
    assert_eq!(letters[16], "qu");
    assert_eq!(letters[25], "z");
    assert!(!letters.contains(&"q".to_string()));
    for l in &letters {
        assert!(letter_value_of(l) > 0);
    }
}
