use wordgrid::grid::GridError;
use wordgrid::puzzle::{Puzzle, PuzzleError};

fn lines(words: &[&str]) -> Vec<String> {
    words.iter().map(|w| w.to_string()).collect()
}

#[test]
fn a_puzzle_of_one_word_is_solved_by_that_word() {
    let puzzle = Puzzle::new("CAT", &lines(&["CAT"])).unwrap();
    let search = puzzle.solve();
    assert_eq!(search.best_score(), 0);
    assert_eq!(search.solutions.len(), 1);
    assert_eq!(puzzle.spell(&search.solutions[0].plays), Some(vec!["CAT".to_string()]));
}

#[test]
fn a_puzzle_keeps_the_words_that_the_board_can_spell() {
    let words = lines(&["DOG", "GAME", "QUIZ", "WORD", "WORDGAME"]);
    let puzzle = Puzzle::new("WORDGAME", &words).unwrap();
    assert_eq!(puzzle.grid().remaining, 0xff);
    assert_eq!(puzzle.grid().letters[0], 23);
    // The root, and a node for every letter of DOG, GAME and WORDGAME.
    assert_eq!(puzzle.dict().len(), 1 + 3 + 4 + 8);
    let search = puzzle.solve();
    assert_eq!(search.best_score(), 10);
    let best = search.solutions.last().unwrap();
    assert_eq!(puzzle.spell(&best.plays), Some(vec!["WORDGAME".to_string()]));
}

#[test]
fn a_text_that_is_no_board_is_no_puzzle() {
    assert_eq!(
        Puzzle::new("ABCDEFGHI", &lines(&["CAT"])).err(),
        Some(PuzzleError::Grid(GridError::RowTooWide))
    );
    assert_eq!(
        Puzzle::new("A\nB\nC\nD\nE\nF\nG\nH\nI", &lines(&[])).err(),
        Some(PuzzleError::Grid(GridError::TooManyRows))
    );
    assert_eq!(
        Puzzle::new("cat", &lines(&["CAT"])).err(),
        Some(PuzzleError::Grid(GridError::InvalidLetter))
    );
}

#[test]
fn words_out_of_order_are_no_puzzle() {
    assert_eq!(Puzzle::new("CAT", &lines(&["CAT", "ACT"])).err(), Some(PuzzleError::Dictionary));
    assert!(Puzzle::new("CAT", &lines(&["ZOO", "ACT", "DOG", "CAT"])).is_ok());
}

#[test]
fn the_board_comes_before_the_words() {
    assert_eq!(
        Puzzle::new("C4T", &lines(&["CAT", "ACT"])).err(),
        Some(PuzzleError::Grid(GridError::InvalidLetter))
    );
}

#[test]
fn a_play_that_names_no_node_is_not_spelled() {
    let puzzle = Puzzle::new("CAT", &lines(&["CAT"])).unwrap();
    assert_eq!(puzzle.dict().len(), 4);
    assert_eq!(puzzle.spell(&vec![(0b111, 4)]), None);
    assert_eq!(puzzle.spell(&vec![(0b111, 3), (0, 99)]), None);
    assert_eq!(puzzle.spell(&vec![(0b011, 2)]), Some(vec!["CA".to_string()]));
    assert_eq!(puzzle.spell(&vec![(0, 0)]), Some(vec![String::new()]));
    assert_eq!(puzzle.spell(&Vec::new()), Some(Vec::new()));
}

#[test]
fn a_puzzle_without_cover_has_no_solution() {
    let puzzle = Puzzle::new("A Z", &lines(&["AB", "AZ"])).unwrap();
    let search = puzzle.solve();
    assert!(search.solutions.is_empty());
    assert_eq!(search.best_score(), 0);
    let puzzle = Puzzle::new("Q", &lines(&[])).unwrap();
    let search = puzzle.solve();
    assert!(search.solutions.is_empty());
    assert_eq!(search.best_score(), 0);
}
