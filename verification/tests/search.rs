use wordgrid::wordlist::get_dict_tree;
use wordgrid::dict::Node;
use wordgrid::grid::Grid;
use wordgrid::order::{may_precede, sort_candidates};
use wordgrid::scoring::{IDEAL_POINTS, WORD_BONUSES};
use wordgrid::search::{find_words, Frame};
use wordgrid::solve::{solve, solve_puzzle, winning_lengths, Search};
use wordgrid::spell::{reconstruct_word, spell_plays};

fn lines(words: &[&str]) -> Vec<String> {
    words.iter().map(|w| w.to_string()).collect()
}

fn found(grid: &Grid, tree: &Vec<Node>, lengths: [bool; 13]) -> Vec<(u64, String)> {
    let mut word_stack = Vec::new();
    let mut frames: Vec<Frame> = Vec::new();
    let end = find_words(grid, tree, &mut word_stack, lengths, &mut frames);
    assert_eq!(end, word_stack.len());
    let mut all: Vec<(u64, String)> =
        word_stack.iter().map(|(mask, node)| (*mask, reconstruct_word(tree, *node))).collect();
    all.sort();
    all
}

fn entry(mask: u64, word: &str) -> (u64, String) {
    (mask, word.to_string())
}

/// The words of the best cover, or none at all where there is no cover.
fn best_words(search: &Search, tree: &Vec<Node>) -> Vec<String> {
    match search.solutions.last() {
        Some(solution) => spell_plays(tree, &solution.plays),
        None => Vec::new(),
    }
}

#[test]
fn the_bonus_table_is_as_published() {
    assert_eq!(WORD_BONUSES, [0, 0, 0, 0, 1, 3, 5, 8, 10, 12, 14, 15, 16]);
}

#[test]
fn the_ideal_table_is_the_best_split_into_words() {
    assert_eq!(IDEAL_POINTS[0], 0);
    for cells in 1..=64usize {
        let mut best = 0;
        for len in 1..=cells.min(12) {
            best = best.max(WORD_BONUSES[len] + IDEAL_POINTS[cells - len]);
        }
        assert_eq!(IDEAL_POINTS[cells], best, "{} cells", cells);
    }
    assert_eq!(IDEAL_POINTS[12], 16);
    assert_eq!(IDEAL_POINTS[13], 16);
    assert_eq!(IDEAL_POINTS[16], 20);
    assert_eq!(IDEAL_POINTS[36], 48);
    assert_eq!(IDEAL_POINTS[64], 88);
}

#[test]
fn find_words_finds_the_word_on_the_board() {
    let grid = Grid::new("CAT").unwrap();
    let tree = get_dict_tree("CAT", &lines(&["CAT"]));
    assert_eq!(found(&grid, &tree, [true; 13]), vec![entry(0b111, "CAT")]);
}

#[test]
fn find_words_follows_neighbours_only() {
    let grid = Grid::new("CAT").unwrap();
    let tree = get_dict_tree("CAT", &lines(&["ACT", "AT", "CAT", "TA", "TAC"]));
    // C and T are no neighbours, so ACT does not lie on the board.
    assert_eq!(
        found(&grid, &tree, [true; 13]),
        vec![entry(0b110, "AT"), entry(0b110, "TA"), entry(0b111, "CAT"), entry(0b111, "TAC")]
    );
}

#[test]
fn find_words_uses_no_cell_twice() {
    let grid = Grid::new("TA").unwrap();
    let tree = get_dict_tree("TAT", &lines(&["AT", "TA", "TAT"]));
    assert_eq!(found(&grid, &tree, [true; 13]), vec![entry(0b11, "AT"), entry(0b11, "TA")]);
}

#[test]
fn find_words_finds_every_way_to_lay_a_word() {
    let grid = Grid::new("AT\nTA").unwrap();
    let tree = get_dict_tree("ATTA", &lines(&["AT"]));
    // Each A has both T for neighbours, and the other A.
    assert_eq!(
        found(&grid, &tree, [true; 13]),
        vec![
            entry(0x0003, "AT"),
            entry(0x0101, "AT"),
            entry(0x0202, "AT"),
            entry(0x0300, "AT"),
        ]
    );
}

#[test]
fn find_words_keeps_to_the_free_cells() {
    let mut grid = Grid::new("CAT").unwrap();
    let tree = get_dict_tree("CAT", &lines(&["AT", "CAT", "TA"]));
    grid.flip(0b001);
    assert_eq!(found(&grid, &tree, [true; 13]), vec![entry(0b110, "AT"), entry(0b110, "TA")]);
    grid.flip(0b010);
    assert_eq!(found(&grid, &tree, [true; 13]), Vec::new());
}

#[test]
fn find_words_leaves_out_the_lengths_that_are_not_wanted() {
    let grid = Grid::new("CAT").unwrap();
    let tree = get_dict_tree("CAT", &lines(&["AT", "CAT", "TA"]));
    let mut lengths = [true; 13];
    lengths[2] = false;
    assert_eq!(found(&grid, &tree, lengths), vec![entry(0b111, "CAT")]);
    lengths[3] = false;
    assert_eq!(found(&grid, &tree, lengths), Vec::new());
}

#[test]
fn find_words_appends_to_what_the_stack_holds() {
    let grid = Grid::new("CAT").unwrap();
    let tree = get_dict_tree("CAT", &lines(&["CAT"]));
    let mut word_stack = vec![(5u64, 7usize), (6, 8)];
    let mut frames = vec![Frame { cell: 1, mask: 2, node: 3 }];
    let end = find_words(&grid, &tree, &mut word_stack, [true; 13], &mut frames);
    assert_eq!(end, 3);
    assert_eq!(word_stack, vec![(5, 7), (6, 8), (0b111, 3)]);
    assert!(frames.is_empty());
}

#[test]
fn every_candidate_lies_on_free_cells_and_ends_a_word() {
    let text = "STAR\nTLED\nEARS";
    let words = ["ART", "EAR", "EARS", "LED", "RAT", "SEA", "STAR", "START", "TAR", "TEA", "TEAR"];
    let mut grid = Grid::new(text).unwrap();
    let tree = get_dict_tree(text, &lines(&words));
    for used in [0u64, 0x0f, 0x0f00, 0x010101, 0x030201] {
        grid.flip(used);
        let mut word_stack = Vec::new();
        let mut frames = Vec::new();
        find_words(&grid, &tree, &mut word_stack, [true; 13], &mut frames);
        for (mask, node) in word_stack {
            assert_eq!(mask & !grid.remaining, 0);
            assert!(tree[node].is_terminal());
            assert_eq!(tree[node].len, mask.count_ones() as usize);
            assert!(words.contains(&reconstruct_word(&tree, node).as_str()));
        }
        grid.flip(used);
    }
}

#[test]
fn longer_words_and_greater_sets_come_first() {
    assert!(may_precede((0b111, 0), (0b11, 0)));
    assert!(!may_precede((0b11, 0), (0b111, 0)));
    assert!(may_precede((0b110, 0), (0b011, 0)));
    assert!(!may_precede((0b011, 0), (0b110, 0)));
    assert!(may_precede((0b11, 1), (0b11, 2)));
    assert!(may_precede((0b11, 2), (0b11, 1)));
    assert!(may_precede((0b1000_0001, 0), (0b0110_0000, 0)));
}

#[test]
fn sort_candidates_sorts_the_end_of_the_stack() {
    let mut stack =
        vec![(1, 9), (0b11, 8), (0b100, 1), (0b111, 2), (0b011, 3), (0b110, 4), (0b111, 5)];
    sort_candidates(&mut stack, 2);
    assert_eq!(&stack[..2], &[(1, 9), (0b11, 8)]);
    let masks: Vec<u64> = stack[2..].iter().map(|e| e.0).collect();
    assert_eq!(masks, vec![0b111, 0b111, 0b110, 0b011, 0b100]);
    let mut nodes: Vec<usize> = stack[2..].iter().map(|e| e.1).collect();
    nodes.sort();
    assert_eq!(nodes, vec![1, 2, 3, 4, 5]);
}

#[test]
fn sort_candidates_leaves_an_empty_end_alone() {
    let mut stack = vec![(0b1, 1), (0b111, 2)];
    sort_candidates(&mut stack, 2);
    assert_eq!(stack, vec![(0b1, 1), (0b111, 2)]);
    let mut none: Vec<(u64, usize)> = Vec::new();
    sort_candidates(&mut none, 0);
    assert!(none.is_empty());
}

#[test]
fn every_length_is_worth_trying_while_nothing_is_found() {
    assert_eq!(winning_lengths(0, 3, -1), [true; 13]);
    assert_eq!(winning_lengths(0, 64, -1), [true; 13]);
}

#[test]
fn a_length_is_left_out_if_it_cannot_beat_the_best() {
    // 8 cells, nothing scored, 10 to beat: only the word of 8 letters
    // reaches 10, and none reaches more.
    assert_eq!(winning_lengths(0, 8, 10), {
        let mut lengths = [true; 13];
        for len in 1..=8 {
            lengths[len] = false;
        }
        lengths
    });
    // 9 to beat: the word of 8 letters reaches 10.
    let lengths = winning_lengths(0, 8, 9);
    assert!(lengths[8]);
    assert!(!lengths[7]);
    assert!(!lengths[4]);
    // 16 cells, 17 to beat: 8 + 8 gives 20, 12 + 4 gives 17, 7 + 9 gives 20.
    let lengths = winning_lengths(0, 16, 17);
    assert!(lengths[8]);
    assert!(lengths[7]);
    assert!(lengths[9]);
    assert!(!lengths[12]);
    assert!(!lengths[4]);
    // With 3 points in hand the word of 12 letters reaches 20.
    assert!(winning_lengths(3, 16, 17)[12]);
}

#[test]
fn a_board_of_one_letter_that_is_no_word_has_no_cover() {
    let mut grid = Grid::new("Q").unwrap();
    let tree = get_dict_tree("Q", &lines(&["CAT", "A"]));
    let search = solve(&mut grid, &tree);
    assert_eq!(search.best_score(), 0);
    assert!(search.solutions.is_empty());
    assert_eq!(best_words(&search, &tree), Vec::<String>::new());
    assert_eq!(grid.remaining, 1);
}

#[test]
fn a_cell_that_no_word_reaches_leaves_the_board_without_cover() {
    let mut grid = Grid::new("A Z").unwrap();
    // Not even the words AZ and ZA help: the two cells do not touch.
    let tree = get_dict_tree("A Z", &lines(&["AB", "AZ", "ZA", "ZOO"]));
    assert_eq!(found(&grid, &tree, [true; 13]), Vec::new());
    let search = solve(&mut grid, &tree);
    assert_eq!(search.best_score(), 0);
    assert!(search.solutions.is_empty());
    assert_eq!(best_words(&search, &tree), Vec::<String>::new());
}

#[test]
fn the_other_cells_having_a_cover_does_not_help() {
    let mut grid = Grid::new("WORD\n\nQ").unwrap();
    let tree = get_dict_tree("WORDQ", &lines(&["WORD"]));
    let search = solve(&mut grid, &tree);
    assert_eq!(search.best_score(), 0);
    assert!(search.solutions.is_empty());
    assert!(search.node_count >= 2);
}

#[test]
fn a_board_of_one_word() {
    let mut grid = Grid::new("CAT").unwrap();
    let tree = get_dict_tree("CAT", &lines(&["CAT"]));
    let search = solve(&mut grid, &tree);
    assert_eq!(search.best_score(), WORD_BONUSES[3]);
    assert_eq!(search.best_score(), 0);
    assert_eq!(search.solutions.len(), 1);
    assert_eq!(best_words(&search, &tree), vec!["CAT"]);
    assert_eq!(search.solutions[0].plays, vec![(0b111, 3)]);
    assert_eq!(grid.remaining, 0b111);
}

#[test]
fn an_empty_board_is_covered_by_no_words() {
    let mut grid = Grid::new("").unwrap();
    let tree = get_dict_tree("", &lines(&["CAT"]));
    let search = solve(&mut grid, &tree);
    assert_eq!(search.solutions.len(), 1);
    assert_eq!(search.solutions[0].total, 0);
    assert!(search.solutions[0].plays.is_empty());
    assert_eq!(search.node_count, 1);
}

#[test]
fn one_long_word_beats_two_short_ones() {
    let text = "WORDGAME";
    let mut grid = Grid::new(text).unwrap();
    let tree = get_dict_tree(text, &lines(&["GAME", "WORD", "WORDGAME"]));
    let search = solve(&mut grid, &tree);
    assert_eq!(search.best_score(), 10);
    assert_eq!(best_words(&search, &tree), vec!["WORDGAME"]);
}

#[test]
fn two_words_cover_the_board_where_no_long_word_does() {
    let text = "WORDGAME";
    let mut grid = Grid::new(text).unwrap();
    let tree = get_dict_tree(text, &lines(&["GAME", "WORD"]));
    let search = solve(&mut grid, &tree);
    assert_eq!(search.best_score(), 2);
    let mut words = best_words(&search, &tree);
    words.sort();
    assert_eq!(words, vec!["GAME", "WORD"]);
    let solution = search.solutions.last().unwrap();
    assert_eq!(solution.plays.iter().fold(0, |all, play| all | play.0), 0xff);
}

#[test]
fn the_best_cover_is_not_the_one_with_the_longest_word() {
    // 16 cells: the word of 12 letters leaves four letters for 17 points,
    // the two words of 8 letters give 20.
    let text = "ABCDEFGH\nIJKLMNOP";
    let mut grid = Grid::new(text).unwrap();
    let words = ["ABCDEFGH", "ABCDEFGHPONM", "IJKL", "IJKLMNOP"];
    let tree = get_dict_tree(text, &lines(&words));
    let search = solve(&mut grid, &tree);
    assert_eq!(search.best_score(), 20);
    let mut best = best_words(&search, &tree);
    best.sort();
    assert_eq!(best, vec!["ABCDEFGH", "IJKLMNOP"]);
    let without = ["ABCDEFGH", "ABCDEFGHPONM", "IJKL"];
    let tree = get_dict_tree(text, &lines(&without));
    let search = solve(&mut grid, &tree);
    assert_eq!(search.best_score(), 17);
    assert_eq!(best_words(&search, &tree), vec!["ABCDEFGHPONM", "IJKL"]);
}

#[test]
fn the_scores_of_the_covers_found_rise() {
    let text = "ABCDEFGH\nIJKLMNOP";
    let mut grid = Grid::new(text).unwrap();
    let words = ["ABCDEFGH", "ABCDEFGHPONM", "IJKL", "IJKLMNOP"];
    let tree = get_dict_tree(text, &lines(&words));
    let search = solve(&mut grid, &tree);
    let totals: Vec<u8> = search.solutions.iter().map(|s| s.total).collect();
    assert_eq!(totals, vec![17, 20]);
    for pair in search.solutions.windows(2) {
        assert!(pair[0].total < pair[1].total);
    }
    for solution in &search.solutions {
        let mut used = 0u64;
        let mut total = 0;
        for (mask, node) in &solution.plays {
            assert_eq!(used & mask, 0);
            used |= mask;
            assert!(tree[*node].is_terminal());
            total += WORD_BONUSES[mask.count_ones() as usize];
        }
        assert_eq!(used, grid.remaining);
        assert_eq!(total, solution.total);
    }
}

#[test]
fn the_search_leaves_board_and_stacks_as_they_were() {
    let text = "STAR\nDELT";
    let mut grid = Grid::new(text).unwrap();
    let tree = get_dict_tree(text, &lines(&["DELT", "LED", "STAR", "STARTLED", "T"]));
    let remaining = grid.remaining;
    let adjacency = grid.adjacency;
    let mut search = Search::new(&grid);
    search.word_stack.push((1, 1));
    solve_puzzle(&mut grid, &tree, 0, &mut search);
    assert_eq!(grid.remaining, remaining);
    assert_eq!(grid.adjacency, adjacency);
    assert!(search.plays.is_empty());
    assert_eq!(search.word_stack, vec![(1, 1)]);
    assert_eq!(search.board, remaining);
    assert!(search.node_count > 1);
    assert!(!search.cache.is_empty());
    assert_eq!(search.best_score(), 10);
}

#[test]
fn a_second_search_does_not_lower_the_best() {
    let text = "WORDGAME";
    let mut grid = Grid::new(text).unwrap();
    let tree = get_dict_tree(text, &lines(&["GAME", "WORD", "WORDGAME"]));
    let mut search = Search::new(&grid);
    solve_puzzle(&mut grid, &tree, 0, &mut search);
    let found = search.solutions.len();
    let best = search.best_score();
    solve_puzzle(&mut grid, &tree, 0, &mut search);
    assert_eq!(search.solutions.len(), found);
    assert_eq!(search.best_score(), best);
    assert_eq!(search.best_total(), 10);
}

#[test]
fn nothing_found_yet_is_a_score_to_beat_of_minus_one() {
    let grid = Grid::new("CAT").unwrap();
    let search = Search::new(&grid);
    assert_eq!(search.best_total(), -1);
    assert_eq!(search.best_score(), 0);
    assert_eq!(search.board, 0b111);
    assert_eq!(search.node_count, 0);
}

#[test]
fn words_of_the_same_cells_are_tried_once() {
    let text = "TA";
    let mut grid = Grid::new(text).unwrap();
    let tree = get_dict_tree(text, &lines(&["AT", "TA"]));
    let search = solve(&mut grid, &tree);
    assert_eq!(search.solutions.len(), 1);
    assert_eq!(search.node_count, 2);
}

/// The best score of any cover of `rem`, by trying every candidate.
fn brute(grid: &mut Grid, tree: &Vec<Node>, rem: u64) -> Option<u32> {
    if rem == 0 {
        return Some(0);
    }
    let mut word_stack = Vec::new();
    let mut frames = Vec::new();
    find_words(grid, tree, &mut word_stack, [true; 13], &mut frames);
    let mut best = None;
    for (mask, _) in word_stack {
        grid.flip(mask);
        let rest = brute(grid, tree, rem ^ mask);
        grid.flip(mask);
        if let Some(points) = rest {
            let total = points + WORD_BONUSES[mask.count_ones() as usize] as u32;
            if best.map_or(true, |b| total > b) {
                best = Some(total);
            }
        }
    }
    best
}

#[test]
fn the_search_agrees_with_trying_everything() {
    let cases: [(&str, &[&str]); 6] = [
        ("STAR\nDELT", &["DELT", "LED", "RAT", "STAR", "START", "STARTLED", "TLED"]),
        ("ABCDEFGH\nIJKLMNOP", &["ABCDEFGH", "ABCDEFGHPONM", "IJKL", "IJKLMNOP", "MNOP"]),
        ("ABCD\nEFGH", &["ABCD", "ABCDH", "EFG", "EFGH", "GFE", "HGFE"]),
        ("CAT\nDOG", &["CAT", "DO", "DOG", "GOD", "TACO"]),
        ("AB\nCD\nEF", &["AB", "ABDC", "CD", "EF", "FE", "FEDC"]),
        ("LATE\nSTAR", &["LATE", "RATS", "STAR", "TALE", "TEAL"]),
    ];
    for (text, words) in cases {
        let mut grid = Grid::new(text).unwrap();
        let tree = get_dict_tree(text, &lines(words));
        let rem = grid.remaining;
        let expected = brute(&mut grid, &tree, rem);
        let search = solve(&mut grid, &tree);
        match expected {
            Some(points) => {
                assert_eq!(search.best_score() as u32, points, "{}", text);
                assert!(!search.solutions.is_empty());
            }
            None => assert!(search.solutions.is_empty(), "{}", text),
        }
    }
}

#[test]
fn the_cache_holds_what_is_left_to_win() {
    let text = "WORDGAME";
    let mut grid = Grid::new(text).unwrap();
    let tree = get_dict_tree(text, &lines(&["GAME", "WORD", "WORDGAME"]));
    let search = solve(&mut grid, &tree);
    // The long word is tried first and gives 10. After that a word of four
    // letters leaves four cells that cannot bring the 1 point in hand
    // above 10: what is left to win there is at most 9.
    let mut cached: Vec<(u64, u8)> = search.cache.iter().map(|(k, v)| (*k, *v)).collect();
    cached.sort();
    assert_eq!(cached, vec![(0x0f, 9), (0xf0, 9), (0xff, 10)]);
    assert_eq!(search.node_count, 4);
}

#[test]
fn the_cache_cuts_a_search_short() {
    let text = "WORDGAME";
    let mut grid = Grid::new(text).unwrap();
    let tree = get_dict_tree(text, &lines(&["GAME", "WORD", "WORDGAME"]));
    let mut search = Search::new(&grid);
    solve_puzzle(&mut grid, &tree, 0, &mut search);
    let visited = search.node_count;
    let found = search.solutions.len();
    let cached = search.cache.clone();
    solve_puzzle(&mut grid, &tree, 0, &mut search);
    assert_eq!(search.node_count, visited + 1);
    assert_eq!(search.solutions.len(), found);
    assert_eq!(search.cache, cached);
    assert_eq!(grid.remaining, 0xff);
}

#[test]
fn a_call_without_free_cells_counts_once() {
    let mut grid = Grid::new("CAT").unwrap();
    let tree = get_dict_tree("CAT", &lines(&["CAT"]));
    let mut search = Search::new(&grid);
    grid.flip(0b111);
    search.plays.push((0b111, 3));
    solve_puzzle(&mut grid, &tree, 0, &mut search);
    assert_eq!(search.node_count, 1);
    assert!(search.cache.is_empty());
    assert_eq!(search.solutions.len(), 1);
    assert_eq!(search.solutions[0].total, 0);
    assert_eq!(search.solutions[0].plays, vec![(0b111, 3)]);
    // The same cover again does not beat itself.
    solve_puzzle(&mut grid, &tree, 0, &mut search);
    assert_eq!(search.node_count, 2);
    assert_eq!(search.solutions.len(), 1);
    assert!(search.cache.is_empty());
}

#[test]
fn the_count_of_calls_stops_at_the_greatest_number() {
    let mut grid = Grid::new("").unwrap();
    let tree = get_dict_tree("", &lines(&[]));
    let mut search = Search::new(&grid);
    search.node_count = u64::MAX - 1;
    solve_puzzle(&mut grid, &tree, 0, &mut search);
    assert_eq!(search.node_count, u64::MAX);
    solve_puzzle(&mut grid, &tree, 0, &mut search);
    assert_eq!(search.node_count, u64::MAX);
}

#[test]
fn a_dead_end_caches_what_is_left_to_win_and_counts_once() {
    let text = "WORDGAME";
    let mut grid = Grid::new(text).unwrap();
    let tree = get_dict_tree(text, &lines(&["GAME", "WORD", "WORDGAME"]));
    let mut search = Search::new(&grid);
    solve_puzzle(&mut grid, &tree, 0, &mut search);
    // With GAME taken for 1 point and 10 to beat, WORD is not worth trying.
    let mut fresh = Search::new(&grid);
    fresh.solutions.push(wordgrid::solve::Solution { total: 10, plays: vec![(0xff, 8)] });
    fresh.plays.push((0xf0, 12));
    grid.flip(0xf0);
    solve_puzzle(&mut grid, &tree, 1, &mut fresh);
    assert_eq!(fresh.node_count, 1);
    assert_eq!(fresh.solutions.len(), 1);
    assert_eq!(fresh.cache.len(), 1);
    assert_eq!(fresh.cache.get(&0x0f), Some(&9));
    assert_eq!(grid.remaining, 0x0f);
}

#[test]
fn a_board_without_cover_is_cached_with_nothing_to_win() {
    let mut grid = Grid::new("Q").unwrap();
    let tree = get_dict_tree("Q", &lines(&[]));
    let search = solve(&mut grid, &tree);
    assert_eq!(search.cache.get(&1), Some(&0));
    assert_eq!(search.node_count, 1);
}

#[test]
fn a_board_of_sixteen_letters_with_many_words() {
    let text = "STAR\nEMIT\nLOGS\nDENY";
    let words = [
        "DENY", "DOG", "EMIT", "GO", "GOD", "IT", "ITEM", "LEG", "LOG", "LOGS", "ME", "MET",
        "MITE", "MOLE", "NO", "ONE", "RAT", "RATS", "SIT", "SMILE", "STAR", "STARE", "TAR",
        "TARS", "TIME", "TIMES", "YEN", "YES",
    ];
    let mut sorted: Vec<&str> = words.to_vec();
    sorted.sort();
    let mut grid = Grid::new(text).unwrap();
    let tree = get_dict_tree(text, &lines(&sorted));
    let rem = grid.remaining;
    let expected = brute(&mut grid, &tree, rem);
    let search = solve(&mut grid, &tree);
    // TIMES runs from the T of the second row back to the S of the first.
    assert_eq!(expected, Some(5));
    assert_eq!(search.best_score(), 5);
    let mut best = best_words(&search, &tree);
    best.sort();
    assert_eq!(best.len(), 4);
    assert_eq!(best[0], "DENY");
    assert_eq!(best[1], "LOGS");
    assert!(best[2] == "RAT" || best[2] == "TAR");
    assert_eq!(best[3], "TIMES");
}

#[test]
fn length_zero_is_always_admitted() {
    assert!(winning_lengths(0, 0, 100)[0]);
    assert!(winning_lengths(5, 64, 88)[0]);
}

#[test]
fn find_words_goes_from_the_lowest_cell_and_to_the_highest_neighbour_first() {
    let grid = Grid::new("AT\nTA").unwrap();
    let tree = get_dict_tree("ATTA", &lines(&["A", "AT"]));
    let mut word_stack = Vec::new();
    let mut frames = Vec::new();
    find_words(&grid, &tree, &mut word_stack, [true; 13], &mut frames);
    let masks: Vec<u64> = word_stack.iter().map(|e| e.0).collect();
    // From the A in cell 0: the A itself, then on to the T in cell 8, then
    // to the T in cell 1; after that the same from the A in cell 9.
    assert_eq!(masks, vec![0x0001, 0x0101, 0x0003, 0x0200, 0x0300, 0x0202]);
}

/// A sequence of numbers that looks random and is the same every time.
struct Numbers(u64);

impl Numbers {
    fn next(&mut self) -> u64 {
        self.0 = self.0.wrapping_mul(6364136223846793005).wrapping_add(1442695040888963407);
        self.0 >> 33
    }
}

#[test]
fn the_search_agrees_with_trying_everything_on_many_small_boards() {
    let mut numbers = Numbers(11);
    for round in 0..60 {
        // A board of three rows of up to four letters, of a small alphabet.
        let mut text = String::new();
        for _ in 0..3 {
            let width = 2 + numbers.next() % 3;
            for _ in 0..width {
                text.push((b'A' + (numbers.next() % 4) as u8) as char);
            }
            text.push('\n');
        }
        let mut grid = Grid::new(&text).unwrap();
        // Words that lie on the board: walks from cell to neighbour.
        let mut words: Vec<String> = Vec::new();
        for _ in 0..12 {
            let cells: Vec<usize> = (0..64).filter(|c| grid.remaining >> c & 1 == 1).collect();
            let mut cell = cells[(numbers.next() % cells.len() as u64) as usize];
            let mut used = 1u64 << cell;
            let mut word = String::new();
            word.push(wordgrid::letters::from_bits(grid.letters[cell] as u64));
            let length = 1 + numbers.next() % 6;
            for _ in 1..length {
                let next: Vec<usize> =
                    (0..64).filter(|c| (grid.adjacency[cell] & !used) >> c & 1 == 1).collect();
                if next.is_empty() {
                    break;
                }
                cell = next[(numbers.next() % next.len() as u64) as usize];
                used |= 1 << cell;
                word.push(wordgrid::letters::from_bits(grid.letters[cell] as u64));
            }
            words.push(word);
        }
        words.sort();
        words.dedup();
        let tree = get_dict_tree(&text, &words);
        let rem = grid.remaining;
        let expected = brute(&mut grid, &tree, rem);
        let search = solve(&mut grid, &tree);
        match expected {
            Some(points) => {
                assert_eq!(search.best_score() as u32, points, "round {} {:?}", round, text);
                let best = search.solutions.last().unwrap();
                assert_eq!(best.plays.iter().fold(0, |all, play| all | play.0), rem);
            }
            None => assert!(search.solutions.is_empty(), "round {} {:?}", round, text),
        }
        assert_eq!(grid.remaining, rem);
    }
}
