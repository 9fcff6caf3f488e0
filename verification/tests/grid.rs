use wordgrid::geometry::neighbours_of;
use wordgrid::grid::{Grid, GridError};

fn neighbours(grid: &Grid, cell: usize) -> Vec<usize> {
    (0..64).filter(|j| grid.adjacency[cell] >> j & 1 == 1).collect()
}

#[test]
fn one_row_of_three_letters() {
    let grid = Grid::new("CAT").unwrap();
    assert_eq!(grid.letters[0], 3);
    assert_eq!(grid.letters[1], 1);
    assert_eq!(grid.letters[2], 20);
    for cell in 3..64 {
        assert_eq!(grid.letters[cell], 0);
    }
    assert_eq!(grid.remaining, 0b111);
    assert_eq!(neighbours(&grid, 0), vec![1]);
    assert_eq!(neighbours(&grid, 1), vec![0, 2]);
    assert_eq!(neighbours(&grid, 2), vec![1]);
    assert_eq!(grid.adjacency_ords[0], 1 << 1);
    assert_eq!(grid.adjacency_ords[1], (1 << 3) | (1 << 20));
    assert_eq!(grid.adjacency_ords[2], 1 << 1);
}

#[test]
fn rows_start_at_multiples_of_eight() {
    let grid = Grid::new("AB\nCD").unwrap();
    assert_eq!(grid.letters[0], 1);
    assert_eq!(grid.letters[1], 2);
    assert_eq!(grid.letters[8], 3);
    assert_eq!(grid.letters[9], 4);
    assert_eq!(grid.remaining, 0x0303);
    assert_eq!(neighbours(&grid, 0), vec![1, 8, 9]);
    assert_eq!(neighbours(&grid, 9), vec![0, 1, 8]);
}

#[test]
fn empty_lines_are_skipped() {
    let with = Grid::new("\nAB\n\n\nCD\n").unwrap();
    let without = Grid::new("AB\nCD").unwrap();
    assert_eq!(with.letters, without.letters);
    assert_eq!(with.remaining, without.remaining);
    assert_eq!(with.adjacency, without.adjacency);
    assert_eq!(with.adjacency_ords, without.adjacency_ords);
}

#[test]
fn a_full_row_needs_no_padding() {
    let grid = Grid::new("ABCDEFGH\nIJ").unwrap();
    assert_eq!(grid.letters[7], 8);
    assert_eq!(grid.letters[8], 9);
    assert_eq!(grid.letters[9], 10);
    assert_eq!(grid.remaining, 0x03ff);
}

#[test]
fn spaces_leave_cells_empty() {
    let grid = Grid::new("A Z").unwrap();
    assert_eq!(grid.letters[0], 1);
    assert_eq!(grid.letters[1], 0);
    assert_eq!(grid.letters[2], 26);
    assert_eq!(grid.remaining, 0b101);
    assert_eq!(grid.adjacency[1], 0);
    assert_eq!(grid.adjacency_ords[1], 0);
}

#[test]
fn nothing_reaches_over_an_empty_cell_in_a_row() {
    let grid = Grid::new("A Z").unwrap();
    assert_eq!(neighbours(&grid, 0), Vec::<usize>::new());
    assert_eq!(neighbours(&grid, 2), Vec::<usize>::new());
    assert_eq!(grid.adjacency[0], 0);
    assert_eq!(grid.adjacency[2], 0);
    assert_eq!(grid.adjacency_ords[0], 0);
    assert_eq!(grid.adjacency_ords[2], 0);
}

#[test]
fn nothing_reaches_over_an_empty_cell_in_a_column() {
    let grid = Grid::new("A\n \nZ").unwrap();
    assert_eq!(grid.remaining, 0x0001_0001);
    assert_eq!(grid.adjacency[0], 0);
    assert_eq!(grid.adjacency[16], 0);
}

#[test]
fn an_empty_cell_in_the_middle_leaves_its_neighbours_to_each_other() {
    let grid = Grid::new("ABC\nD F\nGHI").unwrap();
    // B has the cell below it empty: H, two rows down, is no neighbour.
    assert_eq!(neighbours(&grid, 1), vec![0, 2, 8, 10]);
    assert_eq!(neighbours(&grid, 17), vec![8, 10, 16, 18]);
    assert_eq!(neighbours(&grid, 8), vec![0, 1, 16, 17]);
    assert_eq!(neighbours(&grid, 0), vec![1, 8]);
}

#[test]
fn a_short_row_leaves_the_cells_above_its_end_without_neighbour_below() {
    let grid = Grid::new("ABC\nDE\nFG").unwrap();
    // C touches B beside it and E at its corner, and nothing further down.
    assert_eq!(neighbours(&grid, 2), vec![1, 9]);
    assert_eq!(neighbours(&grid, 17), vec![8, 9, 16]);
}

#[test]
fn a_full_board_has_the_eight_neighbours_of_a_chessboard() {
    let row = "ABCDEFGH";
    let text = vec![row; 8].join("\n");
    let grid = Grid::new(&text).unwrap();
    assert_eq!(grid.remaining, u64::MAX);
    assert_eq!(neighbours(&grid, 0), vec![1, 8, 9]);
    assert_eq!(neighbours(&grid, 7), vec![6, 14, 15]);
    assert_eq!(neighbours(&grid, 63), vec![54, 55, 62]);
    assert_eq!(neighbours(&grid, 56), vec![48, 49, 57]);
    assert_eq!(neighbours(&grid, 27), vec![18, 19, 20, 26, 28, 34, 35, 36]);
    for cell in 0..64usize {
        let (r, c) = (cell as i32 / 8, cell as i32 % 8);
        let mut expected = Vec::new();
        for other in 0..64usize {
            let (r2, c2) = (other as i32 / 8, other as i32 % 8);
            if other != cell && (r - r2).abs() <= 1 && (c - c2).abs() <= 1 {
                expected.push(other);
            }
        }
        assert_eq!(neighbours(&grid, cell), expected);
    }
}

#[test]
fn neighbours_are_mutual() {
    let texts = [
        "CAT",
        "ABC\nD F\nGHI",
        "A Z",
        "ABCDEFGH\nABCDEFGH\nABCDEFGH\nABCDEFGH\nABCDEFGH\nABCDEFGH\nABCDEFGH\nABCDEFGH",
        "A   B  C\n  D\nEF     G\n\n   H\nI      J",
        "       A\n       B\n      C",
    ];
    for text in texts {
        let grid = Grid::new(text).unwrap();
        for a in 0..64 {
            for b in 0..64 {
                if grid.letters[a] != 0 && grid.letters[b] != 0 {
                    assert_eq!(
                        grid.adjacency[a] >> b & 1,
                        grid.adjacency[b] >> a & 1,
                        "{} {} in {:?}",
                        a,
                        b,
                        text
                    );
                }
            }
        }
    }
}

#[test]
fn the_last_column_has_no_neighbour_in_the_first_row_of_the_column_before() {
    let row = "ABCDEFGH";
    let text = vec![row; 8].join("\n");
    let grid = Grid::new(&text).unwrap();
    assert_eq!(grid.adjacency[63] >> 6 & 1, 0);
    assert_eq!(grid.adjacency[55] >> 6 & 1, 0);
}

#[test]
fn neighbours_of_agrees_with_the_board() {
    let grid = Grid::new("ABC\nD F\nGHI").unwrap();
    let occupied = grid.occupancy();
    assert_eq!(occupied, grid.remaining);
    for cell in 0..64 {
        if grid.letters[cell] != 0 {
            assert_eq!(neighbours_of(occupied, cell), grid.adjacency[cell]);
        }
    }
}

#[test]
fn neighbour_ordinals_are_those_of_the_neighbours() {
    let grid = Grid::new("ABC\nD F\nGHI").unwrap();
    for cell in 0..64usize {
        if grid.letters[cell] != 0 {
            let mut expected = 0usize;
            for other in 0..64 {
                if grid.adjacency[cell] >> other & 1 == 1 {
                    expected |= 1 << grid.letters[other];
                }
            }
            assert_eq!(grid.adjacency_ords[cell], expected);
        }
    }
}

#[test]
fn a_row_of_nine_cells_is_refused() {
    assert_eq!(Grid::new("ABCDEFGHI").err(), Some(GridError::RowTooWide));
    assert_eq!(Grid::new("AB\nABCDEFGH \nCD").err(), Some(GridError::RowTooWide));
    assert!(Grid::new("ABCDEFGH").is_ok());
}

#[test]
fn a_ninth_row_is_refused() {
    let eight = vec!["AB"; 8].join("\n");
    assert!(Grid::new(&eight).is_ok());
    let nine = vec!["AB"; 9].join("\n");
    assert_eq!(Grid::new(&nine).err(), Some(GridError::TooManyRows));
    let spaced = format!("{}\n\n\n", eight);
    assert!(Grid::new(&spaced).is_ok());
}

#[test]
fn what_is_no_letter_is_refused() {
    assert_eq!(Grid::new("CaT").err(), Some(GridError::InvalidLetter));
    assert_eq!(Grid::new("C4T").err(), Some(GridError::InvalidLetter));
    assert_eq!(Grid::new("CAT\r\nDOG").err(), Some(GridError::InvalidLetter));
}

#[test]
fn the_first_fault_in_the_text_decides() {
    assert_eq!(Grid::new("a\nABCDEFGHI").err(), Some(GridError::InvalidLetter));
    assert_eq!(Grid::new("ABCDEFGHI\na").err(), Some(GridError::RowTooWide));
    assert_eq!(Grid::new("ABCDEFGHa").err(), Some(GridError::RowTooWide));
}

#[test]
fn an_empty_text_is_an_empty_board() {
    let grid = Grid::new("").unwrap();
    assert_eq!(grid.remaining, 0);
    assert_eq!(grid.letters, [0; 64]);
}

#[test]
fn accented_letters_stand_on_the_board() {
    let grid = Grid::new("\u{c4}\u{c5}\u{d6}").unwrap();
    assert_eq!(grid.letters[0], 27);
    assert_eq!(grid.letters[1], 28);
    assert_eq!(grid.letters[2], 29);
}

#[test]
fn flip_toggles_and_toggles_back() {
    let mut grid = Grid::new("CAT\nDOG").unwrap();
    let before = grid.remaining;
    grid.flip(0b101);
    assert_eq!(grid.remaining, before ^ 0b101);
    assert_eq!(grid.remaining, 0x0702);
    grid.flip(0b101);
    assert_eq!(grid.remaining, before);
    for mask in [0u64, 1, 0x0707, u64::MAX, 0xdead_beef] {
        let adjacency = grid.adjacency;
        grid.flip(mask);
        grid.flip(mask);
        assert_eq!(grid.remaining, before);
        assert_eq!(grid.adjacency, adjacency);
    }
}

#[test]
fn recompute_goes_by_the_letters_and_not_by_the_free_cells() {
    let mut grid = Grid::new("CAT").unwrap();
    let adjacency = grid.adjacency;
    let ords = grid.adjacency_ords;
    grid.flip(0b010);
    grid.recompute();
    assert_eq!(grid.adjacency, adjacency);
    assert_eq!(grid.adjacency_ords, ords);
    assert_eq!(grid.remaining, 0b101);
}

#[test]
fn recompute_follows_a_change_of_the_letters() {
    let mut grid = Grid::new("CAT").unwrap();
    grid.letters[1] = 0;
    grid.recompute();
    // With the cell between them empty the two others are alone.
    assert_eq!(grid.adjacency[0], 0);
    assert_eq!(grid.adjacency[2], 0);
    assert_eq!(grid.adjacency_ords[0], 0);
    assert_eq!(grid.adjacency_ords[2], 0);
    grid.letters[1] = 15;
    grid.recompute();
    assert_eq!(grid.adjacency[0], 0b010);
    assert_eq!(grid.adjacency[1], 0b101);
    assert_eq!(grid.adjacency_ords[0], 1 << 15);
    assert_eq!(grid.adjacency_ords[1], (1 << 3) | (1 << 20));
}

/// A sequence of numbers that looks random and is the same every time.
struct Numbers(u64);

impl Numbers {
    fn next(&mut self) -> u64 {
        self.0 = self.0.wrapping_mul(6364136223846793005).wrapping_add(1442695040888963407);
        self.0 >> 33
    }
}

/// Whether two cells lie one step apart: at a side or at a corner of each
/// other.
fn touch(a: usize, b: usize) -> bool {
    a != b && (a / 8).abs_diff(b / 8) <= 1 && (a % 8).abs_diff(b % 8) <= 1
}

#[test]
fn on_boards_with_gaps_the_neighbours_are_the_occupied_cells_one_step_apart() {
    let mut numbers = Numbers(7);
    for _ in 0..200 {
        let rows = 1 + numbers.next() % 8;
        let mut text = String::new();
        for _ in 0..rows {
            let width = 1 + numbers.next() % 8;
            for _ in 0..width {
                if numbers.next() % 3 == 0 {
                    text.push(' ');
                } else {
                    text.push((b'A' + (numbers.next() % 26) as u8) as char);
                }
            }
            text.push('\n');
        }
        let grid = Grid::new(&text).unwrap();
        let occupied = grid.occupancy();
        assert_eq!(occupied, grid.remaining);
        for a in 0..64 {
            if occupied >> a & 1 == 0 {
                assert_eq!(grid.adjacency[a], 0);
                continue;
            }
            let mut expected = 0u64;
            let mut letters = 0usize;
            for b in 0..64 {
                if occupied >> b & 1 == 1 && touch(a, b) {
                    expected |= 1 << b;
                    letters |= 1 << grid.letters[b];
                }
            }
            assert_eq!(grid.adjacency[a], expected, "cell {} of {:?}", a, text);
            assert_eq!(grid.adjacency_ords[a], letters, "cell {} of {:?}", a, text);
        }
    }
}
