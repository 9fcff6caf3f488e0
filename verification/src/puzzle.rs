//! A puzzle: a board and the dictionary of the words that can be laid with
//! its letters, ready to be searched.

use crate::builder::ordinals_of;
use crate::wordlist::{built, get_dict_tree, in_dictionary_order, kept_in_order};
use crate::cover::is_cover;
use crate::dict::{trie_wf, walk, Node};
use crate::grid::{first_fault, well_formed_text, Grid, GridError};
use crate::letters::is_letter;
use crate::solve::{is_best, solve, Search};
use crate::spell::{lemma_ordered_traceable, ordered, spell_plays, traceable};
use vstd::prelude::*;

verus! {

/// Why a text and a list of words are no puzzle.
#[derive(Debug, Clone, Copy, PartialEq, Eq, Structural)]
pub enum PuzzleError {
    /// The text is no board.
    Grid(GridError),
    /// The words that can be laid with the letters of the board do not
    /// stand in dictionary order.
    Dictionary,
}

/// A board with its dictionary.
pub struct Puzzle {
    grid: Grid,
    dict: Vec<Node>,
}

impl Puzzle {
    /// What holds of every puzzle: its board and its dictionary are in
    /// order, and the nodes of the dictionary are numbered in dictionary
    /// order, so that every word can be read back.
    #[verifier::type_invariant]
    spec fn inv(self) -> bool {
        self.grid.wf() && trie_wf(self.dict@) && ordered(self.dict@)
    }

    /// The board of the puzzle.
    pub closed spec fn board(self) -> Grid {
        self.grid
    }

    /// The dictionary of the puzzle.
    pub closed spec fn words(self) -> Seq<Node> {
        self.dict@
    }

    /// The puzzle of a board, given as text, and of a list of words, of
    /// which those are kept that can be laid with the letters of the board.
    pub fn new(grid_input: &str, lines: &Vec<String>) -> (r: Result<Self, PuzzleError>)
        ensures
            match r {
                Ok(puzzle) => {
                    &&& well_formed_text(grid_input@)
                    &&& kept_in_order(lines@, grid_input@, lines.len() as int)
                    &&& puzzle.board().shows(grid_input@)
                    &&& built(puzzle.words(), lines@, grid_input@, lines.len() as int)
                    &&& ordered(puzzle.words())
                },
                Err(PuzzleError::Grid(e)) => first_fault(grid_input@, e),
                Err(PuzzleError::Dictionary) => well_formed_text(grid_input@) && !kept_in_order(
                    lines@,
                    grid_input@,
                    lines.len() as int,
                ),
            },
    {
        let grid = match Grid::new(grid_input) {
            Ok(grid) => grid,
            Err(e) => {
                return Err(PuzzleError::Grid(e));
            },
        };
        if !in_dictionary_order(grid_input, lines) {
            return Err(PuzzleError::Dictionary);
        }
        let dict = get_dict_tree(grid_input, lines);
        Ok(Puzzle { grid, dict })
    }

    /// The board of the puzzle.
    pub fn grid(&self) -> (grid: &Grid)
        ensures
            *grid == self.board(),
            grid.wf(),
    {
        proof {
            use_type_invariant(self);
        }
        &self.grid
    }

    /// The dictionary of the puzzle.
    pub fn dict(&self) -> (dict: &Vec<Node>)
        ensures
            dict@ == self.words(),
            trie_wf(dict@),
            ordered(dict@),
    {
        proof {
            use_type_invariant(self);
        }
        &self.dict
    }

    /// Finds a best cover of the board. The search that is handed back
    /// holds every cover that was the best when it was found; the last of
    /// them is a best cover. It holds none where the board has no cover.
    pub fn solve(&self) -> (search: Search)
        ensures
            search.wf(self.board().layout(), self.words()),
            search.board == self.board().remaining,
            search.plays.len() == 0,
            search.solutions.len() > 0 ==> is_best(
                self.board().layout(),
                self.words(),
                search.board,
                search.solutions@.last(),
            ),
            search.solutions.len() == 0 ==> forall|plays: Seq<(u64, usize)>|
                !#[trigger] is_cover(self.board().layout(), self.words(), search.board, plays),
    {
        proof {
            use_type_invariant(self);
        }
        let mut grid = Grid {
            letters: self.grid.letters,
            adjacency: self.grid.adjacency,
            adjacency_ords: self.grid.adjacency_ords,
            remaining: self.grid.remaining,
        };
        proof {
            assert(grid.layout() =~= self.grid.layout());
        }
        solve(&mut grid, &self.dict)
    }

    /// The words of a list of plays, each read back from the node where
    /// it ends, or nothing where a play names no node of the dictionary.
    pub fn spell(&self, plays: &Vec<(u64, usize)>) -> (r: Option<Vec<String>>)
        ensures
            r is Some <==> forall|i: int|
                0 <= i < plays.len() ==> (#[trigger] plays[i]).1 < self.words().len(),
            match r {
                Some(words) => {
                    &&& words.len() == plays.len()
                    &&& forall|i: int|
                        0 <= i < plays.len() ==> walk(
                            self.words(),
                            ordinals_of(#[trigger] words[i]@),
                        ) == plays[i].1
                    &&& forall|i: int, j: int|
                        0 <= i < words.len() && 0 <= j < words[i]@.len() ==> is_letter(
                            #[trigger] words[i]@[j],
                        )
                },
                None => true,
            },
    {
        proof {
            use_type_invariant(self);
        }
        let mut i: usize = 0;
        while i < plays.len()
            invariant
                i <= plays.len(),
                forall|j: int| 0 <= j < i ==> (#[trigger] plays[j]).1 < self.dict.len(),
            decreases plays.len() - i,
        {
            if plays[i].1 >= self.dict.len() {
                return None;
            }
            i = i + 1;
        }
        proof {
            assert forall|j: int| 0 <= j < plays.len() implies (#[trigger] plays[j]).1
                < self.dict.len() && traceable(self.dict@, plays[j].1 as int) by {
                lemma_ordered_traceable(self.dict@, plays[j].1 as int);
            }
        }
        Some(spell_plays(&self.dict, plays))
    }
}

} // verus!
