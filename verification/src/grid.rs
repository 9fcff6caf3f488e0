//! The board: up to 64 cells in 8 rows of 8, each holding a letter or
//! nothing, and of the cells that hold a letter those that no word has used
//! yet.

use crate::bits::{
    bit_of, cell_bit, has_bit, lemma_bit_of, lemma_low_mask, lemma_lowest, lemma_mask_ops,
    lemma_mask_zero, lemma_masks_equal, lemma_remove_bit, lemma_subset, lemma_toggle_twice, subset,
    test_bit,
};
use crate::geometry::{adjacent, lemma_adjacent_symmetric, neighbours_of};
use crate::letters::{is_letter, ordinal, to_bits, MAX_ORDINAL};
use crate::text::chars_of;
use vstd::prelude::*;

verus! {

/// The set of ordinals below 64 found among `letters` at the cells of `adj`.
fn neighbour_ordinals(letters: &[usize; 64], adj: u64) -> (ords: usize)
    requires
        forall|i: int| 0 <= i < 64 ==> letters[i] <= MAX_ORDINAL,
    ensures
        ords < 0x4000_0000,
        forall|k: int|
            #[trigger] has_bit(ords as u64, k) <==> exists|j: int|
                has_bit(adj, j) && letters[j] == k,
{
    let mut rest: u64 = adj;
    let mut ords: u64 = 0;
    proof {
        lemma_mask_zero(0);
    }
    while rest != 0
        invariant
            forall|i: int| 0 <= i < 64 ==> letters[i] <= MAX_ORDINAL,
            forall|j: int| has_bit(rest, j) ==> has_bit(adj, j),
            ords < 0x4000_0000,
            forall|k: int|
                #[trigger] has_bit(ords, k) <==> exists|j: int|
                    has_bit(adj, j) && !has_bit(rest, j) && letters[j] == k,
        decreases rest,
    {
        proof {
            lemma_lowest(rest);
        }
        let cell: usize = rest.trailing_zeros() as usize;
        let bit: u64 = cell_bit(cell);
        let ord_bit: u64 = cell_bit(letters[cell]);
        proof {
            lemma_mask_ops(rest, bit);
            lemma_mask_ops(ords, ord_bit);
            lemma_remove_bit(rest, cell as int);
            lemma_low_mask(ords, letters[cell as int] as int);
            let next_rest = rest ^ bit;
            let next_ords = ords | ord_bit;
            assert forall|k: int| #[trigger]
                has_bit(next_ords, k) <==> exists|j: int|
                    has_bit(adj, j) && !has_bit(next_rest, j) && letters[j] == k by {
                if has_bit(next_ords, k) {
                    if has_bit(ords, k) {
                        let j = choose|j: int|
                            has_bit(adj, j) && !has_bit(rest, j) && letters[j] == k;
                        assert(has_bit(adj, j) && !has_bit(next_rest, j) && letters[j] == k);
                    } else {
                        assert(has_bit(adj, cell as int) && !has_bit(next_rest, cell as int)
                            && letters[cell as int] == k);
                    }
                }
                if exists|j: int| has_bit(adj, j) && !has_bit(next_rest, j) && letters[j] == k {
                    let j = choose|j: int|
                        has_bit(adj, j) && !has_bit(next_rest, j) && letters[j] == k;
                    if j != cell {
                        assert(has_bit(adj, j) && !has_bit(rest, j) && letters[j] == k);
                    }
                }
            }
        }
        rest = rest ^ bit;
        ords = ords | ord_bit;
    }
    ords as usize
}

/// The cells among the first `n` that hold a letter.
pub open spec fn occupied_below(letters: Seq<usize>, n: int) -> u64
    decreases n,
{
    if n <= 0 {
        0
    } else if letters[n - 1] != 0 {
        occupied_below(letters, n - 1) | bit_of(n - 1)
    } else {
        occupied_below(letters, n - 1)
    }
}

/// The members of `occupied_below`.
pub proof fn lemma_occupied_below(letters: Seq<usize>, n: int)
    requires
        0 <= n <= 64,
    ensures
        forall|j: int| #[trigger]
            has_bit(occupied_below(letters, n), j) <==> (0 <= j < n && letters[j] != 0),
    decreases n,
{
    if n <= 0 {
        lemma_mask_zero(0);
    } else {
        lemma_occupied_below(letters, n - 1);
        lemma_bit_of(n - 1);
        lemma_mask_ops(occupied_below(letters, n - 1), bit_of(n - 1));
    }
}

/// Why a text is no board.
#[derive(Debug, Clone, Copy, PartialEq, Eq, Structural)]
pub enum GridError {
    /// A row has more than 8 cells.
    RowTooWide,
    /// There are more than 8 rows.
    TooManyRows,
    /// A character is neither a letter of the alphabet nor a space.
    InvalidLetter,
}

/// Column of the character at position `p` of a text: the number of
/// characters between it and the line break before it.
pub open spec fn column_at(s: Seq<char>, p: int) -> int
    decreases p,
{
    if p <= 0 || s[p - 1] == '\n' {
        0
    } else {
        column_at(s, p - 1) + 1
    }
}

/// Row of the character at position `p` of a text: the number of lines
/// that end before it and are not empty.
pub open spec fn row_at(s: Seq<char>, p: int) -> int
    decreases p,
{
    if p <= 0 {
        0
    } else if s[p - 1] == '\n' && column_at(s, p - 1) > 0 {
        row_at(s, p - 1) + 1
    } else {
        row_at(s, p - 1)
    }
}

/// Cell of the character at position `p` of a text.
pub open spec fn cell_at(s: Seq<char>, p: int) -> int {
    8 * row_at(s, p) + column_at(s, p)
}

/// What is wrong with the character at position `p` of a text, if anything.
pub open spec fn fault_at(s: Seq<char>, p: int) -> Option<GridError> {
    if s[p] == '\n' {
        None
    } else if column_at(s, p) >= 8 {
        Some(GridError::RowTooWide)
    } else if row_at(s, p) >= 8 {
        Some(GridError::TooManyRows)
    } else if s[p] != ' ' && !is_letter(s[p]) {
        Some(GridError::InvalidLetter)
    } else {
        None
    }
}

/// Whether `e` is what is wrong with the first character of a text that
/// has a fault.
pub open spec fn first_fault(s: Seq<char>, e: GridError) -> bool {
    exists|p: int|
        0 <= p < s.len() && #[trigger] fault_at(s, p) == Some(e) && forall|q: int|
            0 <= q < p ==> #[trigger] fault_at(s, q) is None
}

/// Whether a text describes a board.
pub open spec fn well_formed_text(s: Seq<char>) -> bool {
    forall|p: int| 0 <= p < s.len() ==> #[trigger] fault_at(s, p) is None
}

/// What stays of a board while words are taken from it and put back: the
/// letter of every cell, the neighbours of every cell and the ordinals of
/// their letters. The free cells, which change, are no part of it.
pub struct Layout {
    /// Ordinal of the letter in each cell; 0 where the cell is empty.
    pub letters: Seq<usize>,
    /// The neighbours of each cell.
    pub adjacency: Seq<u64>,
    /// The ordinals of the letters of the neighbours of each cell.
    pub adjacency_ords: Seq<usize>,
}

/// A board with its letters, and the cells that no word has used yet.
pub struct Grid {
    /// Ordinal of the letter in each cell; 0 where the cell is empty.
    pub letters: [usize; 64],
    /// For each occupied cell, its neighbours.
    pub adjacency: [u64; 64],
    /// For each occupied cell, the ordinals of its neighbours' letters.
    pub adjacency_ords: [usize; 64],
    /// The cells that are still free to be used.
    pub remaining: u64,
}

impl Grid {
    /// The cells that hold a letter.
    pub open spec fn occupied(&self) -> u64 {
        occupied_below(self.letters@, 64)
    }

    /// What stays of the board while the free cells change.
    pub open spec fn layout(&self) -> Layout {
        Layout {
            letters: self.letters@,
            adjacency: self.adjacency@,
            adjacency_ords: self.adjacency_ords@,
        }
    }

    /// Every cell holds an ordinal or 0.
    pub open spec fn letters_ok(&self) -> bool {
        forall|i: int| 0 <= i < 64 ==> #[trigger] self.letters[i] <= MAX_ORDINAL
    }

    /// The neighbour sets are those of the occupied cells.
    pub open spec fn adjacency_ok(&self) -> bool {
        forall|i: int, j: int|
            0 <= i < 64 && self.letters[i] != 0 ==> (#[trigger] has_bit(self.adjacency[i], j)
                <==> adjacent(self.occupied(), i, j))
    }

    /// The neighbour ordinals are those of the neighbours' letters.
    pub open spec fn ordinals_ok(&self) -> bool {
        forall|i: int, k: int|
            0 <= i < 64 && self.letters[i] != 0 ==> (#[trigger] has_bit(
                self.adjacency_ords[i] as u64,
                k,
            ) <==> exists|j: int| has_bit(self.adjacency[i], j) && self.letters[j] == k)
    }

    /// Whether the board is the one that a text describes, with all its
    /// cells free: every letter of the text stands in its cell, the other
    /// cells are empty, and every occupied cell has its neighbours.
    pub open spec fn shows(&self, s: Seq<char>) -> bool {
        &&& self.wf()
        &&& self.remaining == self.occupied()
        &&& forall|p: int|
            0 <= p < s.len() && is_letter(s[p]) ==> #[trigger] self.letters[cell_at(s, p)]
                == ordinal(s[p])
        &&& forall|c: int|
            0 <= c < 64 && #[trigger] self.letters[c] != 0 ==> exists|p: int|
                0 <= p < s.len() && is_letter(s[p]) && cell_at(s, p) == c
        &&& forall|c: int|
            0 <= c < 64 && #[trigger] self.letters[c] == 0 ==> self.adjacency[c] == 0
                && self.adjacency_ords[c] == 0
    }

    /// What holds of every board that the search works on.
    pub open spec fn wf(&self) -> bool {
        &&& self.letters_ok()
        &&& self.adjacency_ok()
        &&& self.ordinals_ok()
        &&& subset(self.remaining, self.occupied())
    }

    /// The cells that hold a letter.
    pub fn occupancy(&self) -> (occ: u64)
        ensures
            occ == self.occupied(),
            forall|j: int| #[trigger] has_bit(occ, j) <==> (0 <= j < 64 && self.letters[j] != 0),
    {
        let mut occ: u64 = 0;
        let mut i: usize = 0;
        while i < 64
            invariant
                i <= 64,
                occ == occupied_below(self.letters@, i as int),
            decreases 64 - i,
        {
            if self.letters[i] != 0 {
                let bit = cell_bit(i);
                occ = occ | bit;
            }
            i = i + 1;
        }
        proof {
            lemma_occupied_below(self.letters@, 64);
        }
        occ
    }

    /// Reads a board from text: one line per row, a letter or a space per
    /// cell. Empty lines are skipped.
    pub fn new(s: &str) -> (r: Result<Self, GridError>)
        ensures
            match r {
                Ok(grid) => well_formed_text(s@) && grid.shows(s@),
                Err(e) => first_fault(s@, e),
            },
    {
        let chars = chars_of(s);
        let mut letters: [usize; 64] = [0; 64];
        let mut remaining: u64 = 0;
        let mut row: usize = 0;
        let mut col: usize = 0;
        let mut p: usize = 0;
        proof {
            lemma_mask_zero(0);
        }
        while p < chars.len()
            invariant
                chars@ == s@,
                p <= chars.len(),
                row == row_at(s@, p as int),
                col == column_at(s@, p as int),
                row <= 8,
                col <= 8,
                col > 0 ==> row < 8,
                forall|q: int| 0 <= q < p ==> #[trigger] fault_at(s@, q) is None,
                forall|q: int|
                    0 <= q < p && s@[q] != '\n' ==> 0 <= #[trigger] cell_at(s@, q) < 8 * row + col,
                forall|q: int|
                    0 <= q < p && is_letter(s@[q]) ==> #[trigger] letters[cell_at(s@, q)]
                        == ordinal(s@[q]),
                forall|c: int|
                    0 <= c < 64 && #[trigger] letters[c] != 0 ==> exists|q: int|
                        0 <= q < p && is_letter(s@[q]) && cell_at(s@, q) == c,
                forall|c: int| 0 <= c < 64 ==> #[trigger] letters[c] <= MAX_ORDINAL,
                forall|j: int|
                    #[trigger] has_bit(remaining, j) <==> (0 <= j < 64 && letters[j] != 0),
            decreases chars.len() - p,
        {
            let c = chars[p];
            if c == '\n' {
                if col > 0 {
                    row = row + 1;
                }
                col = 0;
            } else {
                if col >= 8 {
                    proof {
                        assert(fault_at(s@, p as int) == Some(GridError::RowTooWide));
                    }
                    return Err(GridError::RowTooWide);
                }
                if row >= 8 {
                    proof {
                        assert(fault_at(s@, p as int) == Some(GridError::TooManyRows));
                    }
                    return Err(GridError::TooManyRows);
                }
                if c != ' ' {
                    let ord = to_bits(c);
                    if ord == 0 {
                        proof {
                        assert(fault_at(s@, p as int) == Some(GridError::InvalidLetter));
                    }
                    return Err(GridError::InvalidLetter);
                    }
                    let idx: usize = 8 * row + col;
                    let bit = cell_bit(idx);
                    let ghost before = letters;
                    proof {
                        lemma_mask_ops(remaining, bit);
                    }
                    letters[idx] = ord as usize;
                    remaining = remaining | bit;
                    proof {
                        assert forall|k: int|
                            0 <= k < 64 && #[trigger] letters[k] != 0 implies exists|q: int|
                            0 <= q < p + 1 && is_letter(s@[q]) && cell_at(s@, q) == k by {
                            if k == idx {
                                assert(is_letter(s@[p as int]) && cell_at(s@, p as int) == k);
                            } else {
                                assert(before[k] != 0);
                                let q = choose|q: int|
                                    0 <= q < p && is_letter(s@[q]) && cell_at(s@, q) == k;
                                assert(0 <= q < p + 1 && is_letter(s@[q]) && cell_at(s@, q) == k);
                            }
                        }
                    }
                }
                col = col + 1;
            }
            p = p + 1;
        }
        let mut grid = Grid { letters, adjacency: [0; 64], adjacency_ords: [0; 64], remaining };
        proof {
            lemma_occupied_below(grid.letters@, 64);
            lemma_masks_equal(grid.remaining, grid.occupied());
            lemma_subset(grid.remaining, grid.occupied());
        }
        grid.recompute();
        Ok(grid)
    }

    /// Works out the neighbours of every occupied cell again, from the cells
    /// that hold a letter.
    pub fn recompute(&mut self)
        requires
            old(self).letters_ok(),
        ensures
            final(self).letters == old(self).letters,
            final(self).remaining == old(self).remaining,
            final(self).adjacency_ok(),
            final(self).ordinals_ok(),
            forall|i: int|
                0 <= i < 64 && old(self).letters[i] == 0 ==> final(self).adjacency[i] == old(
                    self,
                ).adjacency[i] && final(self).adjacency_ords[i] == old(self).adjacency_ords[i],
    {
        let occ = self.occupancy();
        let mut i: usize = 0;
        while i < 64
            invariant
                i <= 64,
                self.letters == old(self).letters,
                self.remaining == old(self).remaining,
                self.letters_ok(),
                occ == self.occupied(),
                forall|j: int|
                    #[trigger] has_bit(occ, j) <==> (0 <= j < 64 && self.letters[j] != 0),
                forall|a: int, j: int|
                    0 <= a < i && self.letters[a] != 0 ==> (#[trigger] has_bit(
                        self.adjacency[a],
                        j,
                    ) <==> adjacent(occ, a, j)),
                forall|a: int, k: int|
                    0 <= a < i && self.letters[a] != 0 ==> (#[trigger] has_bit(
                        self.adjacency_ords[a] as u64,
                        k,
                    ) <==> exists|j: int| has_bit(self.adjacency[a], j) && self.letters[j] == k),
                forall|a: int|
                    0 <= a < 64 && (self.letters[a] == 0 || a >= i) ==> self.adjacency[a] == old(
                        self,
                    ).adjacency[a] && self.adjacency_ords[a] == old(self).adjacency_ords[a],
            decreases 64 - i,
        {
            if test_bit(occ, i) {
                let adj = neighbours_of(occ, i);
                let ords = neighbour_ordinals(&self.letters, adj);
                self.adjacency[i] = adj;
                self.adjacency_ords[i] = ords;
            }
            i = i + 1;
        }
    }

    /// Toggles the cells of `seq` between used and free.
    pub fn flip(&mut self, seq: u64)
        ensures
            final(self).remaining == old(self).remaining ^ seq,
            final(self).letters == old(self).letters,
            final(self).adjacency == old(self).adjacency,
            final(self).adjacency_ords == old(self).adjacency_ords,
    {
        self.remaining = self.remaining ^ seq;
    }
}

/// On a board, a cell is among the neighbours of another exactly if the
/// other is among its own.
pub proof fn lemma_neighbours_mutual(grid: Grid, a: int, b: int)
    requires
        grid.adjacency_ok(),
        0 <= a < 64,
        0 <= b < 64,
        grid.letters[a] != 0,
        grid.letters[b] != 0,
    ensures
        has_bit(grid.adjacency[a], b) <==> has_bit(grid.adjacency[b], a),
{
    lemma_adjacent_symmetric(grid.occupied(), a, b);
}

/// Toggling the same cells twice leaves the free cells as they were.
pub proof fn lemma_flip_twice(remaining: u64, seq: u64)
    ensures
        (remaining ^ seq) ^ seq == remaining,
{
    lemma_toggle_twice(remaining, seq);
}

} // verus!
