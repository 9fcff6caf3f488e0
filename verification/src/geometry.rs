//! Which cells of a board are neighbours.
//!
//! Cell `8 * r + c` lies in row `r` (counted from the top) and column `c`.
//! Two occupied cells are neighbours if they lie one step apart: in the same
//! row or in rows next to each other, and in the same column or in columns
//! next to each other. A cell has up to eight neighbours; the edges of the
//! board and empty cells leave it fewer. Nothing reaches over an empty cell.

use crate::bits::{
    cell_bit, has_bit, lemma_bit_of, lemma_column_shift, lemma_mask_ops, lemma_mask_zero,
    lemma_row_shift,
};
use vstd::prelude::*;

verus! {

/// For each column, the cells of that column.
pub const COLUMN_MASKS: [u64; 8] = [
    0x0101010101010101,
    0x0202020202020202,
    0x0404040404040404,
    0x0808080808080808,
    0x1010101010101010,
    0x2020202020202020,
    0x4040404040404040,
    0x8080808080808080,
];

/// Whether `a` and `b` are neighbours on a board whose occupied cells are
/// `occ`: both are occupied, and they are different cells whose rows and
/// whose columns differ by at most one.
pub open spec fn adjacent(occ: u64, a: int, b: int) -> bool {
    &&& has_bit(occ, a)
    &&& has_bit(occ, b)
    &&& a != b
    &&& -1 <= a / 8 - b / 8 <= 1
    &&& -1 <= a % 8 - b % 8 <= 1
}

/// Being neighbours is mutual.
pub proof fn lemma_adjacent_symmetric(occ: u64, a: int, b: int)
    ensures
        adjacent(occ, a, b) == adjacent(occ, b, a),
{
}

/// What the table of columns holds.
proof fn lemma_tables()
    ensures
        forall|c: int, j: int|
            0 <= c < 8 ==> (#[trigger] has_bit(COLUMN_MASKS[c], j) <==> (0 <= j < 64 && j % 8
                == c)),
{
    assert(forall|c: u64, j: u64|
        c < 8 && j < 64 ==> (((0x0101010101010101u64 << c) >> j) & 1 == 1 <==> j % 8 == c))
        by (bit_vector);
    assert(0x0101010101010101u64 == 0x0101010101010101u64 << 0u64 && 0x0202020202020202u64
        == 0x0101010101010101u64 << 1u64 && 0x0404040404040404u64 == 0x0101010101010101u64
        << 2u64 && 0x0808080808080808u64 == 0x0101010101010101u64 << 3u64
        && 0x1010101010101010u64 == 0x0101010101010101u64 << 4u64 && 0x2020202020202020u64
        == 0x0101010101010101u64 << 5u64 && 0x4040404040404040u64 == 0x0101010101010101u64
        << 6u64 && 0x8080808080808080u64 == 0x0101010101010101u64 << 7u64) by (bit_vector);
    assert forall|c: int, j: int| 0 <= c < 8 implies (#[trigger] has_bit(COLUMN_MASKS[c], j) <==> (
    0 <= j < 64 && j % 8 == c)) by {
        assert(c == 0 || c == 1 || c == 2 || c == 3 || c == 4 || c == 5 || c == 6 || c == 7);
        assert(COLUMN_MASKS[c] == 0x0101010101010101u64 << (c as u64));
        if 0 <= j < 64 {
            let cu = c as u64;
            let ju = j as u64;
            assert((((0x0101010101010101u64 << cu) >> ju) & 1 == 1) <==> ju % 8 == cu);
        }
    }
}

/// Cell `i` with the cells directly above and below it, as far as the
/// board has them.
fn column_of_three(i: usize) -> (cells: u64)
    requires
        i < 64,
    ensures
        forall|j: int|
            #[trigger] has_bit(cells, j) <==> (0 <= j < 64 && (j == i - 8 || j == i || j == i
                + 8)),
{
    let bit: u64 = cell_bit(i);
    let above: u64 = bit >> 8;
    let below: u64 = bit << 8;
    proof {
        lemma_row_shift(i as int);
        lemma_mask_zero(0);
        if i >= 8 {
            lemma_bit_of(i - 8);
        }
        if i < 56 {
            lemma_bit_of(i + 8);
        }
        lemma_mask_ops(above, bit);
        lemma_mask_ops(above | bit, below);
    }
    above | bit | below
}

/// The cells one column to the left of the cells of `cells`, in the same
/// rows; the first column has none.
fn step_left(cells: u64) -> (moved: u64)
    ensures
        forall|j: int|
            #[trigger] has_bit(moved, j) <==> (0 <= j < 64 && j % 8 != 7 && has_bit(cells, j + 1)),
{
    let last: u64 = COLUMN_MASKS[7];
    proof {
        lemma_tables();
        lemma_column_shift(cells);
        lemma_mask_ops(last, last);
        lemma_mask_ops(cells >> 1, !last);
    }
    (cells >> 1) & !last
}

/// The cells one column to the right of the cells of `cells`, in the same
/// rows; the last column has none.
fn step_right(cells: u64) -> (moved: u64)
    ensures
        forall|j: int|
            #[trigger] has_bit(moved, j) <==> (0 <= j < 64 && j % 8 != 0 && has_bit(cells, j - 1)),
{
    let first: u64 = COLUMN_MASKS[0];
    proof {
        lemma_tables();
        lemma_column_shift(cells);
        lemma_mask_ops(first, first);
        lemma_mask_ops(cells << 1, !first);
    }
    (cells << 1) & !first
}

/// The neighbours of an occupied cell `i` on a board whose occupied cells
/// are `occ`.
pub fn neighbours_of(occ: u64, i: usize) -> (adj: u64)
    requires
        i < 64,
        has_bit(occ, i as int),
    ensures
        forall|j: int| #[trigger] has_bit(adj, j) <==> adjacent(occ, i as int, j),
{
    let bit: u64 = cell_bit(i);
    let column: u64 = column_of_three(i);
    let left: u64 = step_left(column);
    let right: u64 = step_right(column);
    let around: u64 = (column ^ bit) | left | right;
    proof {
        lemma_mask_ops(column, bit);
        lemma_mask_ops(column ^ bit, left);
        lemma_mask_ops((column ^ bit) | left, right);
        lemma_mask_ops(around, occ);
        assert forall|j: int| #[trigger] has_bit(around & occ, j) <==> adjacent(
            occ,
            i as int,
            j,
        ) by {
            if 0 <= j < 64 {
                assert(has_bit(column, j + 1) <==> (j + 1 < 64 && (j + 1 == i - 8 || j + 1 == i
                    || j + 1 == i + 8)));
                assert(has_bit(column, j - 1) <==> (0 <= j - 1 && (j - 1 == i - 8 || j - 1 == i
                    || j - 1 == i + 8)));
            }
        }
    }
    around & occ
}

} // verus!
