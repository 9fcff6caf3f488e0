//! The score: a word earns a bonus by its length, and the score of a choice
//! of words is the sum of their bonuses.

use vstd::prelude::*;

verus! {

/// The bonus of a word, by its number of letters.
pub const WORD_BONUSES: [u8; 13] = [0, 0, 0, 0, 1, 3, 5, 8, 10, 12, 14, 15, 16];

/// The best score that words of at most 12 letters can reach on a given
/// number of cells, if any letters may stand in them.
pub const IDEAL_POINTS: [u8; 65] = [
    0, 0, 0, 0, 1, 3, 5, 8, 10, 12, 14, 15, 16, 16, 16, 18, 20, 22, 24, 26, 28, 29, 30, 31, 32, 32,
    34, 36, 38, 40, 42, 43, 44, 45, 46, 47, 48, 50, 52, 54, 56, 57, 58, 59, 60, 61, 62, 64, 66, 68,
    70, 71, 72, 73, 74, 75, 76, 78, 80, 82, 84, 85, 86, 87, 88,
];

/// The bonus of a word of `len` letters.
pub open spec fn bonus(len: int) -> int {
    if 0 <= len <= 12 {
        WORD_BONUSES[len] as int
    } else {
        0
    }
}

/// The best score that can be reached on `cells` cells.
pub open spec fn ideal(cells: int) -> int {
    if 0 <= cells <= 64 {
        IDEAL_POINTS[cells] as int
    } else {
        0
    }
}

/// Whether `n` is one of the numbers from 0 to 64.
spec fn listed(n: int) -> bool {
    n == 0 || n == 1 || n == 2 || n == 3 || n == 4 || n == 5 || n == 6 || n == 7 || n == 8 || n == 9
        || n == 10 || n == 11 || n == 12 || n == 13 || n == 14 || n == 15 || n == 16 || n == 17
        || n == 18 || n == 19 || n == 20 || n == 21 || n == 22 || n == 23 || n == 24 || n == 25
        || n == 26 || n == 27 || n == 28 || n == 29 || n == 30 || n == 31 || n == 32 || n == 33
        || n == 34 || n == 35 || n == 36 || n == 37 || n == 38 || n == 39 || n == 40 || n == 41
        || n == 42 || n == 43 || n == 44 || n == 45 || n == 46 || n == 47 || n == 48 || n == 49
        || n == 50 || n == 51 || n == 52 || n == 53 || n == 54 || n == 55 || n == 56 || n == 57
        || n == 58 || n == 59 || n == 60 || n == 61 || n == 62 || n == 63 || n == 64
}

/// No word followed by the best on the cells it leaves beats the best on
/// all the cells: the table never promises too little.
pub proof fn lemma_ideal_admissible(cells: int, len: int)
    requires
        1 <= len <= 12,
        len <= cells <= 64,
    ensures
        bonus(len) + ideal(cells - len) <= ideal(cells),
{
    assert(listed(cells));
    assert(listed(len));
    assert(listed(cells - len));
}

/// The best on a number of cells is reached by some first word followed by
/// the best on the cells it leaves: the table never promises too much.
pub proof fn lemma_ideal_attained(cells: int)
    requires
        1 <= cells <= 64,
    ensures
        exists|len: int|
            1 <= len <= 12 && len <= cells && #[trigger] bonus(len) + ideal(cells - len) == ideal(
                cells,
            ),
{
    assert(listed(cells));
    let len = if cells <= 12 {
        cells
    } else if cells <= 14 || cells == 23 || cells == 24 || cells == 35 {
        12
    } else if cells <= 16 {
        8
    } else {
        10
    };
    assert(listed(len));
    assert(listed(cells - len));
    assert(1 <= len <= 12 && len <= cells && bonus(len) + ideal(cells - len) == ideal(cells));
}

/// The limits of the two tables.
pub proof fn lemma_score_limits(cells: int, len: int)
    ensures
        0 <= bonus(len) <= 16,
        0 <= ideal(cells) <= 88,
        bonus(len) <= 2 * len || len < 0,
{
    if 0 <= len <= 12 {
        assert(listed(len));
    }
    if 0 <= cells <= 64 {
        assert(listed(cells));
    }
}

/// Whether every one of `lens` is the length of a word: from 1 to 12.
pub open spec fn word_lengths(lens: Seq<int>) -> bool {
    forall|i: int| 0 <= i < lens.len() ==> 1 <= #[trigger] lens[i] <= 12
}

/// The lengths of `lens`, added up.
pub open spec fn total_length(lens: Seq<int>) -> int
    decreases lens.len(),
{
    if lens.len() == 0 {
        0
    } else {
        total_length(lens.drop_last()) + lens.last()
    }
}

/// The bonuses of the lengths of `lens`, added up.
pub open spec fn total_bonus(lens: Seq<int>) -> int
    decreases lens.len(),
{
    if lens.len() == 0 {
        0
    } else {
        total_bonus(lens.drop_last()) + bonus(lens.last())
    }
}

/// No words on a number of cells earn more than the table says of the
/// number.
pub proof fn lemma_ideal_bounds_all(lens: Seq<int>)
    requires
        word_lengths(lens),
        total_length(lens) <= 64,
    ensures
        0 <= total_length(lens),
        total_bonus(lens) <= ideal(total_length(lens)),
    decreases lens.len(),
{
    if lens.len() > 0 {
        let rest = lens.drop_last();
        assert(word_lengths(rest)) by {
            assert forall|i: int| 0 <= i < rest.len() implies 1 <= #[trigger] rest[i] <= 12 by {
                assert(rest[i] == lens[i]);
            }
        }
        assert(1 <= lens[lens.len() - 1] <= 12);
        lemma_total_length(rest);
        lemma_ideal_bounds_all(rest);
        lemma_ideal_admissible(total_length(lens), lens.last());
    }
}

/// The lengths of words add up to no less than 0.
proof fn lemma_total_length(lens: Seq<int>)
    requires
        word_lengths(lens),
    ensures
        0 <= total_length(lens),
    decreases lens.len(),
{
    if lens.len() > 0 {
        let rest = lens.drop_last();
        assert forall|i: int| 0 <= i < rest.len() implies 1 <= #[trigger] rest[i] <= 12 by {
            assert(rest[i] == lens[i]);
        }
        assert(1 <= lens[lens.len() - 1] <= 12);
        lemma_total_length(rest);
    }
}

/// On every number of cells some words earn what the table says of the
/// number.
pub proof fn lemma_ideal_reached(cells: int)
    requires
        0 <= cells <= 64,
    ensures
        exists|lens: Seq<int>|
            word_lengths(lens) && #[trigger] total_length(lens) == cells && total_bonus(lens)
                == ideal(cells),
    decreases cells,
{
    if cells == 0 {
        let none = Seq::<int>::empty();
        assert(word_lengths(none) && total_length(none) == 0 && total_bonus(none) == ideal(0));
    } else {
        lemma_ideal_attained(cells);
        let len = choose|len: int|
            1 <= len <= 12 && len <= cells && #[trigger] bonus(len) + ideal(cells - len) == ideal(
                cells,
            );
        lemma_ideal_reached(cells - len);
        let rest = choose|lens: Seq<int>|
            word_lengths(lens) && #[trigger] total_length(lens) == cells - len && total_bonus(lens)
                == ideal(cells - len);
        let all = rest.push(len);
        assert(all.drop_last() =~= rest);
        assert(word_lengths(all) && total_length(all) == cells && total_bonus(all) == ideal(cells));
    }
}

} // verus!
