//! Splitting the board into words: a cover of a set of cells is a list of
//! words, each on cells that the words before it left free, that together
//! use every cell of the set.

use crate::bits::{
    lemma_count_bound, lemma_count_disjoint, lemma_count_empty, lemma_count_remove, lemma_mask_zero,
    lemma_rejoin, lemma_subset, lemma_toggle_twice, popcount, subset,
};
use crate::dict::{accepts, lemma_walk_in_range, trie_wf, Node};
use crate::grid::Layout;
use crate::paths::{lemma_path_cells, lemma_path_count, path_ok, path_word, records};
use crate::scoring::{bonus, ideal, lemma_ideal_admissible, lemma_score_limits};
use vstd::prelude::*;

verus! {

/// Whether `entry` records a word of the dictionary that lies on cells of
/// `rem`: the cells of a path that spells it, and the node where it ends.
pub open spec fn is_word_on(lay: Layout, dict: Seq<Node>, rem: u64, entry: (u64, usize)) -> bool {
    exists|p: Seq<int>|
        #![trigger path_ok(lay, rem, p)]
        path_ok(lay, rem, p) && accepts(dict, path_word(lay, p)) && records(lay, dict, entry, p)
}

/// Whether `plays` is a cover of `rem`.
pub open spec fn is_cover(lay: Layout, dict: Seq<Node>, rem: u64, plays: Seq<(u64, usize)>) -> bool
    decreases plays.len(),
{
    if plays.len() == 0 {
        rem == 0
    } else {
        is_word_on(lay, dict, rem, plays[0]) && is_cover(
            lay,
            dict,
            rem ^ plays[0].0,
            plays.drop_first(),
        )
    }
}

/// The score of a list of words: the sum of the bonuses of their lengths.
pub open spec fn score(plays: Seq<(u64, usize)>) -> int
    decreases plays.len(),
{
    if plays.len() == 0 {
        0
    } else {
        bonus(popcount(plays[0].0) as int) + score(plays.drop_first())
    }
}

/// Whether the words of `plays`, taken from `board` one after the other,
/// leave the cells of `rem`.
pub open spec fn is_chain(
    lay: Layout,
    dict: Seq<Node>,
    board: u64,
    plays: Seq<(u64, usize)>,
    rem: u64,
) -> bool
    decreases plays.len(),
{
    if plays.len() == 0 {
        rem == board
    } else {
        let entry = plays.last();
        &&& entry.0 & rem == 0
        &&& is_word_on(lay, dict, rem ^ entry.0, entry)
        &&& is_chain(lay, dict, board, plays.drop_last(), rem ^ entry.0)
    }
}

/// What a word on the board is like: it has between 1 and 12 cells, all of
/// them among those it may use, and ends at a node of the dictionary that
/// records its length.
pub proof fn lemma_word_on(lay: Layout, dict: Seq<Node>, rem: u64, entry: (u64, usize))
    requires
        trie_wf(dict),
        is_word_on(lay, dict, rem, entry),
    ensures
        subset(entry.0, rem),
        entry.0 != 0,
        1 <= popcount(entry.0) <= 12,
        popcount(entry.0) <= popcount(rem),
        0 < entry.1 < dict.len(),
        dict[entry.1 as int].terminal(),
        dict[entry.1 as int].len == popcount(entry.0),
{
    let p = choose|p: Seq<int>|
        #![trigger path_ok(lay, rem, p)]
        path_ok(lay, rem, p) && accepts(dict, path_word(lay, p)) && records(lay, dict, entry, p);
    lemma_path_cells(lay, rem, p);
    lemma_path_count(lay, rem, p);
    lemma_walk_in_range(dict, path_word(lay, p));
    lemma_count_remove(rem, entry.0);
}

/// The score of two lists of words, one after the other.
pub proof fn lemma_score_concat(a: Seq<(u64, usize)>, b: Seq<(u64, usize)>)
    ensures
        score(a + b) == score(a) + score(b),
    decreases a.len(),
{
    if a.len() == 0 {
        assert(a + b =~= b);
    } else {
        lemma_score_concat(a.drop_first(), b);
        assert((a + b).drop_first() =~= a.drop_first() + b);
    }
}

/// The score of a list of words with one more word at its end.
pub proof fn lemma_score_push(a: Seq<(u64, usize)>, entry: (u64, usize))
    ensures
        score(a.push(entry)) == score(a) + bonus(popcount(entry.0) as int),
{
    let b = seq![entry];
    assert(b.drop_first() =~= Seq::<(u64, usize)>::empty());
    assert(score(b.drop_first()) == 0);
    assert(score(b) == bonus(popcount(entry.0) as int));
    lemma_score_concat(a, b);
    assert(a.push(entry) =~= a + b);
}

/// No cover scores more than the table of ideal scores says of the number
/// of its cells.
pub proof fn lemma_cover_bound(lay: Layout, dict: Seq<Node>, rem: u64, plays: Seq<(u64, usize)>)
    requires
        trie_wf(dict),
        is_cover(lay, dict, rem, plays),
    ensures
        0 <= score(plays) <= ideal(popcount(rem) as int),
    decreases plays.len(),
{
    lemma_count_bound(rem, 64);
    if plays.len() == 0 {
        lemma_count_empty();
    } else {
        let entry = plays[0];
        lemma_word_on(lay, dict, rem, entry);
        lemma_count_remove(rem, entry.0);
        lemma_cover_bound(lay, dict, rem ^ entry.0, plays.drop_first());
        lemma_ideal_admissible(popcount(rem) as int, popcount(entry.0) as int);
        lemma_score_limits(0, popcount(entry.0) as int);
    }
}

/// The only cover of no cells is the one without words.
pub proof fn lemma_cover_of_nothing(lay: Layout, dict: Seq<Node>, plays: Seq<(u64, usize)>)
    requires
        trie_wf(dict),
        is_cover(lay, dict, 0, plays),
    ensures
        plays.len() == 0,
        score(plays) == 0,
{
    if plays.len() > 0 {
        lemma_word_on(lay, dict, 0, plays[0]);
        lemma_subset(plays[0].0, 0);
        lemma_mask_zero(plays[0].0);
    }
}

/// Words taken from the board, followed by a cover of what they leave, are
/// a cover of the board.
pub proof fn lemma_chain_cover(
    lay: Layout,
    dict: Seq<Node>,
    board: u64,
    plays: Seq<(u64, usize)>,
    rem: u64,
    rest: Seq<(u64, usize)>,
)
    requires
        is_chain(lay, dict, board, plays, rem),
        is_cover(lay, dict, rem, rest),
    ensures
        is_cover(lay, dict, board, plays + rest),
        score(plays + rest) == score(plays) + score(rest),
    decreases plays.len(),
{
    lemma_score_concat(plays, rest);
    if plays.len() == 0 {
        assert(plays + rest =~= rest);
    } else {
        let entry = plays.last();
        let before = rem ^ entry.0;
        let longer = seq![entry] + rest;
        assert(longer.drop_first() =~= rest);
        lemma_toggle_twice(rem, entry.0);
        assert(is_cover(lay, dict, before, longer));
        lemma_chain_cover(lay, dict, board, plays.drop_last(), before, longer);
        assert(plays.drop_last() + longer =~= plays + rest);
    }
}

/// Words taken from the board score at most two points for each cell they
/// use, and leave cells of the board.
pub proof fn lemma_chain_bound(
    lay: Layout,
    dict: Seq<Node>,
    board: u64,
    plays: Seq<(u64, usize)>,
    rem: u64,
)
    requires
        is_chain(lay, dict, board, plays, rem),
    ensures
        0 <= score(plays),
        score(plays) + 2 * popcount(rem) <= 2 * popcount(board),
        popcount(board) <= 64,
    decreases plays.len(),
{
    lemma_count_bound(board, 64);
    if plays.len() > 0 {
        let entry = plays.last();
        let before = rem ^ entry.0;
        lemma_chain_bound(lay, dict, board, plays.drop_last(), before);
        lemma_score_push(plays.drop_last(), entry);
        assert(plays.drop_last().push(entry) =~= plays);
        lemma_toggle_twice(rem, entry.0);
        lemma_count_disjoint(rem, entry.0);
        lemma_score_limits(0, popcount(entry.0) as int);
    }
}

/// The cells of all the words of a list.
pub open spec fn cells_of(plays: Seq<(u64, usize)>) -> u64
    decreases plays.len(),
{
    if plays.len() == 0 {
        0
    } else {
        plays[0].0 | cells_of(plays.drop_first())
    }
}

/// The numbers of cells of the words of a list, added up.
pub open spec fn cells_used(plays: Seq<(u64, usize)>) -> nat
    decreases plays.len(),
{
    if plays.len() == 0 {
        0
    } else {
        popcount(plays[0].0) + cells_used(plays.drop_first())
    }
}

/// The words of a cover use every cell of the set, and no cell twice.
pub proof fn lemma_cover_uses_all(
    lay: Layout,
    dict: Seq<Node>,
    rem: u64,
    plays: Seq<(u64, usize)>,
)
    requires
        trie_wf(dict),
        is_cover(lay, dict, rem, plays),
    ensures
        cells_of(plays) == rem,
        cells_used(plays) == popcount(rem),
    decreases plays.len(),
{
    if plays.len() == 0 {
        lemma_count_empty();
    } else {
        let entry = plays[0];
        lemma_word_on(lay, dict, rem, entry);
        lemma_count_remove(rem, entry.0);
        lemma_cover_uses_all(lay, dict, rem ^ entry.0, plays.drop_first());
        lemma_rejoin(rem, entry.0);
    }
}

} // verus!
