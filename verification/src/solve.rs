//! The search for the best cover of the board: every word that lies on the
//! free cells is tried as the next word, unless its length cannot lead to a
//! better score than the best cover found so far.

use crate::bits::{count_cells, lemma_count_remove, lemma_subset, lemma_toggle_twice, popcount};
use crate::cover::{
    is_chain, is_cover, is_word_on, lemma_chain_bound, lemma_chain_cover, lemma_cover_bound,
    lemma_cover_of_nothing, lemma_score_push, lemma_word_on, score,
};
use crate::dict::{accepts, trie_wf, walk, Node};
use crate::grid::{Grid, Layout};
use crate::order::{lemma_same_entries, sort_candidates};
use crate::paths::{path_ok, path_word, records};
use crate::scoring::{bonus, ideal, lemma_score_limits, IDEAL_POINTS, WORD_BONUSES};
use crate::search::{find_words, is_candidate, is_hit, is_listed, Frame};
use std::collections::HashMap;
use vstd::prelude::*;
use vstd::std_specs::hash::group_hash_axioms;

verus! {

/// A cover of the board, with its score.
pub struct Solution {
    /// The score of the cover.
    pub total: u8,
    /// The words of the cover in the order in which they were taken: the
    /// cells of each, and the node of the dictionary where it ends.
    pub plays: Vec<(u64, usize)>,
}

/// The state of a search for the best cover of a board.
pub struct Search {
    /// The cells to be covered.
    pub board: u64,
    /// The covers found, each with a higher score than the one before it.
    pub solutions: Vec<Solution>,
    /// The words taken on the way to the cells that are free now.
    pub plays: Vec<(u64, usize)>,
    /// Number of calls of the search so far.
    pub node_count: u64,
    /// For some sets of cells, a score that no cover of the set exceeds.
    pub cache: HashMap<u64, u8>,
    /// What was found on the free cells, at every depth of the search.
    pub word_stack: Vec<(u64, usize)>,
    /// Working space of the walk over board and dictionary.
    pub frames: Vec<Frame>,
}

/// The score to beat: that of the last of `solutions`, or -1 where there
/// is none yet.
pub open spec fn best_of(solutions: Seq<Solution>) -> int {
    if solutions.len() == 0 {
        -1
    } else {
        solutions.last().total as int
    }
}

/// Whether every one of `solutions` scores more than those before it.
pub open spec fn totals_rise(solutions: Seq<Solution>) -> bool {
    forall|i: int, j: int|
        0 <= i < j < solutions.len() ==> (#[trigger] solutions[i]).total < (
        #[trigger] solutions[j]).total
}

/// Whether `longer` begins with the solutions of `shorter`.
pub open spec fn extends(longer: Seq<Solution>, shorter: Seq<Solution>) -> bool {
    shorter.len() <= longer.len() && forall|i: int|
        0 <= i < shorter.len() ==> #[trigger] longer[i] == shorter[i]
}

/// Whether those of `solutions` from position `from` on begin with the
/// words of `plays`.
pub open spec fn begin_with(
    solutions: Seq<Solution>,
    from: int,
    plays: Seq<(u64, usize)>,
) -> bool {
    forall|i: int|
        from <= i < solutions.len() ==> plays.len() <= (#[trigger] solutions[i]).plays@.len()
            && solutions[i].plays@.take(plays.len() as int) == plays
}

/// Whether `bound` is a score that no cover of `rem` exceeds.
pub open spec fn bounds_covers(lay: Layout, dict: Seq<Node>, rem: u64, bound: int) -> bool {
    forall|rest: Seq<(u64, usize)>| #[trigger]
        is_cover(lay, dict, rem, rest) ==> score(rest) <= bound
}

/// Whether the search of the set `rem` with `points` in hand ends at
/// once, because the cache says that no cover of the set can beat the
/// score to beat.
pub open spec fn cuts_short(search: Search, rem: u64, points: int) -> bool {
    search.cache@.contains_key(rem) && points + search.cache@[rem] <= search.best()
}

/// The number of calls after one more call: one more, unless the number
/// is the greatest that the counter holds.
pub open spec fn counted(calls: u64) -> u64 {
    if calls < u64::MAX {
        (calls + 1) as u64
    } else {
        calls
    }
}

/// What is left to win at most with `points` in hand where nothing beats
/// `best`: the difference, or 0 where `best` is not above `points`.
pub open spec fn left_to_win(best: int, points: int) -> int {
    if best > points {
        best - points
    } else {
        0
    }
}

/// Lengths that the search tries: a word length is left out where even
/// the best on the remaining cells could not beat the score to beat.
pub open spec fn worth_trying(points: int, count: int, best: int, len: int) -> bool {
    len > count || points + bonus(len) + ideal(count - len) > best
}

/// The table of the lengths that are worth trying on `count` free cells.
pub open spec fn lengths_tried(points: int, count: int, best: int) -> Seq<bool> {
    Seq::new(13, |len: int| len == 0 || worth_trying(points, count, best, len))
}

/// Whether the search of the set `rem` with `points` in hand finds no word
/// to try: no word of a length worth trying lies on the cells of `rem`.
pub open spec fn dead_end(
    lay: Layout,
    dict: Seq<Node>,
    rem: u64,
    points: int,
    best: int,
) -> bool {
    forall|p: Seq<int>|
        !#[trigger] is_hit(lay, dict, rem, lengths_tried(points, popcount(rem) as int, best), p)
}

impl Search {
    /// The score to beat.
    pub open spec fn best(&self) -> int {
        best_of(self.solutions@)
    }

    /// What holds of a search at all times: every solution is a cover of
    /// the board with its score, the scores rise, and no cover of a set of
    /// cells exceeds what the cache says of the set.
    pub open spec fn wf(&self, lay: Layout, dict: Seq<Node>) -> bool {
        &&& forall|i: int|
            0 <= i < self.solutions.len() ==> is_cover(
                lay,
                dict,
                self.board,
                (#[trigger] self.solutions[i]).plays@,
            ) && self.solutions[i].total == score(self.solutions[i].plays@)
        &&& totals_rise(self.solutions@)
        &&& forall|rem: u64| #[trigger]
            self.cache@.contains_key(rem) ==> bounds_covers(lay, dict, rem, self.cache@[rem] as int)
    }

    /// A search for the best cover of the free cells of `grid`.
    pub fn new(grid: &Grid) -> (search: Self)
        ensures
            search.board == grid.remaining,
            search.solutions.len() == 0,
            search.plays.len() == 0,
            search.word_stack.len() == 0,
            search.frames.len() == 0,
            search.node_count == 0,
            search.cache@ == Map::<u64, u8>::empty(),
            forall|lay: Layout, dict: Seq<Node>| search.wf(lay, dict),
    {
        broadcast use group_hash_axioms;

        let search = Search {
            board: grid.remaining,
            solutions: Vec::new(),
            plays: Vec::new(),
            node_count: 0,
            cache: HashMap::new(),
            word_stack: Vec::new(),
            frames: Vec::new(),
        };
        assert(search.cache@ =~= Map::<u64, u8>::empty());
        search
    }

    /// The score of the best cover found, or 0 where none was found.
    pub fn best_score(&self) -> (total: u8)
        ensures
            total == (if self.solutions.len() == 0 {
                0
            } else {
                self.best()
            }),
    {
        let n = self.solutions.len();
        if n == 0 {
            0
        } else {
            self.solutions[n - 1].total
        }
    }

    /// The score to beat: that of the best cover found, or -1 where none
    /// was found yet.
    pub fn best_total(&self) -> (best: i32)
        ensures
            best == self.best(),
    {
        let n = self.solutions.len();
        if n == 0 {
            -1
        } else {
            self.solutions[n - 1].total as i32
        }
    }
}

/// The words of `plays`, copied.
fn copy_plays(plays: &Vec<(u64, usize)>) -> (copy: Vec<(u64, usize)>)
    ensures
        copy@ == plays@,
{
    let mut copy: Vec<(u64, usize)> = Vec::new();
    let mut i: usize = 0;
    while i < plays.len()
        invariant
            i <= plays.len(),
            copy@ == plays@.take(i as int),
        decreases plays.len() - i,
    {
        copy.push(plays[i]);
        proof {
            assert(plays@.take(i + 1) =~= plays@.take(i as int).push(plays@[i as int]));
        }
        i = i + 1;
    }
    proof {
        assert(plays@.take(i as int) =~= plays@);
    }
    copy
}

/// Which word lengths are worth trying on `count` free cells, with `points`
/// scored so far and `best` to beat.
pub fn winning_lengths(points: u8, count: usize, best: i32) -> (lengths: [bool; 13])
    requires
        count <= 64,
        -1 <= best <= 255,
    ensures
        lengths[0],
        forall|len: int|
            1 <= len <= 12 ==> #[trigger] lengths[len] == worth_trying(
                points as int,
                count as int,
                best as int,
                len,
            ),
        lengths@ == lengths_tried(points as int, count as int, best as int),
{
    let mut lengths: [bool; 13] = [true; 13];
    let mut len: usize = 1;
    while len <= count && len <= 12
        invariant
            1 <= len <= 13,
            count <= 64,
            lengths[0],
            forall|k: int| len <= k <= 12 ==> #[trigger] lengths[k],
            forall|k: int|
                1 <= k < len ==> #[trigger] lengths[k] == worth_trying(
                    points as int,
                    count as int,
                    best as int,
                    k,
                ),
        decreases 13 - len,
    {
        let remaining: usize = count - len;
        let word_points: u8 = WORD_BONUSES[len];
        let reach: i32 = points as i32 + word_points as i32 + IDEAL_POINTS[remaining] as i32;
        lengths[len] = reach > best;
        len = len + 1;
    }
    proof {
        assert(lengths@ =~= lengths_tried(points as int, count as int, best as int));
    }
    lengths
}

/// A later list of solutions has at least the score to beat of an earlier
/// one.
pub proof fn lemma_best_rises(longer: Seq<Solution>, shorter: Seq<Solution>)
    requires
        extends(longer, shorter),
        totals_rise(longer),
    ensures
        best_of(shorter) <= best_of(longer),
        -1 <= best_of(shorter),
{
    if shorter.len() > 0 {
        assert(longer[shorter.len() - 1] == shorter[shorter.len() - 1]);
        if shorter.len() < longer.len() {
            assert(longer[shorter.len() - 1].total < longer[longer.len() - 1].total);
        }
    }
}

/// Searches the covers of the free cells of `grid` for one that, with the
/// `points` of the words already taken, beats the best cover found so far,
/// and records each cover that does. Afterwards no cover of the free
/// cells beats the last cover recorded.
///
/// Where no cell is free, the words taken are a cover of the board, which
/// is recorded if it beats the best. Otherwise the search ends at once if
/// the cache says that the free cells cannot bring enough. If it goes on,
/// it finds the words on the free cells whose length is worth trying,
/// sorts them, takes each set of cells once, with the first word found on
/// it, and searches what the word leaves free. At the end the cache learns
/// what the free cells can bring at most.
pub fn solve_puzzle(grid: &mut Grid, dict: &Vec<Node>, points: u8, search: &mut Search)
    requires
        old(grid).wf(),
        trie_wf(dict@),
        old(search).wf(old(grid).layout(), dict@),
        is_chain(
            old(grid).layout(),
            dict@,
            old(search).board,
            old(search).plays@,
            old(grid).remaining,
        ),
        points == score(old(search).plays@),
    ensures
        final(grid).remaining == old(grid).remaining,
        final(grid).letters == old(grid).letters,
        final(grid).adjacency == old(grid).adjacency,
        final(grid).adjacency_ords == old(grid).adjacency_ords,
        final(search).wf(old(grid).layout(), dict@),
        final(search).board == old(search).board,
        final(search).plays@ == old(search).plays@,
        final(search).word_stack@ == old(search).word_stack@,
        extends(final(search).solutions@, old(search).solutions@),
        begin_with(
            final(search).solutions@,
            old(search).solutions.len() as int,
            old(search).plays@,
        ),
        old(search).best() <= final(search).best(),
        bounds_covers(
            old(grid).layout(),
            dict@,
            old(grid).remaining,
            final(search).best() - points,
        ),
        counted(old(search).node_count) <= final(search).node_count,
        forall|rem: u64| #[trigger]
            old(search).cache@.contains_key(rem) ==> final(search).cache@.contains_key(rem),
        old(grid).remaining != 0 ==> final(search).cache@.contains_key(old(grid).remaining)
            && final(search).cache@[old(grid).remaining] == (if cuts_short(
            *old(search),
            old(grid).remaining,
            points as int,
        ) {
            old(search).cache@[old(grid).remaining] as int
        } else {
            left_to_win(final(search).best(), points as int)
        }),
        // Where no cell is free: one call, and a new best if the points
        // beat the best.
        old(grid).remaining == 0 ==> {
            &&& final(search).node_count == counted(old(search).node_count)
            &&& final(search).cache@ == old(search).cache@
            &&& if points > old(search).best() {
                &&& final(search).solutions.len() == old(search).solutions.len() + 1
                &&& final(search).solutions@.last().total == points
                &&& final(search).solutions@.last().plays@ == old(search).plays@
            } else {
                final(search).solutions@ == old(search).solutions@
            }
        },
        // Where the cache cuts the search short: one call, and nothing else.
        old(grid).remaining != 0 && cuts_short(*old(search), old(grid).remaining, points as int)
            ==> {
            &&& final(search).node_count == counted(old(search).node_count)
            &&& final(search).cache@ == old(search).cache@
            &&& final(search).solutions@ == old(search).solutions@
        },
        // Where there is no word to try: one call, and the cache learns
        // what is left to win.
        old(grid).remaining != 0 && !cuts_short(
            *old(search),
            old(grid).remaining,
            points as int,
        ) && dead_end(
            old(grid).layout(),
            dict@,
            old(grid).remaining,
            points as int,
            old(search).best(),
        ) ==> {
            &&& final(search).node_count == counted(old(search).node_count)
            &&& final(search).solutions@ == old(search).solutions@
            &&& final(search).cache@ == old(search).cache@.insert(
                old(grid).remaining,
                left_to_win(old(search).best(), points as int) as u8,
            )
        },
    decreases old(grid).remaining,
{
    broadcast use group_hash_axioms;

    let ghost lay = grid.layout();
    let ghost rem = grid.remaining;
    let ghost board = search.board;
    let ghost plays_in = search.plays@;
    let ghost solutions_in = search.solutions@;
    let ghost found_in = search.word_stack@;
    if search.node_count < u64::MAX {
        search.node_count = search.node_count + 1;
    }
    let best_in: i32 = search.best_total();
    proof {
        lemma_chain_bound(lay, dict@, board, plays_in, rem);
        lemma_best_rises(solutions_in, solutions_in);
    }
    if grid.remaining == 0 {
        if points as i32 > best_in {
            let plays = copy_plays(&search.plays);
            search.solutions.push(Solution { total: points, plays });
            proof {
                lemma_chain_cover(lay, dict@, board, plays_in, rem, Seq::empty());
                assert(plays_in + Seq::<(u64, usize)>::empty() =~= plays_in);
                assert(plays_in.take(plays_in.len() as int) =~= plays_in);
                assert forall|i: int| 0 <= i < search.solutions.len() implies is_cover(
                    lay,
                    dict@,
                    search.board,
                    (#[trigger] search.solutions[i]).plays@,
                ) && search.solutions[i].total == score(search.solutions[i].plays@) by {
                    if i < solutions_in.len() {
                        assert(search.solutions[i] == solutions_in[i]);
                    }
                }
                assert forall|i: int, j: int| 0 <= i < j < search.solutions.len() implies (
                #[trigger] search.solutions@[i]).total < (
                #[trigger] search.solutions@[j]).total by {
                    assert(search.solutions@[i] == solutions_in[i]);
                    if j < solutions_in.len() {
                        assert(search.solutions@[j] == solutions_in[j]);
                    } else {
                        assert(solutions_in[i].total <= solutions_in[solutions_in.len() - 1].total);
                    }
                }
            }
        }
        proof {
            assert forall|rest: Seq<(u64, usize)>| #[trigger]
                is_cover(lay, dict@, rem, rest) implies score(rest) <= search.best() - points by {
                lemma_cover_of_nothing(lay, dict@, rest);
            }
        }
        return ;
    }
    let hit = search.cache.get(&grid.remaining);
    if let Some(upper_bound) = hit {
        if points as i32 + *upper_bound as i32 <= best_in {
            return ;
        }
    }
    let count: usize = count_cells(grid.remaining);
    let lengths = winning_lengths(points, count, best_in);
    let start: usize = search.word_stack.len();
    let end: usize = find_words(
        grid,
        dict.as_slice(),
        &mut search.word_stack,
        lengths,
        &mut search.frames,
    );
    let ghost unsorted = search.word_stack@;
    sort_candidates(&mut search.word_stack, start);
    let ghost found = search.word_stack@;
    proof {
        assert(found.take(start as int) =~= found_in);
        lemma_same_entries(found.skip(start as int), unsorted.skip(start as int));
        assert forall|t: int| start <= t < end implies is_word_on(
            lay,
            dict@,
            rem,
            #[trigger] found[t],
        ) by {
            assert(found[t] == found.skip(start as int)[t - start]);
            assert(unsorted.skip(start as int).contains(found[t]));
            let u = choose|u: int|
                0 <= u < unsorted.skip(start as int).len() && unsorted.skip(start as int)[u]
                    == found[t];
            assert(unsorted[u + start] == found[t]);
            assert(is_candidate(lay, dict@, rem, lengths@, unsorted[u + start]));
            let p = choose|p: Seq<int>| #[trigger]
                is_hit(lay, dict@, rem, lengths@, p) && records(lay, dict@, found[t], p);
            assert(path_ok(lay, rem, p));
        }
        assert forall|p: Seq<int>| #[trigger]
            is_hit(lay, dict@, rem, lengths@, p) implies is_listed(
            lay,
            dict@,
            found,
            start as int,
            p,
        ) by {
            assert(is_listed(lay, dict@, unsorted, start as int, p));
            let u = choose|u: int|
                start <= u < unsorted.len() && records(lay, dict@, #[trigger] unsorted[u], p);
            assert(unsorted[u] == unsorted.skip(start as int)[u - start]);
            assert(found.skip(start as int).contains(unsorted[u]));
            let t = choose|t: int|
                0 <= t < found.skip(start as int).len() && found.skip(start as int)[t]
                    == unsorted[u];
            assert(records(lay, dict@, found[t + start], p));
        }
    }
    let ghost mut done: Set<u64> = Set::empty();
    let mut i: usize = start;
    while i < end
        invariant
            start <= i <= end == search.word_stack.len(),
            search.word_stack@ == found,
            found.take(start as int) == found_in,
            grid.wf(),
            grid.remaining == rem,
            rem == old(grid).remaining,
            grid.layout() == lay,
            grid.letters == old(grid).letters,
            grid.adjacency == old(grid).adjacency,
            grid.adjacency_ords == old(grid).adjacency_ords,
            rem != 0,
            trie_wf(dict@),
            search.wf(lay, dict@),
            search.board == board,
            search.plays@ == plays_in,
            is_chain(lay, dict@, board, plays_in, rem),
            points == score(plays_in),
            0 <= points,
            score(plays_in) + 2 * popcount(rem) <= 2 * popcount(board),
            popcount(board) <= 64,
            extends(search.solutions@, solutions_in),
            begin_with(search.solutions@, solutions_in.len() as int, plays_in),
            counted(old(search).node_count) <= search.node_count,
            start == end ==> search.node_count == counted(old(search).node_count)
                && search.solutions@ == solutions_in && search.cache@ == old(search).cache@,
            forall|key: u64| #[trigger]
                old(search).cache@.contains_key(key) ==> search.cache@.contains_key(key),
            forall|t: int| start <= t < end ==> is_word_on(lay, dict@, rem, #[trigger] found[t]),
            forall|t: int| start <= t < i ==> done.contains((#[trigger] found[t]).0),
            forall|mask: u64| #[trigger]
                done.contains(mask) ==> bounds_covers(
                    lay,
                    dict@,
                    rem ^ mask,
                    search.best() - points - bonus(popcount(mask) as int),
                ),
        decreases end - i,
    {
        let (word, idx) = search.word_stack[i];
        let repeated: bool = i > start && search.word_stack[i - 1].0 == word;
        i = i + 1;
        if repeated {
            continue ;
        }
        proof {
            assert(found[i - 1] == (word, idx));
            lemma_word_on(lay, dict@, rem, (word, idx));
            lemma_count_remove(rem, word);
            lemma_toggle_twice(rem, word);
            lemma_score_limits(0, popcount(word) as int);
            lemma_score_push(plays_in, (word, idx));
            lemma_subset(rem, grid.occupied());
            lemma_subset(rem ^ word, rem);
            lemma_subset(rem ^ word, grid.occupied());
        }
        let word_points: u8 = WORD_BONUSES[count_cells(word)];
        let ghost solutions_mid = search.solutions@;
        grid.flip(word);
        search.plays.push((word, idx));
        proof {
            assert(search.plays@.drop_last() =~= plays_in);
            assert(search.plays@.last() == (word, idx));
            assert(grid.layout() =~= lay);
            lemma_toggle_twice(rem ^ word, word);
            assert(is_word_on(lay, dict@, (rem ^ word) ^ word, (word, idx)));
            assert(is_chain(lay, dict@, board, search.plays@, rem ^ word));
        }
        let ghost cache_mid = search.cache@;
        solve_puzzle(grid, dict, points + word_points, search);
        let ghost cache_after = search.cache@;
        search.plays.pop();
        grid.flip(word);
        proof {
            assert(search.plays@ =~= plays_in);
            assert(grid.layout() =~= lay);
            lemma_best_rises(search.solutions@, solutions_mid);
            assert forall|k: int|
                solutions_in.len() <= k < search.solutions.len() implies plays_in.len() <= (
                #[trigger] search.solutions@[k]).plays@.len()
                && search.solutions@[k].plays@.take(plays_in.len() as int) == plays_in by {
                if k < solutions_mid.len() {
                    assert(search.solutions@[k] == solutions_mid[k]);
                } else {
                    let longer = plays_in.push((word, idx));
                    let whole = search.solutions@[k].plays@;
                    assert(whole.take(longer.len() as int) == longer);
                    assert(whole.take(plays_in.len() as int) =~= longer.take(
                        plays_in.len() as int,
                    ));
                    assert(longer.take(plays_in.len() as int) =~= plays_in);
                }
            }
            assert forall|key: u64| #[trigger]
                old(search).cache@.contains_key(key) implies search.cache@.contains_key(key) by {
                assert(cache_mid.contains_key(key));
                assert(cache_after.contains_key(key));
            }
            assert forall|mask: u64| #[trigger]
                done.insert(word).contains(mask) implies bounds_covers(
                lay,
                dict@,
                rem ^ mask,
                search.best() - points - bonus(popcount(mask) as int),
            ) by {
                if mask != word {
                    assert(done.contains(mask));
                    assert(bounds_covers(
                        lay,
                        dict@,
                        rem ^ mask,
                        best_of(solutions_mid) - points - bonus(popcount(mask) as int),
                    ));
                }
            }
            done = done.insert(word);
        }
    }
    search.word_stack.truncate(start);
    // Whatever these cells can still bring, with the points in hand it does
    // not beat the best cover: that holds of the words that were tried, and
    // of the words whose length was left out. So the difference bounds what
    // the cells can bring, also where no word was tried at all.
    let best_out: i32 = search.best_total();
    let bound: u8 = if best_out > points as i32 {
        (best_out - points as i32) as u8
    } else {
        0
    };
    proof {
        assert(search.word_stack@ =~= found_in);
        lemma_best_rises(search.solutions@, solutions_in);
        if start < end && dead_end(lay, dict@, rem, points as int, old(search).best()) {
            assert(is_candidate(lay, dict@, rem, lengths@, unsorted[start as int]));
            let p = choose|p: Seq<int>| #[trigger]
                is_hit(lay, dict@, rem, lengths@, p) && records(
                    lay,
                    dict@,
                    unsorted[start as int],
                    p,
                );
            assert(is_hit(lay, dict@, rem, lengths@, p));
        }
        assert forall|rest: Seq<(u64, usize)>| #[trigger]
            is_cover(lay, dict@, rem, rest) implies score(rest) <= search.best() - points by {
            let first = rest[0];
            let others = rest.drop_first();
            lemma_word_on(lay, dict@, rem, first);
            lemma_count_remove(rem, first.0);
            lemma_cover_bound(lay, dict@, rem ^ first.0, others);
            let len = popcount(first.0) as int;
            assert(is_cover(lay, dict@, rem ^ first.0, others));
            if lengths@[len] {
                let p = choose|p: Seq<int>|
                    #![trigger path_ok(lay, rem, p)]
                    path_ok(lay, rem, p) && accepts(dict@, path_word(lay, p)) && records(
                        lay,
                        dict@,
                        first,
                        p,
                    );
                assert(is_hit(lay, dict@, rem, lengths@, p));
                assert(is_listed(lay, dict@, found, start as int, p));
                let t = choose|t: int|
                    start <= t < found.len() && records(lay, dict@, #[trigger] found[t], p);
                assert(done.contains(found[t].0));
                assert(bounds_covers(
                    lay,
                    dict@,
                    rem ^ first.0,
                    search.best() - points - bonus(popcount(first.0) as int),
                ));
            } else {
                assert(!worth_trying(points as int, count as int, best_in as int, len));
            }
        }
        assert forall|key: u64| #[trigger]
            search.cache@.insert(rem, bound).contains_key(key) implies bounds_covers(
            lay,
            dict@,
            key,
            search.cache@.insert(rem, bound)[key] as int,
        ) by {
            if key != rem {
                assert(search.cache@.contains_key(key));
            }
        }
    }
    search.cache.insert(grid.remaining, bound);
}

/// Whether `solution` is a cover of `board` with its score, and no cover
/// of `board` scores more.
pub open spec fn is_best(lay: Layout, dict: Seq<Node>, board: u64, solution: Solution) -> bool {
    &&& is_cover(lay, dict, board, solution.plays@)
    &&& solution.total == score(solution.plays@)
    &&& bounds_covers(lay, dict, board, solution.total as int)
}

/// Finds a best cover of the free cells of `grid`. The search that is
/// handed back holds every cover that was the best when it was found; the
/// last of them is a best cover. It holds none where the free cells have
/// no cover.
pub fn solve(grid: &mut Grid, dict: &Vec<Node>) -> (search: Search)
    requires
        old(grid).wf(),
        trie_wf(dict@),
    ensures
        final(grid).remaining == old(grid).remaining,
        final(grid).letters == old(grid).letters,
        final(grid).adjacency == old(grid).adjacency,
        final(grid).adjacency_ords == old(grid).adjacency_ords,
        search.wf(old(grid).layout(), dict@),
        search.board == old(grid).remaining,
        search.plays.len() == 0,
        search.solutions.len() > 0 ==> is_best(
            old(grid).layout(),
            dict@,
            search.board,
            search.solutions@.last(),
        ),
        search.solutions.len() == 0 ==> forall|plays: Seq<(u64, usize)>|
            !#[trigger] is_cover(old(grid).layout(), dict@, search.board, plays),
{
    let mut search = Search::new(grid);
    let ghost lay = grid.layout();
    let ghost board = grid.remaining;
    proof {
        assert(search.wf(lay, dict@));
    }
    solve_puzzle(grid, dict, 0, &mut search);
    proof {
        assert forall|plays: Seq<(u64, usize)>| #[trigger]
            is_cover(lay, dict@, board, plays) implies search.solutions.len() > 0 by {
            lemma_cover_bound(lay, dict@, board, plays);
        }
        if search.solutions.len() > 0 {
            assert(search.solutions[search.solutions.len() - 1] == search.solutions@.last());
        }
    }
    search
}

} // verus!
