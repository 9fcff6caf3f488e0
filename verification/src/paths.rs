//! Words on the board: a word lies on a path of cells, each the neighbour
//! of the one before it, none used twice.

use crate::bits::{
    bit_of, has_bit, lemma_bit_of, lemma_count_empty, lemma_count_insert, lemma_mask_ops,
    lemma_mask_zero, lemma_subset, popcount, subset,
};
use crate::dict::{lemma_walk_in_range, trie_wf, walk, Node};
use crate::grid::Layout;
use vstd::prelude::*;

verus! {

/// The set of the cells of a path.
pub open spec fn path_mask(p: Seq<int>) -> u64
    decreases p.len(),
{
    if p.len() == 0 {
        0
    } else {
        path_mask(p.drop_last()) | bit_of(p.last())
    }
}

/// Whether `p` is a path on the board that uses only cells of `rem`: it has
/// at least one cell, every cell but the first is a neighbour of the one
/// before it, and no cell comes twice.
pub open spec fn path_ok(lay: Layout, rem: u64, p: Seq<int>) -> bool
    decreases p.len(),
{
    if p.len() == 0 {
        false
    } else if p.len() == 1 {
        has_bit(rem, p[0])
    } else {
        let q = p.drop_last();
        &&& path_ok(lay, rem, q)
        &&& has_bit(rem, p.last())
        &&& has_bit(lay.adjacency[q.last()], p.last())
        &&& !has_bit(path_mask(q), p.last())
    }
}

/// The ordinals of the letters along a path.
pub open spec fn path_word(lay: Layout, p: Seq<int>) -> Seq<int> {
    Seq::new(p.len(), |t: int| lay.letters[p[t]] as int)
}

/// Whether `entry` is what the search records of the path `p`: its cells,
/// and the node of the dictionary where its word ends.
pub open spec fn records(lay: Layout, dict: Seq<Node>, entry: (u64, usize), p: Seq<int>) -> bool {
    entry.0 == path_mask(p) && entry.1 == walk(dict, path_word(lay, p))
}

/// Whether `q` is the beginning of `p`.
pub open spec fn is_prefix(q: Seq<int>, p: Seq<int>) -> bool {
    q.len() <= p.len() && p.take(q.len() as int) == q
}

/// The word of a path without its last cell is the word without its last
/// letter.
pub proof fn lemma_path_word_step(lay: Layout, p: Seq<int>)
    requires
        p.len() > 0,
    ensures
        path_word(lay, p).drop_last() == path_word(lay, p.drop_last()),
        path_word(lay, p).last() == lay.letters[p.last()],
{
    assert(path_word(lay, p).drop_last() =~= path_word(lay, p.drop_last()));
}

/// The members of the set of a path are its cells.
pub proof fn lemma_path_mask(p: Seq<int>)
    requires
        forall|t: int| 0 <= t < p.len() ==> 0 <= #[trigger] p[t] < 64,
    ensures
        forall|j: int| #[trigger]
            has_bit(path_mask(p), j) <==> exists|t: int| 0 <= t < p.len() && p[t] == j,
    decreases p.len(),
{
    if p.len() == 0 {
        lemma_mask_zero(0);
    } else {
        let q = p.drop_last();
        lemma_path_mask(q);
        lemma_bit_of(p.last());
        lemma_mask_ops(path_mask(q), bit_of(p.last()));
        assert forall|j: int| #[trigger]
            has_bit(path_mask(p), j) <==> exists|t: int| 0 <= t < p.len() && p[t] == j by {
            if has_bit(path_mask(p), j) {
                if has_bit(path_mask(q), j) {
                    let t = choose|t: int| 0 <= t < q.len() && q[t] == j;
                    assert(p[t] == j);
                } else {
                    assert(p[p.len() - 1] == j);
                }
            }
            if exists|t: int| 0 <= t < p.len() && p[t] == j {
                let t = choose|t: int| 0 <= t < p.len() && p[t] == j;
                if t < q.len() {
                    assert(q[t] == j);
                }
            }
        }
    }
}

/// The cells of a path are cells of the board, and of the set it was
/// required to stay in.
pub proof fn lemma_path_cells(lay: Layout, rem: u64, p: Seq<int>)
    requires
        path_ok(lay, rem, p),
    ensures
        p.len() >= 1,
        forall|t: int| 0 <= t < p.len() ==> has_bit(rem, #[trigger] p[t]),
        forall|t: int| 0 <= t < p.len() ==> 0 <= #[trigger] p[t] < 64,
        subset(path_mask(p), rem),
        path_mask(p) != 0,
    decreases p.len(),
{
    if p.len() > 1 {
        lemma_path_cells(lay, rem, p.drop_last());
    }
    assert forall|t: int| 0 <= t < p.len() implies has_bit(rem, #[trigger] p[t]) by {
        if t < p.len() - 1 {
            assert(p.drop_last()[t] == p[t]);
        }
    }
    lemma_path_mask(p);
    lemma_subset(path_mask(p), rem);
    lemma_mask_zero(path_mask(p));
    assert(has_bit(path_mask(p), p[0]));
}

/// Every beginning of a path is a path.
pub proof fn lemma_path_prefix(lay: Layout, rem: u64, p: Seq<int>, n: int)
    requires
        path_ok(lay, rem, p),
        1 <= n <= p.len(),
    ensures
        path_ok(lay, rem, p.take(n)),
    decreases p.len(),
{
    if n < p.len() {
        lemma_path_prefix(lay, rem, p.drop_last(), n);
        assert(p.drop_last().take(n) =~= p.take(n));
    } else {
        assert(p.take(n) =~= p);
    }
}

/// Where the dictionary has the word of a path, it has that of every
/// beginning of the path.
pub proof fn lemma_walk_prefix(lay: Layout, dict: Seq<Node>, p: Seq<int>, n: int)
    requires
        trie_wf(dict),
        walk(dict, path_word(lay, p)) >= 0,
        0 <= n <= p.len(),
    ensures
        walk(dict, path_word(lay, p.take(n))) >= 0,
    decreases p.len(),
{
    if n < p.len() {
        lemma_walk_in_range(dict, path_word(lay, p));
        lemma_path_word_step(lay, p);
        lemma_walk_prefix(lay, dict, p.drop_last(), n);
        assert(p.drop_last().take(n) =~= p.take(n));
    } else {
        assert(p.take(n) =~= p);
    }
}

/// The set of a path has as many members as the path has cells.
pub proof fn lemma_path_count(lay: Layout, rem: u64, p: Seq<int>)
    requires
        path_ok(lay, rem, p),
    ensures
        popcount(path_mask(p)) == p.len(),
    decreases p.len(),
{
    lemma_path_cells(lay, rem, p);
    let q = p.drop_last();
    if p.len() > 1 {
        lemma_path_count(lay, rem, q);
        lemma_count_insert(path_mask(q), p.last());
    } else {
        assert(q.len() == 0);
        assert(path_mask(q) == 0);
        lemma_mask_zero(0);
        lemma_count_insert(0, p.last());
        lemma_count_empty();
    }
}

} // verus!
