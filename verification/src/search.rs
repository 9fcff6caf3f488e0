//! The search: which words lie on the free cells of the board, and which
//! choice of words that uses every cell scores best.

use crate::bits::{
    cell_bit, has_bit, lemma_lowest, lemma_mask_ops, lemma_mask_zero, lemma_masks_equal,
    lemma_remove_bit, lemma_subset, popcount, subset,
};
use crate::dict::{accepts, child, lemma_walk_in_range, node_wf, trie_wf, walk, Node};
use crate::grid::{Grid, Layout};
use crate::lex::{differ_at, lemma_lex_transitive, lex_lt};
use crate::paths::{
    is_prefix, lemma_path_cells, lemma_path_count, lemma_path_prefix, lemma_path_word_step,
    lemma_walk_prefix, path_mask, path_ok, path_word, records,
};
use vstd::prelude::*;

verus! {

/// A place in the walk over board and dictionary: the cell reached last,
/// the cells used so far, and the node of the dictionary reached by their
/// letters.
pub struct Frame {
    /// The cell reached last.
    pub cell: usize,
    /// The cells used so far.
    pub mask: u64,
    /// The node of the dictionary reached by the letters of the cells.
    pub node: usize,
}

/// Whether `p` is a path over cells of `rem` that spells a word of the
/// dictionary whose length `lengths` admits.
pub open spec fn is_hit(
    lay: Layout,
    dict: Seq<Node>,
    rem: u64,
    lengths: Seq<bool>,
    p: Seq<int>,
) -> bool {
    &&& path_ok(lay, rem, p)
    &&& accepts(dict, path_word(lay, p))
    &&& lengths[dict[walk(dict, path_word(lay, p))].len as int]
}

/// Whether `entry` records some path that spells an admitted word.
pub open spec fn is_candidate(
    lay: Layout,
    dict: Seq<Node>,
    rem: u64,
    lengths: Seq<bool>,
    entry: (u64, usize),
) -> bool {
    exists|p: Seq<int>| #[trigger]
        is_hit(lay, dict, rem, lengths, p) && records(lay, dict, entry, p)
}

/// Whether `found`, from position `start` on, records the path `p`.
pub open spec fn is_listed(
    lay: Layout,
    dict: Seq<Node>,
    found: Seq<(u64, usize)>,
    start: int,
    p: Seq<int>,
) -> bool {
    exists|t: int| start <= t < found.len() && records(lay, dict, #[trigger] found[t], p)
}

/// Whether one of `paths` is the beginning of `p`.
spec fn is_covered(paths: Seq<Seq<int>>, p: Seq<int>) -> bool {
    exists|f: int| 0 <= f < paths.len() && is_prefix(#[trigger] paths[f], p)
}

/// Whether `frame` is the place that the walk reaches along the path `q`.
spec fn frame_ok(
    lay: Layout,
    rem: u64,
    dict: Seq<Node>,
    frame: Frame,
    q: Seq<int>,
) -> bool {
    &&& path_ok(lay, rem, q)
    &&& frame.cell == q.last()
    &&& frame.cell < 64
    &&& frame.mask == path_mask(q)
    &&& frame.node == walk(dict, path_word(lay, q))
    &&& 0 < frame.node < dict.len()
}

/// 65 to the power of `k`.
spec fn pow65(k: nat) -> nat
    decreases k,
{
    if k == 0 {
        1
    } else {
        65 * pow65((k - 1) as nat)
    }
}

/// An upper bound on the work that the frames of a stack stand for. A
/// frame at a node weighs more than 64 frames at nodes that come later.
spec fn stack_weight(frames: Seq<Frame>, total: nat) -> nat
    decreases frames.len(),
{
    if frames.len() == 0 {
        0
    } else {
        stack_weight(frames.drop_last(), total) + pow65((total - frames.last().node) as nat)
    }
}

/// A higher power of 65 is no less than a lower one, and none is 0.
proof fn lemma_pow65_monotonic(a: nat, b: nat)
    requires
        a <= b,
    ensures
        1 <= pow65(a) <= pow65(b),
    decreases b,
{
    if b > 0 {
        if a < b {
            lemma_pow65_monotonic(a, (b - 1) as nat);
        } else {
            lemma_pow65_monotonic((a - 1) as nat, (b - 1) as nat);
        }
    }
}

/// Whether `found`, from position `start` on, records the paths of
/// `emitted` one by one, and each of them spells an admitted word.
pub open spec fn lists(
    lay: Layout,
    dict: Seq<Node>,
    rem: u64,
    lengths: Seq<bool>,
    found: Seq<(u64, usize)>,
    start: int,
    emitted: Seq<Seq<int>>,
) -> bool {
    &&& emitted.len() == found.len() - start
    &&& forall|t: int|
        0 <= t < emitted.len() ==> is_hit(lay, dict, rem, lengths, #[trigger] emitted[t])
            && records(lay, dict, found[start + t], emitted[t])
}

/// The place of a path in the order of the walk: its first cell, and for
/// every later cell what the number of the cell lacks to 63.
pub open spec fn walk_key(p: Seq<int>) -> Seq<int> {
    Seq::new(
        p.len(),
        |t: int|
            if t == 0 {
                p[0]
            } else {
                63 - p[t]
            },
    )
}

/// Whether the walk comes to the path `a` before it comes to the path
/// `b`: paths from a lower first cell come first, a path comes before
/// the paths that go on from it, and of two ways to go on the one to the
/// higher cell comes first.
pub open spec fn walked_before(a: Seq<int>, b: Seq<int>) -> bool {
    lex_lt(walk_key(a), walk_key(b))
}

/// Whether `paths` stand in the order in which the walk comes to them.
pub open spec fn in_walk_order(paths: Seq<Seq<int>>) -> bool {
    forall|s: int, t: int|
        0 <= s < t < paths.len() ==> walked_before(#[trigger] paths[s], #[trigger] paths[t])
}

/// Whether `found`, from position `start` on, records the paths of
/// `emitted` one by one, and these are the paths that spell an admitted
/// word, each of them once, in the order in which the walk comes to them.
pub open spec fn lists_exactly(
    lay: Layout,
    dict: Seq<Node>,
    rem: u64,
    lengths: Seq<bool>,
    found: Seq<(u64, usize)>,
    start: int,
    emitted: Seq<Seq<int>>,
) -> bool {
    &&& lists(lay, dict, rem, lengths, found, start, emitted)
    &&& emitted.no_duplicates()
    &&& in_walk_order(emitted)
    &&& forall|p: Seq<int>| #[trigger] is_hit(lay, dict, rem, lengths, p) ==> emitted.contains(p)
}

/// Whether the walk cannot come to a path twice: none of `emitted` begins
/// with one of `paths`, none of `paths` begins with another, and none of
/// `emitted` comes twice.
#[verifier::opaque]
spec fn apart(paths: Seq<Seq<int>>, emitted: Seq<Seq<int>>) -> bool {
    &&& forall|f: int, t: int|
        0 <= f < paths.len() && 0 <= t < emitted.len() ==> !is_prefix(
            #[trigger] paths[f],
            #[trigger] emitted[t],
        )
    &&& forall|f: int, g: int|
        0 <= f < paths.len() && 0 <= g < paths.len() && f != g ==> !is_prefix(
            #[trigger] paths[f],
            #[trigger] paths[g],
        )
    &&& emitted.no_duplicates()
}

/// Whether the paths of `paths` from position `base` on are the path `q`
/// with one more cell, a cell below `low`, and `q` is apart from the
/// paths before `base` and from the paths of `emitted` other than itself.
#[verifier::opaque]
spec fn brood(
    paths: Seq<Seq<int>>,
    emitted: Seq<Seq<int>>,
    base: int,
    q: Seq<int>,
    low: int,
) -> bool {
    &&& 0 <= base <= paths.len()
    &&& forall|f: int|
        0 <= f < base ==> !is_prefix(#[trigger] paths[f], q) && !is_prefix(q, paths[f])
    &&& forall|t: int|
        0 <= t < emitted.len() ==> #[trigger] emitted[t] == q || !is_prefix(q, emitted[t])
    &&& forall|f: int|
        base <= f < paths.len() ==> (#[trigger] paths[f]).len() == q.len() + 1
            && paths[f].drop_last() == q && paths[f].last() < low
}

/// Nothing has been walked yet, and nothing found.
proof fn lemma_apart_nothing()
    ensures
        apart(Seq::empty(), Seq::empty()),
{
    reveal(apart);
}

/// A first cell that begins none of the paths found so far.
proof fn lemma_apart_seed(emitted: Seq<Seq<int>>, index: int)
    requires
        apart(Seq::empty(), emitted),
        forall|t: int|
            0 <= t < emitted.len() ==> (#[trigger] emitted[t]).len() > 0 && emitted[t][0] != index,
    ensures
        apart(seq![seq![index]], emitted),
{
    reveal(apart);
    let paths = seq![seq![index]];
    assert forall|f: int, t: int| 0 <= f < paths.len() && 0 <= t < emitted.len() implies !is_prefix(
        #[trigger] paths[f],
        #[trigger] emitted[t],
    ) by {
        if is_prefix(paths[f], emitted[t]) {
            assert(emitted[t].take(1)[0] == paths[f][0]);
        }
    }
}

/// Taking the last path off the stack, whether or not it is found then.
proof fn lemma_apart_pop(paths: Seq<Seq<int>>, emitted: Seq<Seq<int>>)
    requires
        apart(paths, emitted),
        paths.len() > 0,
    ensures
        apart(paths.drop_last(), emitted),
        apart(paths.drop_last(), emitted.push(paths.last())),
        brood(paths.drop_last(), emitted, paths.len() - 1, paths.last(), 0),
        brood(paths.drop_last(), emitted.push(paths.last()), paths.len() - 1, paths.last(), 0),
{
    reveal(apart);
    reveal(brood);
    let q = paths.last();
    let rest = paths.drop_last();
    let more = emitted.push(q);
    assert(q == paths[paths.len() - 1]);
    assert(is_prefix(q, q)) by {
        assert(q.take(q.len() as int) =~= q);
    }
    assert forall|f: int| 0 <= f < rest.len() implies !is_prefix(#[trigger] rest[f], q)
        && !is_prefix(q, rest[f]) by {
        assert(rest[f] == paths[f]);
    }
    assert forall|t: int| 0 <= t < emitted.len() implies !is_prefix(q, #[trigger] emitted[t]) by {}
    assert forall|f: int, t: int| 0 <= f < rest.len() && 0 <= t < more.len() implies !is_prefix(
        #[trigger] rest[f],
        #[trigger] more[t],
    ) by {
        assert(rest[f] == paths[f]);
        if t < emitted.len() {
            assert(more[t] == emitted[t]);
        }
    }
    assert forall|f: int, g: int|
        0 <= f < rest.len() && 0 <= g < rest.len() && f != g implies !is_prefix(
        #[trigger] rest[f],
        #[trigger] rest[g],
    ) by {
        assert(rest[f] == paths[f]);
        assert(rest[g] == paths[g]);
    }
    assert forall|a: int, b: int|
        0 <= a < more.len() && 0 <= b < more.len() && a != b implies more[a] != more[b] by {
        if a < emitted.len() && b < emitted.len() {
            assert(more[a] == emitted[a] && more[b] == emitted[b]);
        } else if a < emitted.len() {
            assert(more[a] == emitted[a]);
        } else {
            assert(more[b] == emitted[b]);
        }
    }
    assert forall|t: int| 0 <= t < more.len() implies #[trigger] more[t] == q || !is_prefix(
        q,
        more[t],
    ) by {
        if t < emitted.len() {
            assert(more[t] == emitted[t]);
        }
    }
}

/// Putting on the stack the path `q` with one more cell, a cell that no
/// path put there before has.
proof fn lemma_apart_child(
    paths: Seq<Seq<int>>,
    emitted: Seq<Seq<int>>,
    base: int,
    q: Seq<int>,
    low: int,
    c: int,
)
    requires
        apart(paths, emitted),
        brood(paths, emitted, base, q, low),
        low <= c,
    ensures
        apart(paths.push(q.push(c)), emitted),
        brood(paths.push(q.push(c)), emitted, base, q, c + 1),
        brood(paths, emitted, base, q, c + 1),
{
    reveal(apart);
    reveal(brood);
    let r = q.push(c);
    let more = paths.push(r);
    assert(r.drop_last() =~= q);
    assert forall|x: Seq<int>| is_prefix(r, x) implies is_prefix(q, x) && x != q by {
        assert(x.take(q.len() as int) =~= x.take(r.len() as int).take(q.len() as int));
        assert(r.take(q.len() as int) =~= q);
    }
    assert forall|x: Seq<int>| is_prefix(x, r) implies is_prefix(x, q) || x == r by {
        if x.len() <= q.len() {
            assert(q.take(x.len() as int) =~= r.take(x.len() as int));
        } else {
            assert(r.take(x.len() as int) =~= r);
        }
    }
    assert forall|f: int, t: int| 0 <= f < more.len() && 0 <= t < emitted.len() implies !is_prefix(
        #[trigger] more[f],
        #[trigger] emitted[t],
    ) by {
        if f < paths.len() {
            assert(more[f] == paths[f]);
        }
    }
    assert forall|f: int, g: int|
        0 <= f < more.len() && 0 <= g < more.len() && f != g implies !is_prefix(
        #[trigger] more[f],
        #[trigger] more[g],
    ) by {
        if f < paths.len() && g < paths.len() {
            assert(more[f] == paths[f] && more[g] == paths[g]);
        } else if f < paths.len() {
            // an older path is no beginning of the new one
            assert(more[f] == paths[f]);
            if is_prefix(paths[f], r) {
                if f < base {
                    if paths[f] == r {
                        assert(is_prefix(q, paths[f])) by {
                            assert(r.take(q.len() as int) =~= q);
                        }
                    }
                } else {
                    assert(paths[f].len() == r.len());
                    assert(r.take(r.len() as int) =~= r);
                    assert(paths[f].last() == c);
                }
            }
        } else {
            // the new path is no beginning of an older one
            assert(more[g] == paths[g]);
            if is_prefix(r, paths[g]) {
                if g >= base {
                    assert(paths[g].take(r.len() as int) =~= paths[g]);
                    assert(paths[g].last() == c);
                }
            }
        }
    }
    assert forall|f: int| base <= f < more.len() implies (#[trigger] more[f]).len() == q.len() + 1
        && more[f].drop_last() == q && more[f].last() < c + 1 by {
        if f < paths.len() {
            assert(more[f] == paths[f]);
        }
    }
    assert forall|f: int| 0 <= f < base implies !is_prefix(#[trigger] more[f], q) && !is_prefix(
        q,
        more[f],
    ) by {
        assert(more[f] == paths[f]);
    }
}

/// Whether the walk keeps its order: the paths of `emitted` stand in the
/// order of the walk, all of them before the paths of `paths`, of which a
/// later one comes before an earlier one.
#[verifier::opaque]
spec fn ranked(paths: Seq<Seq<int>>, emitted: Seq<Seq<int>>) -> bool {
    &&& in_walk_order(emitted)
    &&& forall|f: int, t: int|
        0 <= f < paths.len() && 0 <= t < emitted.len() ==> walked_before(
            #[trigger] emitted[t],
            #[trigger] paths[f],
        )
    &&& forall|f: int, g: int|
        0 <= f < g < paths.len() ==> walked_before(#[trigger] paths[g], #[trigger] paths[f])
}

/// Whether the walk comes to the path `q` before the paths of `paths`
/// before position `base`, and after the paths of `emitted` other than
/// itself.
#[verifier::opaque]
spec fn kin(
    paths: Seq<Seq<int>>,
    emitted: Seq<Seq<int>>,
    base: int,
    q: Seq<int>,
) -> bool {
    &&& q.len() > 0
    &&& 0 <= base <= paths.len()
    &&& forall|f: int| 0 <= f < base ==> walked_before(q, #[trigger] paths[f])
    &&& forall|t: int|
        0 <= t < emitted.len() ==> #[trigger] emitted[t] == q || walked_before(emitted[t], q)
}

/// The place of a path with one more cell.
proof fn lemma_key_push(q: Seq<int>, c: int)
    requires
        q.len() > 0,
    ensures
        walk_key(q.push(c)) == walk_key(q).push(63 - c),
        differ_at(walk_key(q), walk_key(q.push(c)), q.len() as int),
        walked_before(q, q.push(c)),
{
    assert(walk_key(q.push(c)) =~= walk_key(q).push(63 - c));
    assert(walk_key(q).push(63 - c).take(q.len() as int) =~= walk_key(q));
    assert(walk_key(q).take(q.len() as int) =~= walk_key(q));
}

/// A path whose place begins the place of another begins the other.
proof fn lemma_key_prefix(a: Seq<int>, b: Seq<int>)
    requires
        a.len() <= b.len(),
        walk_key(b).take(a.len() as int) =~= walk_key(a),
    ensures
        is_prefix(a, b),
{
    assert forall|t: int| 0 <= t < a.len() implies b[t] == a[t] by {
        assert(walk_key(b).take(a.len() as int)[t] == walk_key(a)[t]);
        assert(walk_key(b)[t] == walk_key(a)[t]);
    }
    assert(b.take(a.len() as int) =~= a);
}

/// What comes after a path that does not begin it comes after the path
/// with one more cell.
proof fn lemma_key_child(q: Seq<int>, c: int, x: Seq<int>)
    requires
        q.len() > 0,
        walked_before(q, x),
        !is_prefix(q, x),
    ensures
        walked_before(q.push(c), x),
{
    let d = choose|d: int| #[trigger] differ_at(walk_key(q), walk_key(x), d);
    lemma_key_push(q, c);
    if d == q.len() {
        lemma_key_prefix(q, x);
    } else {
        let r = q.push(c);
        assert(walk_key(r).take(d) =~= walk_key(q).take(d));
        assert(differ_at(walk_key(r), walk_key(x), d));
    }
}

/// Nothing has been walked yet, and nothing found.
proof fn lemma_ranked_nothing()
    ensures
        ranked(Seq::empty(), Seq::empty()),
{
    reveal(ranked);
}

/// A first cell above the first cells of all the paths found so far.
proof fn lemma_ranked_seed(emitted: Seq<Seq<int>>, index: int)
    requires
        ranked(Seq::empty(), emitted),
        forall|t: int|
            0 <= t < emitted.len() ==> (#[trigger] emitted[t]).len() > 0 && emitted[t][0] < index,
    ensures
        ranked(seq![seq![index]], emitted),
{
    reveal(ranked);
    let paths = seq![seq![index]];
    assert forall|f: int, t: int|
        0 <= f < paths.len() && 0 <= t < emitted.len() implies walked_before(
        #[trigger] emitted[t],
        #[trigger] paths[f],
    ) by {
        assert(walk_key(emitted[t]).take(0) =~= walk_key(paths[f]).take(0));
        assert(differ_at(walk_key(emitted[t]), walk_key(paths[f]), 0));
    }
}

/// Taking the last path off the stack, whether or not it is found then.
proof fn lemma_ranked_pop(paths: Seq<Seq<int>>, emitted: Seq<Seq<int>>)
    requires
        ranked(paths, emitted),
        paths.len() > 0,
        paths.last().len() > 0,
    ensures
        ranked(paths.drop_last(), emitted),
        ranked(paths.drop_last(), emitted.push(paths.last())),
        kin(paths.drop_last(), emitted, paths.len() - 1, paths.last()),
        kin(paths.drop_last(), emitted.push(paths.last()), paths.len() - 1, paths.last()),
{
    reveal(ranked);
    reveal(kin);
    let q = paths.last();
    let rest = paths.drop_last();
    let more = emitted.push(q);
    assert(q == paths[paths.len() - 1]);
    assert forall|f: int| 0 <= f < rest.len() implies walked_before(q, #[trigger] rest[f]) by {
        assert(rest[f] == paths[f]);
    }
    assert forall|f: int, g: int| 0 <= f < g < rest.len() implies walked_before(
        #[trigger] rest[g],
        #[trigger] rest[f],
    ) by {
        assert(rest[f] == paths[f] && rest[g] == paths[g]);
    }
    assert forall|f: int, t: int|
        0 <= f < rest.len() && 0 <= t < more.len() implies walked_before(
        #[trigger] more[t],
        #[trigger] rest[f],
    ) by {
        assert(rest[f] == paths[f]);
        if t < emitted.len() {
            assert(more[t] == emitted[t]);
        }
    }
    assert forall|a: int, b: int| 0 <= a < b < more.len() implies walked_before(
        #[trigger] more[a],
        #[trigger] more[b],
    ) by {
        assert(more[a] == emitted[a]);
        if b < emitted.len() {
            assert(more[b] == emitted[b]);
        }
    }
    assert forall|t: int| 0 <= t < more.len() implies #[trigger] more[t] == q || walked_before(
        more[t],
        q,
    ) by {
        if t < emitted.len() {
            assert(more[t] == emitted[t]);
        }
    }
}

/// Putting on the stack the path `q` with one more cell, a cell above
/// those of the paths put there before.
proof fn lemma_ranked_child(
    paths: Seq<Seq<int>>,
    emitted: Seq<Seq<int>>,
    base: int,
    q: Seq<int>,
    low: int,
    c: int,
)
    requires
        ranked(paths, emitted),
        kin(paths, emitted, base, q),
        brood(paths, emitted, base, q, low),
        low <= c,
    ensures
        ranked(paths.push(q.push(c)), emitted),
        kin(paths.push(q.push(c)), emitted, base, q),
{
    reveal(ranked);
    reveal(kin);
    reveal(brood);
    let r = q.push(c);
    let more = paths.push(r);
    lemma_key_push(q, c);
    assert forall|f: int, t: int|
        0 <= f < more.len() && 0 <= t < emitted.len() implies walked_before(
        #[trigger] emitted[t],
        #[trigger] more[f],
    ) by {
        if f < paths.len() {
            assert(more[f] == paths[f]);
        } else if emitted[t] != q {
            lemma_lex_transitive(walk_key(emitted[t]), walk_key(q), walk_key(r));
        }
    }
    assert forall|f: int, g: int| 0 <= f < g < more.len() implies walked_before(
        #[trigger] more[g],
        #[trigger] more[f],
    ) by {
        assert(more[f] == paths[f]);
        if g < paths.len() {
            assert(more[g] == paths[g]);
        } else if f < base {
            lemma_key_child(q, c, paths[f]);
        } else {
            let sibling = paths[f];
            assert(sibling =~= q.push(sibling.last()));
            lemma_key_push(q, sibling.last());
            assert(walk_key(r).take(q.len() as int) =~= walk_key(q));
            assert(walk_key(sibling).take(q.len() as int) =~= walk_key(q));
            assert(differ_at(walk_key(r), walk_key(sibling), q.len() as int));
        }
    }
    assert forall|f: int| 0 <= f < base implies walked_before(q, #[trigger] more[f]) by {
        assert(more[f] == paths[f]);
    }
}

/// Finds every word of the dictionary that lies on free cells of the board
/// and whose length `winning_lengths` admits, and appends what it records
/// of each to `word_stack`: one entry for every path that spells such a
/// word. The result is the new length of `word_stack`.
pub fn find_words(
    grid: &Grid,
    dict: &[Node],
    word_stack: &mut Vec<(u64, usize)>,
    winning_lengths: [bool; 13],
    frames: &mut Vec<Frame>,
) -> (end: usize)
    requires
        grid.wf(),
        trie_wf(dict@),
    ensures
        end == final(word_stack).len(),
        old(word_stack).len() <= end,
        final(word_stack)@.take(old(word_stack).len() as int) == old(word_stack)@,
        final(frames).len() == 0,
        exists|emitted: Seq<Seq<int>>|
            lists_exactly(
                grid.layout(),
                dict@,
                grid.remaining,
                winning_lengths@,
                final(word_stack)@,
                old(word_stack).len() as int,
                emitted,
            ),
        forall|t: int|
            old(word_stack).len() <= t < end ==> is_candidate(
                grid.layout(),
                dict@,
                grid.remaining,
                winning_lengths@,
                #[trigger] final(word_stack)[t],
            ),
        forall|p: Seq<int>| #[trigger]
            is_hit(grid.layout(), dict@, grid.remaining, winning_lengths@, p) ==> is_listed(
                grid.layout(),
                dict@,
                final(word_stack)@,
                old(word_stack).len() as int,
                p,
            ),
{
    let ghost start = word_stack.len() as int;
    let ghost lay = grid.layout();
    let ghost rem = grid.remaining;
    let ghost lengths = winning_lengths@;
    let ghost total = dict.len() as nat;
    frames.clear();
    let mut pending: u64 = grid.remaining;
    let ghost mut paths: Seq<Seq<int>> = Seq::empty();
    let ghost mut emitted: Seq<Seq<int>> = Seq::empty();
    proof {
        lemma_subset(grid.remaining, grid.occupied());
        lemma_apart_nothing();
        lemma_ranked_nothing();
        assert forall|p: Seq<int>| #[trigger] is_hit(lay, dict@, rem, lengths, p) implies has_bit(
            pending,
            p[0],
        ) by {
            lemma_path_cells(lay, rem, p);
        }
    }
    while pending != 0
        invariant
            grid.wf(),
            trie_wf(dict@),
            lay == grid.layout(),
            rem == grid.remaining,
            lengths == winning_lengths@,
            total == dict.len(),
            0 <= start <= word_stack.len(),
            word_stack@.take(start) == old(word_stack)@,
            frames.len() == 0,
            paths.len() == 0,
            forall|j: int| has_bit(pending, j) ==> has_bit(rem, j),
            lists(lay, dict@, rem, lengths, word_stack@, start, emitted),
            apart(paths, emitted),
            ranked(paths, emitted),
            forall|t: int, j: int|
                0 <= t < emitted.len() && #[trigger] has_bit(pending, j) ==> (
                #[trigger] emitted[t])[0] < j,
            forall|t: int| 0 <= t < emitted.len() ==> (#[trigger] emitted[t]).len() > 0,
            forall|p: Seq<int>| #[trigger]
                is_hit(lay, dict@, rem, lengths, p) ==> has_bit(pending, p[0]) || emitted.contains(
                    p,
                ),
        decreases pending,
    {
        proof {
            lemma_lowest(pending);
        }
        let index: usize = pending.trailing_zeros() as usize;
        let bit: u64 = cell_bit(index);
        proof {
            lemma_remove_bit(pending, index as int);
            lemma_mask_ops(pending, bit);
            assert(grid.letters_ok());
            assert(grid.letters[index as int] <= 29);
            assert(node_wf(dict@, 0));
            assert(paths =~= Seq::<Seq<int>>::empty());
        }
        pending = pending ^ bit;
        let seed: usize = dict[0].children[grid.letters[index]];
        if seed != 0 {
            frames.push(Frame { cell: index, mask: bit, node: seed });
            proof {
                let q = seq![index as int];
                lemma_apart_seed(emitted, index as int);
                lemma_ranked_seed(emitted, index as int);
                paths = seq![q];
                assert(q.drop_last() =~= Seq::<int>::empty());
                assert(path_mask(q.drop_last()) == 0);
                assert(walk(dict@, Seq::<int>::empty()) == 0);
                lemma_mask_ops(0, bit);
                lemma_mask_zero(0);
                lemma_masks_equal(path_mask(q), bit);
                lemma_path_word_step(lay, q);
                assert(path_word(lay, q).drop_last() =~= Seq::<int>::empty());
                assert(walk(dict@, path_word(lay, q)) == seed);
                assert(frame_ok(lay, rem, dict@, frames[0], paths[0]));
            }
        }
        proof {
            assert forall|p: Seq<int>| #[trigger]
                is_hit(lay, dict@, rem, lengths, p) implies has_bit(pending, p[0])
                || emitted.contains(p) || is_covered(paths, p) by {
                lemma_path_cells(lay, rem, p);
                if p[0] == index && !emitted.contains(p) {
                    lemma_walk_prefix(lay, dict@, p, 1);
                    let q = p.take(1);
                    lemma_path_word_step(lay, q);
                    assert(path_word(lay, q).drop_last() =~= Seq::<int>::empty());
                    assert(walk(dict@, Seq::<int>::empty()) == 0);
                    assert(q.last() == index);
                    assert(seed != 0);
                    assert(q =~= seq![index as int]);
                    assert(is_prefix(paths[0], p));
                }
            }
        }
        while frames.len() > 0
            invariant
                grid.wf(),
                trie_wf(dict@),
                lay == grid.layout(),
                rem == grid.remaining,
                lengths == winning_lengths@,
                total == dict.len(),
                0 <= start <= word_stack.len(),
                word_stack@.take(start) == old(word_stack)@,
                paths.len() == frames.len(),
                !has_bit(pending, index as int),
                forall|j: int| has_bit(pending, j) ==> has_bit(rem, j),
                forall|f: int|
                    0 <= f < frames.len() ==> frame_ok(
                        lay,
                        rem,
                        dict@,
                        #[trigger] frames[f],
                        paths[f],
                    ),
                forall|f: int|
                    0 <= f < paths.len() ==> (#[trigger] paths[f]).len() > 0 && paths[f][0]
                        == index,
                lists(lay, dict@, rem, lengths, word_stack@, start, emitted),
                apart(paths, emitted),
                ranked(paths, emitted),
                forall|j: int| has_bit(pending, j) ==> index < j,
                forall|t: int|
                    0 <= t < emitted.len() ==> (#[trigger] emitted[t]).len() > 0 && emitted[t][0]
                        <= index,
                forall|p: Seq<int>| #[trigger]
                    is_hit(lay, dict@, rem, lengths, p) ==> has_bit(pending, p[0])
                        || emitted.contains(p) || is_covered(paths, p),
            decreases stack_weight(frames@, total),
        {
            let ghost before = frames@;
            let ghost paths_before = paths;
            let ghost found_before = word_stack@;
            let ghost emitted_before = emitted;
            let frame = frames.pop().unwrap();
            let ghost q = paths.last();
            proof {
                lemma_apart_pop(paths, emitted);
                lemma_ranked_pop(paths, emitted);
                paths = paths.drop_last();
                assert(frame == before[before.len() - 1]);
                assert(frame_ok(lay, rem, dict@, frame, q));
                assert(frames@ =~= before.drop_last());
                lemma_walk_in_range(dict@, path_word(lay, q));
                assert(node_wf(dict@, frame.node as int));
                lemma_path_cells(lay, rem, q);
                lemma_subset(grid.remaining, grid.occupied());
                lemma_pow65_monotonic(0, (total - frame.node - 1) as nat);
            }
            let node = &dict[frame.node];
            if node.is_terminal() && winning_lengths[node.len] {
                word_stack.push((frame.mask, frame.node));
                proof {
                    emitted = emitted.push(q);
                    assert(is_hit(lay, dict@, rem, lengths, q));
                    assert(records(lay, dict@, word_stack[word_stack.len() - 1], q));
                    assert(word_stack@.take(start) =~= found_before.take(start));
                    assert forall|t: int| 0 <= t < emitted.len() implies is_hit(
                        lay,
                        dict@,
                        rem,
                        lengths,
                        #[trigger] emitted[t],
                    ) && records(lay, dict@, word_stack@[start + t], emitted[t]) by {
                        if t < emitted_before.len() {
                            assert(emitted[t] == emitted_before[t]);
                            assert(word_stack@[start + t] == found_before[start + t]);
                        }
                    }
                    assert forall|t: int| 0 <= t < emitted.len() implies (
                    #[trigger] emitted[t]).len() > 0 && emitted[t][0] <= index by {
                        if t < emitted_before.len() {
                            assert(emitted[t] == emitted_before[t]);
                        } else {
                            assert(paths_before[paths_before.len() - 1] == q);
                        }
                    }
                    assert(emitted.contains(q)) by {
                        assert(emitted[emitted.len() - 1] == q);
                    }
                }
            }
            proof {
                assert forall|p: Seq<int>| emitted_before.contains(p) implies emitted.contains(
                    p,
                ) by {
                    let t = choose|t: int| 0 <= t < emitted_before.len() && emitted_before[t] == p;
                    assert(emitted[t] == p);
                }
            }
            let no_way: bool = (node.connections as u64) & (grid.adjacency_ords[frame.cell] as u64)
                == 0;
            let mut adjacency: u64 = if no_way {
                0
            } else {
                grid.adjacency[frame.cell] & grid.remaining & !frame.mask
            };
            let ghost reach = grid.adjacency[frame.cell as int] & grid.remaining & !frame.mask;
            let ghost step = pow65((total - frame.node - 1) as nat);
            let ghost mut low: int = 0;
            proof {
                lemma_mask_ops(grid.adjacency[frame.cell as int], grid.remaining);
                lemma_mask_ops(grid.adjacency[frame.cell as int] & grid.remaining, !frame.mask);
                lemma_mask_ops(frame.mask, frame.mask);
                lemma_mask_zero(0);
                if no_way {
                    let a = node.connections as u64;
                    let b = grid.adjacency_ords[frame.cell as int] as u64;
                    lemma_mask_ops(a, b);
                    lemma_mask_zero(a & b);
                    assert forall|c: int| has_bit(reach, c) implies child(
                        dict@,
                        frame.node as int,
                        grid.letters[c] as int,
                    ) < 0 by {
                        let k = grid.letters[c] as int;
                        if child(dict@, frame.node as int, k) >= 0 {
                            assert(has_bit(a, k));
                            assert(grid.ordinals_ok());
                            assert(has_bit(grid.adjacency[frame.cell as int], c)
                                && grid.letters[c] == k);
                            assert(has_bit(b, k));
                            assert(has_bit(a & b, k));
                        }
                    }
                }
                assert(stack_weight(frames@, total) + 65 * step == stack_weight(before, total));
                assert(0 * step == 0) by (nonlinear_arith);
            }
            while adjacency != 0
                invariant
                    grid.wf(),
                    trie_wf(dict@),
                    lay == grid.layout(),
                    rem == grid.remaining,
                    total == dict.len(),
                    0 <= low <= 64,
                    frame_ok(lay, rem, dict@, frame, q),
                    node_wf(dict@, frame.node as int),
                    *node == dict[frame.node as int],
                    reach == grid.adjacency[frame.cell as int] & grid.remaining & !frame.mask,
                    step == pow65((total - frame.node - 1) as nat),
                    q.len() > 0,
                    q[0] == index,
                    forall|c: int| has_bit(adjacency, c) ==> has_bit(reach, c) && c >= low,
                    forall|c: int|
                        has_bit(reach, c) && !has_bit(adjacency, c) && child(
                            dict@,
                            frame.node as int,
                            grid.letters[c] as int,
                        ) >= 0 ==> exists|f: int|
                            before.len() - 1 <= f < paths.len() && #[trigger] paths[f] == q.push(c),
                    forall|c: int|
                        has_bit(reach, c) <==> has_bit(grid.adjacency[frame.cell as int], c)
                            && has_bit(rem, c) && !has_bit(frame.mask, c),
                    paths.len() == frames.len(),
                    before.len() >= 1,
                    paths_before.len() == before.len(),
                    before.len() - 1 <= frames.len(),
                    frames@.take(before.len() - 1) == before.drop_last(),
                    paths.take(before.len() - 1) == paths_before.drop_last(),
                    forall|f: int|
                        0 <= f < frames.len() ==> frame_ok(
                            lay,
                            rem,
                            dict@,
                            #[trigger] frames[f],
                            paths[f],
                        ),
                    forall|f: int|
                        0 <= f < paths.len() ==> (#[trigger] paths[f]).len() > 0 && paths[f][0]
                            == index,
                    apart(paths, emitted),
                    brood(paths, emitted, before.len() - 1, q, low),
                    ranked(paths, emitted),
                    kin(paths, emitted, before.len() - 1, q),
                    stack_weight(frames@, total) + 65 * step <= stack_weight(before, total) + low
                        * step,
                decreases adjacency,
            {
                proof {
                    lemma_lowest(adjacency);
                }
                let adj_idx: usize = adjacency.trailing_zeros() as usize;
                let adj_bit: u64 = cell_bit(adj_idx);
                proof {
                    assert(grid.letters_ok());
                    assert(grid.letters[adj_idx as int] <= 29);
                    lemma_remove_bit(adjacency, adj_idx as int);
                    lemma_mask_ops(adjacency, adj_bit);
                    lemma_apart_child(paths, emitted, before.len() - 1, q, low, adj_idx as int);
                    lemma_ranked_child(paths, emitted, before.len() - 1, q, low, adj_idx as int);
                }
                let ord: usize = grid.letters[adj_idx];
                let next: usize = node.children[ord];
                let ghost frames_mid = frames@;
                let ghost paths_mid = paths;
                if next != 0 {
                    frames.push(Frame { cell: adj_idx, mask: frame.mask | adj_bit, node: next });
                    proof {
                        let r = q.push(adj_idx as int);
                        paths = paths.push(r);
                        assert(r.drop_last() =~= q);
                        lemma_path_word_step(lay, r);
                        assert(child(dict@, frame.node as int, ord as int) == next);
                        assert(frame_ok(lay, rem, dict@, frames[frames.len() - 1], r));
                        assert(frames@.drop_last() =~= frames_mid);
                        lemma_pow65_monotonic(
                            (total - next) as nat,
                            (total - frame.node - 1) as nat,
                        );
                        assert(frames@.take(before.len() - 1) =~= frames_mid.take(
                            before.len() - 1,
                        ));
                        assert(paths.take(before.len() - 1) =~= paths_mid.take(before.len() - 1));
                    }
                }
                proof {
                    let new_low = adj_idx as int + 1;
                    assert(low * step + step <= new_low * step) by (nonlinear_arith)
                        requires
                            low + 1 <= new_low,
                            step >= 0,
                    ;
                    assert forall|c: int|
                        has_bit(reach, c) && !has_bit(adjacency ^ adj_bit, c) && child(
                            dict@,
                            frame.node as int,
                            grid.letters[c] as int,
                        ) >= 0 implies exists|f: int|
                        before.len() - 1 <= f < paths.len() && #[trigger] paths[f] == q.push(
                            c,
                        ) by {
                        if c == adj_idx {
                            assert(paths[paths.len() - 1] == q.push(c));
                        } else {
                            let f = choose|f: int|
                                before.len() - 1 <= f < paths_mid.len() && #[trigger] paths_mid[f]
                                    == q.push(c);
                            assert(paths[f] == q.push(c));
                        }
                    }
                    assert forall|f: int| 0 <= f < frames.len() implies frame_ok(
                        lay,
                        rem,
                        dict@,
                        #[trigger] frames[f],
                        paths[f],
                    ) by {
                        if f < frames_mid.len() {
                            assert(frames[f] == frames_mid[f]);
                            assert(paths[f] == paths_mid[f]);
                        }
                    }
                    assert forall|f: int| 0 <= f < paths.len() implies (#[trigger] paths[f]).len()
                        > 0 && paths[f][0] == index by {
                        if f < paths_mid.len() {
                            assert(paths[f] == paths_mid[f]);
                        }
                    }
                    low = new_low;
                }
                adjacency = adjacency ^ adj_bit;
            }
            proof {
                lemma_mask_zero(adjacency);
                assert(low * step <= 64 * step) by (nonlinear_arith)
                    requires
                        low <= 64,
                        step >= 0,
                ;
                assert forall|p: Seq<int>| #[trigger]
                    is_hit(lay, dict@, rem, lengths, p) implies has_bit(pending, p[0])
                    || emitted.contains(p) || is_covered(paths, p) by {
                    if !has_bit(pending, p[0]) && !emitted_before.contains(p) {
                        assert(is_covered(paths_before, p));
                        let f = choose|f: int|
                            0 <= f < paths_before.len() && is_prefix(#[trigger] paths_before[f], p);
                        if f < paths_before.len() - 1 {
                            assert(paths[f] == paths.take(before.len() - 1)[f]);
                            assert(paths[f] == paths_before[f]);
                        } else {
                            assert(paths_before[f] == q);
                            if p.len() == q.len() {
                                assert(p.take(q.len() as int) =~= p);
                                assert(p == q);
                            } else {
                                let n = q.len() as int;
                                let c = p[n];
                                let r = p.take(n + 1);
                                assert(r.drop_last() =~= p.take(n));
                                assert(r.drop_last() == q);
                                assert(r =~= q.push(c));
                                lemma_path_prefix(lay, rem, p, n + 1);
                                lemma_walk_prefix(lay, dict@, p, n + 1);
                                lemma_path_word_step(lay, r);
                                assert(child(dict@, frame.node as int, grid.letters[c] as int)
                                    >= 0);
                                assert(has_bit(reach, c));
                                let g = choose|g: int|
                                    before.len() - 1 <= g < paths.len() && #[trigger] paths[g]
                                        == q.push(c);
                                assert(is_prefix(paths[g], p));
                            }
                        }
                    }
                }
            }
        }
    }
    proof {
        lemma_mask_zero(pending);
        reveal(apart);
        reveal(ranked);
        assert(lists_exactly(lay, dict@, rem, lengths, word_stack@, start, emitted));
        assert forall|t: int| start <= t < word_stack.len() implies is_candidate(
            lay,
            dict@,
            rem,
            lengths,
            #[trigger] word_stack[t],
        ) by {
            assert(is_hit(lay, dict@, rem, lengths, emitted[t - start]));
            assert(records(lay, dict@, word_stack@[start + (t - start)], emitted[t - start]));
        }
        assert forall|p: Seq<int>| #[trigger] is_hit(lay, dict@, rem, lengths, p) implies is_listed(
            lay,
            dict@,
            word_stack@,
            start,
            p,
        ) by {
            let t = choose|t: int| 0 <= t < emitted.len() && emitted[t] == p;
            assert(records(lay, dict@, word_stack@[start + t], emitted[t]));
        }
    }
    word_stack.len()
}

/// What is found lies on free cells and spells a word of the
/// dictionary: its cells are among the free cells, and its node is one
/// where a word ends, of as many letters as there are cells.
pub proof fn lemma_candidate_sound(
    lay: Layout,
    dict: Seq<Node>,
    rem: u64,
    lengths: Seq<bool>,
    entry: (u64, usize),
)
    requires
        trie_wf(dict),
        is_candidate(lay, dict, rem, lengths, entry),
    ensures
        subset(entry.0, rem),
        0 < entry.1 < dict.len(),
        dict[entry.1 as int].terminal(),
        dict[entry.1 as int].len == popcount(entry.0),
        lengths[dict[entry.1 as int].len as int],
{
    let p = choose|p: Seq<int>| #[trigger]
        is_hit(lay, dict, rem, lengths, p) && records(lay, dict, entry, p);
    lemma_path_cells(lay, rem, p);
    lemma_path_count(lay, rem, p);
    lemma_walk_in_range(dict, path_word(lay, p));
}

} // verus!
