//! Building the dictionary of a board: of a list of words those are kept
//! that can be laid with the letters of the board.

use crate::bits::lemma_mask_zero;
use crate::builder::{insert_word, inserted, is_word, ordinals_of};
use crate::dict::{
    accepts, child, lemma_reachable, lemma_walk_in_range, lemma_walk_root_only, lemma_walk_take,
    node_wf, trie_shape, trie_wf, walk, Node, MAX_WORD_LEN,
};
use crate::paths::is_prefix;
use crate::letters::{is_letter, ordinal, to_bits, MAX_ORDINAL};
use crate::lex::{
    differ_at, lemma_lex_asymmetric, lemma_lex_le_transitive, lemma_lex_total, lemma_lex_transitive,
    lex_lt,
};
use crate::spell::{dominated, lemma_insert_ordered, lemma_ordered_traceable, ordered, traceable};
use crate::text::chars_of;
use vstd::prelude::*;

verus! {

/// How often the letter with ordinal `k` stands in a text.
pub open spec fn count_ord(s: Seq<char>, k: int) -> nat
    decreases s.len(),
{
    if s.len() == 0 {
        0
    } else {
        count_ord(s.drop_last(), k) + if ordinal(s.last()) == k {
            1nat
        } else {
            0nat
        }
    }
}

/// Whether a text is a word that can be laid with the letters of `pool`,
/// each letter of `pool` used at most once.
pub open spec fn spellable(word: Seq<char>, pool: Seq<char>) -> bool {
    is_word(word) && forall|k: int|
        1 <= k <= MAX_ORDINAL ==> #[trigger] count_ord(word, k) <= count_ord(pool, k)
}

/// Whether those of `lines` that can be laid with the letters of `pool`
/// stand in dictionary order.
pub open spec fn kept_in_order(lines: Seq<String>, pool: Seq<char>, n: int) -> bool {
    forall|i: int, j: int|
        0 <= i < j < n && spellable(lines[i]@, pool) && spellable(lines[j]@, pool) ==> !lex_lt(
            #[trigger] ordinals_of(lines[j]@),
            #[trigger] ordinals_of(lines[i]@),
        )
}

/// Whether line `i` of `lines` can be laid with the letters of `pool` and
/// is the word `q`.
pub open spec fn kept_line(lines: Seq<String>, pool: Seq<char>, i: int, q: Seq<int>) -> bool {
    0 <= i < lines.len() && spellable(lines[i]@, pool) && q == ordinals_of(lines[i]@)
}

/// Whether line `i` of `lines` can be laid with the letters of `pool` and
/// begins with `q`.
pub open spec fn begins_line(lines: Seq<String>, pool: Seq<char>, i: int, q: Seq<int>) -> bool {
    0 <= i < lines.len() && spellable(lines[i]@, pool) && is_prefix(q, ordinals_of(lines[i]@))
}

/// Whether `q` is one of the first `n` of `lines`, and can be laid with
/// the letters of `pool`.
pub open spec fn is_kept(lines: Seq<String>, pool: Seq<char>, n: int, q: Seq<int>) -> bool {
    exists|i: int| 0 <= i < n && #[trigger] kept_line(lines, pool, i, q)
}

/// Whether `q` is the beginning of one of the first `n` of `lines` that
/// can be laid with the letters of `pool`.
pub open spec fn begins_kept(lines: Seq<String>, pool: Seq<char>, n: int, q: Seq<int>) -> bool {
    exists|i: int| 0 <= i < n && #[trigger] begins_line(lines, pool, i, q)
}

/// Whether, going through the first `n` of `lines`, one meets `a` before
/// `b`: in an earlier line, or in the same line as a shorter beginning.
pub open spec fn met_before(
    lines: Seq<String>,
    pool: Seq<char>,
    n: int,
    a: Seq<int>,
    b: Seq<int>,
) -> bool {
    exists|i: int|
        0 <= i < n && #[trigger] begins_line(lines, pool, i, a) && !begins_kept(lines, pool, i, b)
            && (!begins_line(lines, pool, i, b) || a.len() < b.len())
}

/// Whether the nodes of the tree are numbered in the order in which the
/// first `n` of `lines` come to them.
pub open spec fn numbered(tree: Seq<Node>, lines: Seq<String>, pool: Seq<char>, n: int) -> bool {
    forall|a: Seq<int>, b: Seq<int>|
        a.len() > 0 && b.len() > 0 && (#[trigger] walk(tree, a)) >= 0 && (#[trigger] walk(tree, b))
            >= 0 ==> (walk(tree, a) < walk(tree, b) <==> met_before(lines, pool, n, a, b))
}

/// Whether the words of the tree are those of the first `n` of `lines`
/// that can be laid with the letters of `pool`.
pub open spec fn holds_kept(tree: Seq<Node>, lines: Seq<String>, pool: Seq<char>, n: int) -> bool {
    forall|q: Seq<int>| #[trigger] accepts(tree, q) <==> is_kept(lines, pool, n, q)
}

/// Whether the paths of the tree are the beginnings of those of the first
/// `n` of `lines` that can be laid with the letters of `pool`.
pub open spec fn runs_kept(tree: Seq<Node>, lines: Seq<String>, pool: Seq<char>, n: int) -> bool {
    forall|q: Seq<int>|
        (#[trigger] walk(tree, q)) >= 0 <==> q.len() == 0 || begins_kept(lines, pool, n, q)
}

/// Whether every node where no word ends records the length 0.
pub open spec fn lengths_clean(tree: Seq<Node>) -> bool {
    forall|n: int| 0 <= n < tree.len() && !(#[trigger] tree[n]).terminal() ==> tree[n].len == 0
}

/// Whether `tree` is the dictionary made of the first `n` of `lines` for
/// a board with the letters of `pool`: a prefix tree that holds those of
/// the lines that can be laid with the letters, whose nodes are numbered as
/// the lines come to them. If the lines that are kept stand in dictionary
/// order, so do the nodes.
pub open spec fn built(tree: Seq<Node>, lines: Seq<String>, pool: Seq<char>, n: int) -> bool {
    &&& trie_wf(tree)
    &&& holds_kept(tree, lines, pool, n)
    &&& runs_kept(tree, lines, pool, n)
    &&& lengths_clean(tree)
    &&& numbered(tree, lines, pool, n)
    &&& kept_in_order(lines, pool, n) ==> ordered(tree)
}

/// What the building keeps besides `built`: if the lines that are kept
/// stand in dictionary order, `top` is the last of them, or empty where
/// none was kept, and no path of the tree comes after it.
spec fn topped(
    tree: Seq<Node>,
    lines: Seq<String>,
    pool: Seq<char>,
    n: int,
    top: Seq<int>,
) -> bool {
    &&& kept_in_order(lines, pool, n) ==> dominated(tree, top)
    &&& top.len() == 0 || is_kept(lines, pool, n, top)
}

/// A line that is not kept changes nothing in the order.
proof fn lemma_numbered_skip(tree: Seq<Node>, lines: Seq<String>, pool: Seq<char>, i: int)
    requires
        0 <= i < lines.len(),
        !spellable(lines[i]@, pool),
        numbered(tree, lines, pool, i),
    ensures
        numbered(tree, lines, pool, i + 1),
{
    assert forall|a: Seq<int>, b: Seq<int>| met_before(lines, pool, i + 1, a, b) == met_before(
        lines,
        pool,
        i,
        a,
        b,
    ) by {
        if met_before(lines, pool, i + 1, a, b) {
            let j = choose|j: int|
                0 <= j < i + 1 && #[trigger] begins_line(lines, pool, j, a) && !begins_kept(
                    lines,
                    pool,
                    j,
                    b,
                ) && (!begins_line(lines, pool, j, b) || a.len() < b.len());
            assert(j < i);
        }
        if met_before(lines, pool, i, a, b) {
            let j = choose|j: int|
                0 <= j < i && #[trigger] begins_line(lines, pool, j, a) && !begins_kept(
                    lines,
                    pool,
                    j,
                    b,
                ) && (!begins_line(lines, pool, j, b) || a.len() < b.len());
            assert(0 <= j < i + 1 && begins_line(lines, pool, j, a));
        }
    }
}

/// A line that is kept gives its new beginnings the next numbers, the
/// shorter before the longer.
proof fn lemma_numbered_step(
    before: Seq<Node>,
    after: Seq<Node>,
    lines: Seq<String>,
    pool: Seq<char>,
    i: int,
)
    requires
        0 <= i < lines.len(),
        spellable(lines[i]@, pool),
        trie_shape(before),
        runs_kept(before, lines, pool, i),
        inserted(before, after, lines[i]@),
        numbered(before, lines, pool, i),
    ensures
        numbered(after, lines, pool, i + 1),
{
    let w = ordinals_of(lines[i]@);
    assert forall|a: Seq<int>, b: Seq<int>|
        a.len() > 0 && b.len() > 0 && (#[trigger] walk(after, a)) >= 0 && (#[trigger] walk(
            after,
            b,
        )) >= 0 implies (walk(after, a) < walk(after, b) <==> met_before(
        lines,
        pool,
        i + 1,
        a,
        b,
    )) by {
        lemma_walk_in_range(before, a);
        lemma_walk_in_range(before, b);
        let old_a = walk(before, a) >= 0;
        let old_b = walk(before, b) >= 0;
        if !old_a {
            assert(is_prefix(a, w));
            assert(begins_line(lines, pool, i, a));
        }
        if !old_b {
            assert(is_prefix(b, w));
            assert(begins_line(lines, pool, i, b));
        }
        if met_before(lines, pool, i + 1, a, b) {
            let j = choose|j: int|
                0 <= j < i + 1 && #[trigger] begins_line(lines, pool, j, a) && !begins_kept(
                    lines,
                    pool,
                    j,
                    b,
                ) && (!begins_line(lines, pool, j, b) || a.len() < b.len());
            if j < i {
                assert(begins_kept(lines, pool, i, a));
                if old_b {
                    assert(met_before(lines, pool, i, a, b));
                }
            } else {
                assert(!old_b);
                if old_a {
                } else {
                    assert(b.take(a.len() as int) =~= a);
                    lemma_walk_take(after, b, a.len() as int);
                }
            }
        }
        if walk(after, a) < walk(after, b) {
            if old_a && old_b {
                assert(met_before(lines, pool, i, a, b));
                let j = choose|j: int|
                    0 <= j < i && #[trigger] begins_line(lines, pool, j, a) && !begins_kept(
                        lines,
                        pool,
                        j,
                        b,
                    ) && (!begins_line(lines, pool, j, b) || a.len() < b.len());
                assert(0 <= j < i + 1 && begins_line(lines, pool, j, a));
            } else if old_a {
                let j = choose|j: int| 0 <= j < i && #[trigger] begins_line(lines, pool, j, a);
                if begins_kept(lines, pool, j, b) {
                    let k = choose|k: int| 0 <= k < j && #[trigger] begins_line(lines, pool, k, b);
                    assert(begins_kept(lines, pool, i, b));
                }
                if begins_line(lines, pool, j, b) {
                    assert(begins_kept(lines, pool, i, b));
                }
                assert(0 <= j < i + 1 && begins_line(lines, pool, j, a));
            } else if old_b {
            } else {
                if b.len() <= a.len() {
                    assert(a.take(b.len() as int) =~= b);
                    lemma_walk_take(after, a, b.len() as int);
                }
                assert(0 <= i < i + 1 && begins_line(lines, pool, i, a));
            }
        }
    }
}

/// The words of the tree after a line was kept.
proof fn lemma_holds_step(
    before: Seq<Node>,
    after: Seq<Node>,
    lines: Seq<String>,
    pool: Seq<char>,
    i: int,
)
    requires
        0 <= i < lines.len(),
        spellable(lines[i]@, pool),
        holds_kept(before, lines, pool, i),
        inserted(before, after, lines[i]@),
    ensures
        holds_kept(after, lines, pool, i + 1),
{
    let w = ordinals_of(lines[i]@);
    assert forall|q: Seq<int>| #[trigger] accepts(after, q) <==> is_kept(lines, pool, i + 1, q) by {
        if accepts(before, q) {
            let j = choose|j: int| 0 <= j < i && #[trigger] kept_line(lines, pool, j, q);
            assert(0 <= j < i + 1 && kept_line(lines, pool, j, q));
        }
        if q == w {
            assert(kept_line(lines, pool, i, q));
        }
        if is_kept(lines, pool, i + 1, q) {
            let j = choose|j: int| 0 <= j < i + 1 && #[trigger] kept_line(lines, pool, j, q);
            if j < i {
                assert(is_kept(lines, pool, i, q));
            }
        }
    }
}

/// The paths of the tree after a line was kept.
proof fn lemma_runs_step(
    before: Seq<Node>,
    after: Seq<Node>,
    lines: Seq<String>,
    pool: Seq<char>,
    i: int,
)
    requires
        0 <= i < lines.len(),
        spellable(lines[i]@, pool),
        trie_shape(before),
        runs_kept(before, lines, pool, i),
        inserted(before, after, lines[i]@),
    ensures
        runs_kept(after, lines, pool, i + 1),
{
    let w = ordinals_of(lines[i]@);
    assert forall|q: Seq<int>|
        (#[trigger] walk(after, q)) >= 0 <==> q.len() == 0 || begins_kept(
            lines,
            pool,
            i + 1,
            q,
        ) by {
        if walk(after, q) >= 0 && q.len() > 0 {
            if walk(before, q) == walk(after, q) {
                assert(begins_kept(lines, pool, i, q));
                let j = choose|j: int| 0 <= j < i && #[trigger] begins_line(lines, pool, j, q);
                assert(0 <= j < i + 1 && begins_line(lines, pool, j, q));
            } else {
                assert(is_prefix(q, w));
                assert(begins_line(lines, pool, i, q));
            }
        }
        if q.len() > 0 && begins_kept(lines, pool, i + 1, q) {
            let j = choose|j: int| 0 <= j < i + 1 && #[trigger] begins_line(lines, pool, j, q);
            if j < i {
                assert(begins_kept(lines, pool, i, q));
                assert(walk(before, q) >= 0);
            } else {
                lemma_walk_take(after, w, q.len() as int);
            }
        }
        if q.len() == 0 {
            assert(walk(after, q) == 0);
        }
    }
}

/// The lengths that the nodes record after a line was kept.
proof fn lemma_lengths_step(before: Seq<Node>, after: Seq<Node>, word: Seq<char>)
    requires
        trie_shape(before),
        lengths_clean(before),
        inserted(before, after, word),
    ensures
        lengths_clean(after),
{
    let w = ordinals_of(word);
    assert forall|n: int|
        0 <= n < after.len() && !(#[trigger] after[n]).terminal() implies after[n].len == 0 by {
        assert(accepts(after, w));
        if n == walk(after, w) {
        } else if n < before.len() {
            assert(before[n].len == after[n].len);
            lemma_reachable(before, n);
            let path = choose|path: Seq<int>| walk(before, path) == n;
            assert(walk(after, path) == n);
            if before[n].terminal() {
                assert(accepts(before, path));
                assert(accepts(after, path));
            }
        }
    }
}

/// The tree of the root alone is the dictionary of no lines.
proof fn lemma_built_start(tree: Seq<Node>, lines: Seq<String>, pool: Seq<char>)
    requires
        tree.len() == 1,
        tree[0].connections == 0,
        tree[0].len == 0,
        forall|k: int| 0 <= k < 31 ==> tree[0].children[k] == 0,
    ensures
        built(tree, lines, pool, 0),
        topped(tree, lines, pool, 0, Seq::empty()),
{
    let top = Seq::<int>::empty();
    lemma_mask_zero(0);
    assert(node_wf(tree, 0));
    assert forall|n1: int, k1: int, n2: int, k2: int|
        #[trigger] child(tree, n1, k1) >= 0 && child(tree, n1, k1) == #[trigger] child(
            tree,
            n2,
            k2,
        ) implies n1 == n2 && k1 == k2 by {}
    assert(trie_shape(tree));
    assert forall|q: Seq<int>| (#[trigger] walk(tree, q)) >= 0 implies q.len() == 0 by {
        lemma_walk_root_only(tree, q);
    }
    assert forall|q: Seq<int>|
        (#[trigger] walk(tree, q)) >= 0 <==> q.len() == 0 || begins_kept(lines, pool, 0, q) by {
        if q.len() == 0 {
            assert(walk(tree, q) == 0);
        }
    }
    assert forall|q: Seq<int>| (#[trigger] walk(tree, q)) >= 0 implies !lex_lt(top, q) by {
        if lex_lt(top, q) {
            let d = choose|d: int| #[trigger] differ_at(top, q, d);
        }
    }
    assert forall|a: Seq<int>, b: Seq<int>|
        (#[trigger] walk(tree, a)) >= 0 && (#[trigger] walk(tree, b)) >= 0 && lex_lt(
            a,
            b,
        ) implies walk(tree, a) < walk(tree, b) by {
        let d = choose|d: int| #[trigger] differ_at(a, b, d);
    }
}

/// The dictionary after a line was kept.
proof fn lemma_built_keep(
    before: Seq<Node>,
    after: Seq<Node>,
    lines: Seq<String>,
    pool: Seq<char>,
    i: int,
    top: Seq<int>,
)
    requires
        0 <= i < lines.len(),
        spellable(lines[i]@, pool),
        built(before, lines, pool, i),
        topped(before, lines, pool, i, top),
        inserted(before, after, lines[i]@),
    ensures
        built(after, lines, pool, i + 1),
        topped(after, lines, pool, i + 1, ordinals_of(lines[i]@)),
{
    let w = ordinals_of(lines[i]@);
    lemma_holds_step(before, after, lines, pool, i);
    lemma_runs_step(before, after, lines, pool, i);
    lemma_lengths_step(before, after, lines[i]@);
    lemma_numbered_step(before, after, lines, pool, i);
    assert(kept_line(lines, pool, i, w));
    if kept_in_order(lines, pool, i + 1) {
        assert(kept_in_order(lines, pool, i));
        if top.len() > 0 {
            let j = choose|j: int| 0 <= j < i && #[trigger] kept_line(lines, pool, j, top);
            assert(!lex_lt(ordinals_of(lines[i]@), ordinals_of(lines[j]@)));
        } else {
            if lex_lt(w, top) {
                let d = choose|d: int| #[trigger] differ_at(w, top, d);
            }
        }
        lemma_insert_ordered(before, after, w, top);
    }
}

/// The dictionary after a line was left out.
proof fn lemma_built_skip(
    tree: Seq<Node>,
    lines: Seq<String>,
    pool: Seq<char>,
    i: int,
    top: Seq<int>,
)
    requires
        0 <= i < lines.len(),
        !spellable(lines[i]@, pool),
        built(tree, lines, pool, i),
        topped(tree, lines, pool, i, top),
    ensures
        built(tree, lines, pool, i + 1),
        topped(tree, lines, pool, i + 1, top),
{
    lemma_numbered_skip(tree, lines, pool, i);
    assert forall|q: Seq<int>| is_kept(lines, pool, i + 1, q) == is_kept(lines, pool, i, q) by {
        if is_kept(lines, pool, i + 1, q) {
            let j = choose|j: int| 0 <= j < i + 1 && #[trigger] kept_line(lines, pool, j, q);
            assert(j < i);
        }
        if is_kept(lines, pool, i, q) {
            let j = choose|j: int| 0 <= j < i && #[trigger] kept_line(lines, pool, j, q);
            assert(0 <= j < i + 1 && kept_line(lines, pool, j, q));
        }
    }
    assert forall|q: Seq<int>|
        begins_kept(lines, pool, i + 1, q) == begins_kept(lines, pool, i, q) by {
        if begins_kept(lines, pool, i + 1, q) {
            let j = choose|j: int| 0 <= j < i + 1 && #[trigger] begins_line(lines, pool, j, q);
            assert(j < i);
        }
        if begins_kept(lines, pool, i, q) {
            let j = choose|j: int| 0 <= j < i && #[trigger] begins_line(lines, pool, j, q);
            assert(0 <= j < i + 1 && begins_line(lines, pool, j, q));
        }
    }
    if kept_in_order(lines, pool, i + 1) {
        assert(kept_in_order(lines, pool, i));
    }
}

/// Every line that was kept ends at a node of the dictionary that records
/// its length; and if the lines that were kept stand in dictionary order,
/// the node can be found from the root, so that the word is read back from
/// it as it was put in.
pub proof fn lemma_kept_line_read_back(
    tree: Seq<Node>,
    lines: Seq<String>,
    pool: Seq<char>,
    i: int,
)
    requires
        built(tree, lines, pool, lines.len() as int),
        0 <= i < lines.len(),
        spellable(lines[i]@, pool),
    ensures
        0 <= walk(tree, ordinals_of(lines[i]@)) < tree.len(),
        tree[walk(tree, ordinals_of(lines[i]@))].terminal(),
        tree[walk(tree, ordinals_of(lines[i]@))].len == lines[i]@.len(),
        kept_in_order(lines, pool, lines.len() as int) ==> traceable(
            tree,
            walk(tree, ordinals_of(lines[i]@)),
        ),
{
    let w = ordinals_of(lines[i]@);
    assert(kept_line(lines, pool, i, w));
    assert(is_kept(lines, pool, lines.len() as int, w));
    assert(accepts(tree, w));
    lemma_walk_in_range(tree, w);
    if kept_in_order(lines, pool, lines.len() as int) {
        lemma_ordered_traceable(tree, walk(tree, w));
    }
}

/// No letter stands in a text more often than the text has characters.
proof fn lemma_count_ord_bound(s: Seq<char>, k: int)
    ensures
        count_ord(s, k) <= s.len(),
    decreases s.len(),
{
    if s.len() > 0 {
        lemma_count_ord_bound(s.drop_last(), k);
    }
}

/// For each ordinal, how often its letter stands in a text.
pub fn letter_counts(s: &Vec<char>) -> (counts: [usize; 30])
    ensures
        counts[0] == 0,
        forall|k: int| 1 <= k <= MAX_ORDINAL ==> #[trigger] counts[k] == count_ord(s@, k),
{
    let mut counts: [usize; 30] = [0; 30];
    let mut i: usize = 0;
    proof {
        assert(s@.take(0) =~= Seq::<char>::empty());
    }
    while i < s.len()
        invariant
            i <= s.len(),
            counts[0] == 0,
            forall|k: int|
                1 <= k <= MAX_ORDINAL ==> #[trigger] counts[k] == count_ord(s@.take(i as int), k),
        decreases s.len() - i,
    {
        let ord: usize = to_bits(s[i]) as usize;
        proof {
            assert(s@.take(i + 1).drop_last() =~= s@.take(i as int));
            lemma_count_ord_bound(s@.take(i as int), ord as int);
        }
        if ord != 0 {
            counts[ord] = counts[ord] + 1;
        }
        i = i + 1;
    }
    proof {
        assert(s@.take(i as int) =~= s@);
    }
    counts
}

/// Whether every character of a text is a letter, and there are at most
/// `MAX_WORD_LEN` of them.
pub fn check_word(word: &Vec<char>) -> (r: bool)
    ensures
        r == is_word(word@),
{
    if word.len() > MAX_WORD_LEN {
        return false;
    }
    let mut i: usize = 0;
    while i < word.len()
        invariant
            i <= word.len(),
            forall|j: int| 0 <= j < i ==> is_letter(#[trigger] word@[j]),
        decreases word.len() - i,
    {
        if to_bits(word[i]) == 0 {
            return false;
        }
        i = i + 1;
    }
    true
}

/// Whether a word can be laid with letters that are counted in `pool`.
fn fits(word: &Vec<char>, pool: &[usize; 30], Ghost(text): Ghost<Seq<char>>) -> (r: bool)
    requires
        forall|k: int| 1 <= k <= MAX_ORDINAL ==> #[trigger] pool[k] == count_ord(text, k),
    ensures
        r == spellable(word@, text),
{
    if !check_word(word) {
        return false;
    }
    let counts = letter_counts(word);
    let mut k: usize = 1;
    while k <= 29
        invariant
            1 <= k <= 30,
            forall|j: int| 1 <= j <= MAX_ORDINAL ==> #[trigger] pool[j] == count_ord(text, j),
            forall|j: int| 1 <= j <= MAX_ORDINAL ==> #[trigger] counts[j] == count_ord(word@, j),
            forall|j: int| 1 <= j < k ==> #[trigger] count_ord(word@, j) <= count_ord(text, j),
        decreases 30 - k,
    {
        if counts[k] > pool[k] {
            proof {
                assert(count_ord(word@, k as int) > count_ord(text, k as int));
            }
            return false;
        }
        k = k + 1;
    }
    true
}

/// Whether a word can be laid with the letters of a text, each letter of
/// the text used at most once.
pub fn is_spellable(word: &str, pool: &str) -> (r: bool)
    ensures
        r == spellable(word@, pool@),
{
    let letters = chars_of(pool);
    let counts = letter_counts(&letters);
    let chars = chars_of(word);
    fits(&chars, &counts, Ghost(pool@))
}

/// Whether the word `a` comes before the word `b` in dictionary order.
pub fn comes_before(a: &Vec<char>, b: &Vec<char>) -> (r: bool)
    ensures
        r == lex_lt(ordinals_of(a@), ordinals_of(b@)),
{
    let ghost x = ordinals_of(a@);
    let ghost y = ordinals_of(b@);
    let mut d: usize = 0;
    while d < a.len() && d < b.len() && to_bits(a[d]) == to_bits(b[d])
        invariant
            d <= a.len(),
            d <= b.len(),
            x == ordinals_of(a@),
            y == ordinals_of(b@),
            x.take(d as int) =~= y.take(d as int),
        decreases a.len() - d,
    {
        proof {
            assert(x.take(d + 1) =~= x.take(d as int).push(x[d as int]));
            assert(y.take(d + 1) =~= y.take(d as int).push(y[d as int]));
        }
        d = d + 1;
    }
    let r = if d == a.len() {
        d < b.len()
    } else if d == b.len() {
        false
    } else {
        to_bits(a[d]) < to_bits(b[d])
    };
    proof {
        if r {
            assert(differ_at(x, y, d as int));
        } else {
            if d == a.len() && d == b.len() {
                assert(x.take(d as int) =~= x);
                assert(y.take(d as int) =~= y);
                if lex_lt(x, y) {
                    lemma_lex_asymmetric(x, y);
                }
            } else {
                assert(differ_at(y, x, d as int));
                lemma_lex_asymmetric(y, x);
            }
        }
    }
    r
}

/// Builds the dictionary for a board: the prefix tree of those of `lines`
/// that can be laid with the letters of `grid_input`.
pub fn get_dict_tree(grid_input: &str, lines: &Vec<String>) -> (tree: Vec<Node>)
    ensures
        built(tree@, lines@, grid_input@, lines.len() as int),
{
    let letters = chars_of(grid_input);
    let counts = letter_counts(&letters);
    let mut tree: Vec<Node> = Vec::new();
    tree.push(Node::default());
    let ghost pool = grid_input@;
    let ghost mut top: Seq<int> = Seq::empty();
    proof {
        lemma_built_start(tree@, lines@, pool);
    }
    let mut i: usize = 0;
    while i < lines.len()
        invariant
            i <= lines.len(),
            pool == grid_input@,
            forall|k: int| 1 <= k <= MAX_ORDINAL ==> #[trigger] counts[k] == count_ord(pool, k),
            built(tree@, lines@, pool, i as int),
            topped(tree@, lines@, pool, i as int, top),
        decreases lines.len() - i,
    {
        let chars = chars_of(lines[i].as_str());
        let ghost before = tree@;
        if fits(&chars, &counts, Ghost(pool)) {
            insert_word(&mut tree, &chars);
            proof {
                lemma_built_keep(before, tree@, lines@, pool, i as int, top);
                top = ordinals_of(lines[i as int]@);
            }
        } else {
            proof {
                lemma_built_skip(tree@, lines@, pool, i as int, top);
            }
        }
        i = i + 1;
    }
    tree
}

/// Whether those of `lines` that can be laid with the letters of
/// `grid_input` stand in dictionary order.
pub fn in_dictionary_order(grid_input: &str, lines: &Vec<String>) -> (r: bool)
    ensures
        r == kept_in_order(lines@, grid_input@, lines.len() as int),
{
    let letters = chars_of(grid_input);
    let counts = letter_counts(&letters);
    let ghost pool = grid_input@;
    let mut last: Vec<char> = Vec::new();
    let mut any: bool = false;
    let ghost mut at: int = -1;
    let mut i: usize = 0;
    while i < lines.len()
        invariant
            i <= lines.len(),
            pool == grid_input@,
            forall|k: int| 1 <= k <= MAX_ORDINAL ==> #[trigger] counts[k] == count_ord(pool, k),
            kept_in_order(lines@, pool, i as int),
            any <==> at >= 0,
            -1 <= at < i,
            any ==> spellable(lines[at]@, pool) && last@ == lines[at]@,
            forall|j: int|
                0 <= j < i && #[trigger] spellable(lines[j]@, pool) ==> any && !lex_lt(
                    ordinals_of(last@),
                    ordinals_of(lines[j]@),
                ),
        decreases lines.len() - i,
    {
        let chars = chars_of(lines[i].as_str());
        if fits(&chars, &counts, Ghost(pool)) {
            if any && comes_before(&chars, &last) {
                proof {
                    assert(lex_lt(ordinals_of(lines[i as int]@), ordinals_of(lines[at]@)));
                }
                return false;
            }
            proof {
                let w = ordinals_of(chars@);
                assert forall|a: int, b: int|
                    0 <= a < b < i + 1 && spellable(lines[a]@, pool) && spellable(
                        lines[b]@,
                        pool,
                    ) implies !lex_lt(
                    #[trigger] ordinals_of(lines[b]@),
                    #[trigger] ordinals_of(lines[a]@),
                ) by {
                    if b == i {
                        lemma_lex_le_transitive(ordinals_of(lines[a]@), ordinals_of(last@), w);
                    }
                }
                assert forall|j: int| 0 <= j < i + 1 && spellable(lines[j]@, pool) implies !lex_lt(
                    w,
                    #[trigger] ordinals_of(lines[j]@),
                ) by {
                    if j < i {
                        lemma_lex_le_transitive(ordinals_of(lines[j]@), ordinals_of(last@), w);
                        lemma_lex_total(w, ordinals_of(lines[j]@));
                        if lex_lt(w, ordinals_of(lines[j]@)) {
                            lemma_lex_asymmetric(w, ordinals_of(lines[j]@));
                            lemma_lex_total(ordinals_of(lines[j]@), ordinals_of(last@));
                            if ordinals_of(lines[j]@) != ordinals_of(last@) {
                                lemma_lex_transitive(
                                    w,
                                    ordinals_of(lines[j]@),
                                    ordinals_of(last@),
                                );
                            }
                        }
                    } else {
                        if lex_lt(w, w) {
                            lemma_lex_asymmetric(w, w);
                        }
                    }
                }
                at = i as int;
            }
            last = chars;
            any = true;
        } else {
            proof {
                assert(!spellable(lines[i as int]@, pool));
                assert(kept_in_order(lines@, pool, i + 1));
            }
        }
        i = i + 1;
    }
    true
}

} // verus!
