//! Reading a word back from the node where it ends. The tree keeps no way
//! from a node to its parent: the word is found from the root, by taking at
//! every node the child with the highest ordinal that does not come after
//! the node looked for. That leads to the node where the nodes of the tree
//! are numbered in dictionary order of their words, as they are when the
//! words were put in in dictionary order.

use crate::builder::ordinals_of;
use crate::dict::{
    child, lemma_reachable, lemma_walk_in_range, lemma_walk_take, lemma_walk_unique, node_wf,
    trie_shape, walk, Node,
};
use crate::letters::{
    is_letter, lemma_ordinal_round_trip, letter_of, letter_text, ordinal, MAX_ORDINAL,
};
use crate::lex::{
    differ_at, lemma_lex_asymmetric, lemma_lex_between, lemma_lex_le_transitive, lemma_lex_prefix,
    lex_lt,
};
use vstd::prelude::*;

verus! {

/// Whether the nodes of the tree are numbered in dictionary order of the
/// words that lead to them.
pub open spec fn ordered(dict: Seq<Node>) -> bool {
    forall|a: Seq<int>, b: Seq<int>|
        (#[trigger] walk(dict, a)) >= 0 && (#[trigger] walk(dict, b)) >= 0 && lex_lt(a, b)
            ==> walk(dict, a) < walk(dict, b)
}

/// Whether no word of a path of the tree comes after `top` in dictionary
/// order.
pub open spec fn dominated(dict: Seq<Node>, top: Seq<int>) -> bool {
    forall|q: Seq<int>| (#[trigger] walk(dict, q)) >= 0 ==> !lex_lt(top, q)
}

/// Whether the node `idx` can be found from the root: on the way to it,
/// no node has a child with a higher ordinal than the next node of the way
/// that does not come after `idx`.
pub open spec fn traceable(dict: Seq<Node>, idx: int) -> bool {
    forall|word: Seq<int>, t: int, k: int|
        walk(dict, word) == idx && 0 <= t < word.len() && word[t] < k && #[trigger] child(
            dict,
            walk(dict, word.take(t)),
            k,
        ) >= 0 ==> child(dict, walk(dict, word.take(t)), k) > idx
}

/// In a tree whose nodes are numbered in dictionary order every node can
/// be found from the root.
pub proof fn lemma_ordered_traceable(dict: Seq<Node>, idx: int)
    requires
        trie_shape(dict),
        ordered(dict),
    ensures
        traceable(dict, idx),
{
    assert forall|word: Seq<int>, t: int, k: int|
        walk(dict, word) == idx && 0 <= t < word.len() && word[t] < k && #[trigger] child(
            dict,
            walk(dict, word.take(t)),
            k,
        ) >= 0 implies child(dict, walk(dict, word.take(t)), k) > idx by {
        let other = word.take(t).push(k);
        assert(other.drop_last() =~= word.take(t));
        assert(walk(dict, other) == child(dict, walk(dict, word.take(t)), k));
        assert(word.take(t) =~= other.take(t));
        assert(differ_at(word, other, t));
    }
}

/// Putting a word into a tree whose nodes are numbered in dictionary
/// order keeps them so, if no word of the tree comes after the new word.
pub proof fn lemma_insert_ordered(
    before: Seq<Node>,
    after: Seq<Node>,
    word: Seq<int>,
    top: Seq<int>,
)
    requires
        trie_shape(before),
        trie_shape(after),
        forall|q: Seq<int>| #[trigger] walk(before, q) >= 0 ==> walk(after, q) == walk(before, q),
        forall|q: Seq<int>|
            (#[trigger] walk(after, q)) >= 0 ==> walk(before, q) == walk(after, q) || (walk(
                after,
                q,
            ) >= before.len() && q.len() <= word.len() && q == word.take(q.len() as int)),
        ordered(before),
        dominated(before, top),
        !lex_lt(word, top),
    ensures
        ordered(after),
        dominated(after, word),
{
    assert forall|q: Seq<int>| (#[trigger] walk(after, q)) >= 0 implies !lex_lt(word, q) by {
        if walk(before, q) == walk(after, q) {
            lemma_lex_le_transitive(q, top, word);
        } else {
            if q.len() < word.len() {
                lemma_lex_prefix(word, q.len() as int);
            } else {
                assert(word.take(q.len() as int) =~= word);
                if lex_lt(word, word) {
                    lemma_lex_asymmetric(word, word);
                }
            }
        }
    }
    assert forall|a: Seq<int>, b: Seq<int>|
        (#[trigger] walk(after, a)) >= 0 && (#[trigger] walk(after, b)) >= 0 && lex_lt(
            a,
            b,
        ) implies walk(after, a) < walk(after, b) by {
        lemma_walk_in_range(before, a);
        lemma_walk_in_range(before, b);
        let old_a = walk(before, a) == walk(after, a);
        let old_b = walk(before, b) == walk(after, b);
        if old_a && old_b {
        } else if old_a {
        } else if old_b {
            lemma_lex_asymmetric(a, b);
            lemma_lex_le_transitive(b, top, word);
            lemma_lex_between(word, a.len() as int, b);
            lemma_walk_take(before, b, a.len() as int);
            assert(b.take(a.len() as int) == a);
        } else {
            lemma_lex_asymmetric(a, b);
            if b.len() <= a.len() {
                assert(a.take(b.len() as int) =~= b);
                if b.len() < a.len() {
                    lemma_lex_prefix(a, b.len() as int);
                }
            } else {
                assert(b.take(a.len() as int) =~= a);
                lemma_walk_take(after, b, a.len() as int);
            }
        }
    }
}

/// The word that ends at node `idx` of the dictionary.
pub fn reconstruct_word(dict: &Vec<Node>, idx: usize) -> (s: String)
    requires
        trie_shape(dict@),
        idx < dict.len(),
        traceable(dict@, idx as int),
    ensures
        walk(dict@, ordinals_of(s@)) == idx,
        forall|i: int| 0 <= i < s@.len() ==> is_letter(#[trigger] s@[i]),
        forall|word: Seq<char>|
            walk(dict@, #[trigger] ordinals_of(word)) == idx && (forall|i: int|
                0 <= i < word.len() ==> is_letter(#[trigger] word[i])) ==> s@ == word,
{
    let mut s = String::new();
    let mut i: usize = 0;
    proof {
        lemma_reachable(dict@, idx as int);
    }
    let ghost word = choose|word: Seq<int>| walk(dict@, word) == idx as int;
    let ghost mut t: int = 0;
    proof {
        assert(word.take(0) =~= Seq::<int>::empty());
        assert(walk(dict@, Seq::<int>::empty()) == 0);
        assert(ordinals_of(s@) =~= word.take(0));
    }
    while i < idx
        invariant
            trie_shape(dict@),
            idx < dict.len(),
            traceable(dict@, idx as int),
            walk(dict@, word) == idx,
            0 <= t <= word.len(),
            i == walk(dict@, word.take(t)),
            i <= idx,
            ordinals_of(s@) == word.take(t),
            forall|j: int| 0 <= j < s@.len() ==> is_letter(#[trigger] s@[j]),
        decreases idx - i,
    {
        proof {
            lemma_walk_take(dict@, word, t);
            if t == word.len() {
                assert(word.take(t) =~= word);
            }
            lemma_walk_take(dict@, word, t + 1);
            assert(word.take(t + 1).drop_last() =~= word.take(t));
            lemma_walk_in_range(dict@, word.take(t + 1));
            assert(node_wf(dict@, i as int));
        }
        let node = &dict[i];
        let mut j: usize = 30;
        while j > 0 && !(node.children[j] != 0 && node.children[j] <= idx)
            invariant
                0 <= j <= 30,
                *node == dict@[i as int],
                node_wf(dict@, i as int),
                0 <= t < word.len(),
                1 <= word[t] <= MAX_ORDINAL,
                i == walk(dict@, word.take(t)),
                walk(dict@, word) == idx,
                traceable(dict@, idx as int),
                child(dict@, i as int, word[t]) >= 0,
                child(dict@, i as int, word[t]) <= idx,
                j >= word[t],
            decreases j,
        {
            proof {
                if j == word[t] {
                    assert(node.children[j as int] != 0 && node.children[j as int] <= idx);
                }
                if j - 1 > word[t] && j - 1 <= MAX_ORDINAL && node.children[j - 1] != 0 {
                    assert(child(dict@, walk(dict@, word.take(t)), j - 1) >= 0);
                }
            }
            j = j - 1;
        }
        proof {
            if j > word[t] {
                if j <= MAX_ORDINAL {
                    assert(child(dict@, walk(dict@, word.take(t)), j as int) >= 0);
                }
            }
            assert(j == word[t]);
            lemma_ordinal_round_trip(j as u64);
        }
        let ghost spelled = s@;
        s.append(letter_text(j as u64));
        proof {
            assert(s@ =~= spelled.push(letter_of(j as u64)));
        }
        i = node.children[j];
        proof {
            t = t + 1;
            assert(ordinals_of(s@) =~= word.take(t)) by {
                assert(s@.len() == t);
                assert forall|x: int| 0 <= x < t implies ordinals_of(s@)[x] == word.take(t)[x] by {
                    if x < t - 1 {
                        assert(ordinals_of(s@.drop_last())[x] == word.take(t - 1)[x]);
                    }
                }
            }
        }
    }
    proof {
        lemma_walk_unique(dict@, word.take(t), word);
        assert forall|other: Seq<char>|
            walk(dict@, #[trigger] ordinals_of(other)) == idx && (forall|i: int|
                0 <= i < other.len() ==> is_letter(#[trigger] other[i])) implies s@ == other by {
            lemma_round_trip(dict@, other, s@);
        }
    }
    s
}

/// The words of a list of plays, each read back from the node where it
/// ends.
pub fn spell_plays(dict: &Vec<Node>, plays: &Vec<(u64, usize)>) -> (words: Vec<String>)
    requires
        trie_shape(dict@),
        forall|i: int|
            0 <= i < plays.len() ==> (#[trigger] plays[i]).1 < dict.len() && traceable(
                dict@,
                plays[i].1 as int,
            ),
    ensures
        words.len() == plays.len(),
        forall|i: int|
            0 <= i < plays.len() ==> walk(dict@, ordinals_of(#[trigger] words[i]@)) == plays[i].1,
        forall|i: int, j: int|
            0 <= i < words.len() && 0 <= j < words[i]@.len() ==> is_letter(#[trigger] words[i]@[j]),
{
    let mut words: Vec<String> = Vec::new();
    let mut i: usize = 0;
    while i < plays.len()
        invariant
            i <= plays.len(),
            words.len() == i,
            trie_shape(dict@),
            forall|j: int|
                0 <= j < plays.len() ==> (#[trigger] plays[j]).1 < dict.len() && traceable(
                    dict@,
                    plays[j].1 as int,
                ),
            forall|j: int|
                0 <= j < i ==> walk(dict@, ordinals_of(#[trigger] words[j]@)) == plays[j].1,
            forall|a: int, b: int|
                0 <= a < i && 0 <= b < words[a]@.len() ==> is_letter(#[trigger] words[a]@[b]),
        decreases plays.len() - i,
    {
        let word = reconstruct_word(dict, plays[i].1);
        words.push(word);
        i = i + 1;
    }
    words
}

/// Two letters with the same ordinal are the same letter.
pub proof fn lemma_ordinal_injective(a: char, b: char)
    requires
        is_letter(a),
        is_letter(b),
        ordinal(a) == ordinal(b),
    ensures
        a == b,
{
}

/// A word of the dictionary is read back as it was put in: whatever
/// letters lead from the root to the node where the word ends are the
/// letters of the word.
pub proof fn lemma_round_trip(dict: Seq<Node>, word: Seq<char>, spelled: Seq<char>)
    requires
        trie_shape(dict),
        forall|i: int| 0 <= i < word.len() ==> is_letter(#[trigger] word[i]),
        forall|i: int| 0 <= i < spelled.len() ==> is_letter(#[trigger] spelled[i]),
        walk(dict, ordinals_of(word)) >= 0,
        walk(dict, ordinals_of(spelled)) == walk(dict, ordinals_of(word)),
    ensures
        spelled == word,
{
    lemma_walk_unique(dict, ordinals_of(word), ordinals_of(spelled));
    assert(spelled.len() == word.len()) by {
        assert(ordinals_of(word).len() == word.len());
        assert(ordinals_of(spelled).len() == spelled.len());
    }
    assert forall|i: int| 0 <= i < word.len() implies spelled[i] == word[i] by {
        assert(ordinals_of(word)[i] == ordinal(word[i]));
        assert(ordinals_of(spelled)[i] == ordinal(spelled[i]));
        lemma_ordinal_injective(word[i], spelled[i]);
    }
    assert(spelled =~= word);
}

} // verus!
