//! The dictionary: a prefix tree over letter ordinals, held as a vector of
//! nodes of which the first is the root.

use crate::bits::{has_bit, test_bit};
use crate::letters::MAX_ORDINAL;
use vstd::prelude::*;

verus! {

/// Number of letters of the longest word that a dictionary holds.
pub const MAX_WORD_LEN: usize = 12;

/// A node of the prefix tree.
pub struct Node {
    /// For each ordinal, the index of the child reached by that letter, or 0
    /// where there is none.
    pub children: [usize; 31],
    /// Bit `k` is set where there is a child for the ordinal `k`; bit 0 is
    /// set where a word ends at this node.
    pub connections: usize,
    /// Number of letters of the word that ends at this node, if one does.
    pub len: usize,
}

impl Default for Node {
    /// A node without children, at which no word ends.
    fn default() -> (node: Self)
        ensures
            node.connections == 0,
            node.len == 0,
            forall|k: int| 0 <= k < 31 ==> node.children[k] == 0,
    {
        Node { children: [0; 31], connections: 0, len: 0 }
    }
}

impl Node {
    /// Whether a word ends at this node.
    pub open spec fn terminal(&self) -> bool {
        has_bit(self.connections as u64, 0)
    }

    /// Whether a word ends at this node.
    pub fn is_terminal(&self) -> (r: bool)
        ensures
            r == self.terminal(),
    {
        test_bit(self.connections as u64, 0)
    }

    /// Whether the node has a child for the ordinal `ord`.
    pub fn has_child(&self, ord: usize) -> (r: bool)
        requires
            1 <= ord <= MAX_ORDINAL,
        ensures
            r == has_bit(self.connections as u64, ord as int),
    {
        test_bit(self.connections as u64, ord)
    }

    /// The index of the child for the ordinal `ord`, or 0 where there is none.
    pub fn child(&self, ord: usize) -> (c: usize)
        requires
            ord <= 30,
        ensures
            c == self.children[ord as int],
    {
        self.children[ord]
    }
}

/// The node reached from node `n` by the letter with ordinal `k`, or -1
/// where there is none.
pub open spec fn child(dict: Seq<Node>, n: int, k: int) -> int {
    if 0 <= n < dict.len() && 1 <= k <= MAX_ORDINAL && dict[n].children[k] != 0 {
        dict[n].children[k] as int
    } else {
        -1
    }
}

/// The node reached from the root by the ordinals of `word`, one after the
/// other, or -1 where the tree has no such path.
pub open spec fn walk(dict: Seq<Node>, word: Seq<int>) -> int
    decreases word.len(),
{
    if word.len() == 0 {
        0
    } else {
        child(dict, walk(dict, word.drop_last()), word.last())
    }
}

/// Whether `word` is one of the words of the dictionary.
pub open spec fn accepts(dict: Seq<Node>, word: Seq<int>) -> bool {
    walk(dict, word) >= 0 && dict[walk(dict, word)].terminal()
}

/// What holds of node `n` of a prefix tree by itself: its children come
/// after it, and its connections name them.
pub open spec fn node_wf(dict: Seq<Node>, n: int) -> bool {
    let node = dict[n];
    &&& node.children[0] == 0
    &&& node.children[30] == 0
    &&& node.connections < 0x4000_0000
    &&& forall|k: int|
        1 <= k <= MAX_ORDINAL ==> (#[trigger] has_bit(node.connections as u64, k)
            <==> node.children[k] != 0)
    &&& forall|k: int|
        1 <= k <= MAX_ORDINAL && #[trigger] node.children[k] != 0 ==> n < node.children[k]
            < dict.len()
}

/// Whether node `c` is the child of some node.
pub open spec fn has_parent(dict: Seq<Node>, c: int) -> bool {
    exists|n: int, k: int| #[trigger] child(dict, n, k) == c
}

/// The shape of a prefix tree: it has a root, and every other node is the
/// child of exactly one node, by exactly one letter.
pub open spec fn trie_shape(dict: Seq<Node>) -> bool {
    &&& dict.len() >= 1
    &&& forall|n: int| 0 <= n < dict.len() ==> #[trigger] node_wf(dict, n)
    &&& forall|c: int| 1 <= c < dict.len() ==> #[trigger] has_parent(dict, c)
    &&& forall|n1: int, k1: int, n2: int, k2: int|
        #[trigger] child(dict, n1, k1) >= 0 && child(dict, n1, k1) == #[trigger] child(
            dict,
            n2,
            k2,
        ) ==> n1 == n2 && k1 == k2
}

/// No path of the tree is longer than `MAX_WORD_LEN`, and where a word
/// ends the node records the word's length.
pub open spec fn lengths_ok(dict: Seq<Node>) -> bool {
    forall|word: Seq<int>|
        (#[trigger] walk(dict, word)) >= 0 ==> word.len() <= MAX_WORD_LEN && (dict[walk(
            dict,
            word,
        )].terminal() ==> dict[walk(dict, word)].len == word.len())
}

/// What holds of every prefix tree that the search works on.
pub open spec fn trie_wf(dict: Seq<Node>) -> bool {
    trie_shape(dict) && lengths_ok(dict)
}

/// A path of the tree leads to a node of the tree, and so does every part
/// of it that starts at the root.
pub proof fn lemma_walk_in_range(dict: Seq<Node>, word: Seq<int>)
    requires
        trie_shape(dict),
    ensures
        -1 <= walk(dict, word) < dict.len(),
        walk(dict, word) >= 0 && word.len() > 0 ==> walk(dict, word.drop_last()) >= 0 && 1
            <= word.last() <= MAX_ORDINAL && walk(dict, word) > walk(dict, word.drop_last()),
    decreases word.len(),
{
    if word.len() > 0 {
        lemma_walk_in_range(dict, word.drop_last());
        let n = walk(dict, word.drop_last());
        if 0 <= n < dict.len() {
            assert(node_wf(dict, n));
        }
    }
}

/// Two paths that end in the same node are the same path.
pub proof fn lemma_walk_unique(dict: Seq<Node>, a: Seq<int>, b: Seq<int>)
    requires
        trie_shape(dict),
        walk(dict, a) >= 0,
        walk(dict, a) == walk(dict, b),
    ensures
        a == b,
    decreases a.len(),
{
    lemma_walk_in_range(dict, a);
    lemma_walk_in_range(dict, b);
    if a.len() == 0 {
        if b.len() > 0 {
            lemma_walk_in_range(dict, b.drop_last());
        }
    } else if b.len() == 0 {
        lemma_walk_in_range(dict, a.drop_last());
    } else {
        let na = walk(dict, a.drop_last());
        let nb = walk(dict, b.drop_last());
        assert(child(dict, na, a.last()) == child(dict, nb, b.last()));
        lemma_walk_unique(dict, a.drop_last(), b.drop_last());
        assert(a =~= a.drop_last().push(a.last()));
        assert(b =~= b.drop_last().push(b.last()));
    }
}

/// Every node of a prefix tree is reached by a path from the root.
pub proof fn lemma_reachable(dict: Seq<Node>, c: int)
    requires
        trie_shape(dict),
        0 <= c < dict.len(),
    ensures
        exists|word: Seq<int>| walk(dict, word) == c,
    decreases c,
{
    if c == 0 {
        assert(walk(dict, Seq::<int>::empty()) == 0);
    } else {
        assert(has_parent(dict, c));
        let (n, k) = choose|n: int, k: int| #[trigger] child(dict, n, k) == c;
        assert(node_wf(dict, n));
        lemma_reachable(dict, n);
        let word = choose|word: Seq<int>| walk(dict, word) == n;
        assert(word.push(k).drop_last() =~= word);
        assert(walk(dict, word.push(k)) == c);
    }
}

/// Every beginning of a path of the tree is a path of the tree, and ends
/// at an earlier node.
pub proof fn lemma_walk_take(dict: Seq<Node>, word: Seq<int>, n: int)
    requires
        trie_shape(dict),
        walk(dict, word) >= 0,
        0 <= n <= word.len(),
    ensures
        0 <= walk(dict, word.take(n)) <= walk(dict, word),
        n < word.len() ==> walk(dict, word.take(n)) < walk(dict, word),
    decreases word.len(),
{
    if n < word.len() {
        lemma_walk_in_range(dict, word);
        lemma_walk_take(dict, word.drop_last(), n);
        assert(word.drop_last().take(n) =~= word.take(n));
    } else {
        assert(word.take(n) =~= word);
    }
}

/// The only path of a tree that has no node but its root is the empty one.
pub proof fn lemma_walk_root_only(dict: Seq<Node>, word: Seq<int>)
    requires
        trie_shape(dict),
        dict.len() == 1,
        walk(dict, word) >= 0,
    ensures
        word.len() == 0,
{
    if word.len() > 0 {
        lemma_walk_in_range(dict, word);
        lemma_walk_in_range(dict, word.drop_last());
    }
}

} // verus!
