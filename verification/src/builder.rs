//! Putting words into the dictionary: a word adds a node to the prefix
//! tree for each of its beginnings that the tree did not hold.

use crate::bits::{
    bit_of, cell_bit, has_bit, lemma_bit_of, lemma_low_mask, lemma_mask_ops, lemma_mask_zero,
    lemma_test_bit,
};
use crate::dict::{
    accepts, child, has_parent, lemma_walk_in_range, lemma_walk_unique, node_wf, trie_shape,
    trie_wf, walk, Node, MAX_WORD_LEN,
};
use crate::letters::{is_letter, ordinal, to_bits, MAX_ORDINAL};
use vstd::prelude::*;

verus! {

/// The ordinals of the characters of a text.
pub open spec fn ordinals_of(s: Seq<char>) -> Seq<int> {
    Seq::new(s.len(), |i: int| ordinal(s[i]) as int)
}

/// Whether a text is a word that a dictionary can hold: at most
/// `MAX_WORD_LEN` characters, all of them letters.
pub open spec fn is_word(s: Seq<char>) -> bool {
    s.len() <= MAX_WORD_LEN && forall|i: int| 0 <= i < s.len() ==> is_letter(#[trigger] s[i])
}

/// Whether `after` is `before` with one more node, the child of node `cur`
/// by the letter with ordinal `ord`.
spec fn edge_added(before: Seq<Node>, after: Seq<Node>, cur: int, ord: int) -> bool {
    &&& after.len() == before.len() + 1
    &&& before.len() < usize::MAX
    &&& 0 <= cur < before.len()
    &&& 1 <= ord <= MAX_ORDINAL
    &&& before[cur].children[ord] == 0
    &&& forall|n: int| 0 <= n < before.len() && n != cur ==> #[trigger] after[n] == before[n]
    &&& after[cur].children@ == before[cur].children@.update(ord, before.len() as usize)
    &&& after[cur].connections == (before[cur].connections as u64 | bit_of(ord)) as usize
    &&& after[cur].len == before[cur].len
    &&& after[before.len() as int].connections == 0
    &&& after[before.len() as int].len == 0
    &&& forall|k: int| 0 <= k < 31 ==> #[trigger] after[before.len() as int].children[k] == 0
}

/// Adding a node changes one child and no other.
proof fn lemma_edge_children(before: Seq<Node>, after: Seq<Node>, cur: int, ord: int)
    requires
        trie_shape(before),
        edge_added(before, after, cur, ord),
    ensures
        forall|n: int, k: int| #[trigger]
            child(after, n, k) == (if n == cur && k == ord {
                before.len() as int
            } else {
                child(before, n, k)
            }),
        child(before, cur, ord) < 0,
{
    assert forall|n: int, k: int| #[trigger]
        child(after, n, k) == (if n == cur && k == ord {
            before.len() as int
        } else {
            child(before, n, k)
        }) by {
        if 0 <= n < before.len() && n != cur {
            assert(after[n] == before[n]);
        }
        if n == cur && 1 <= k <= MAX_ORDINAL {
            assert(after[cur].children[k] == after[cur].children@[k]);
            assert(before[cur].children[k] == before[cur].children@[k]);
        }
    }
}

/// Adding a node keeps the shape of the tree.
proof fn lemma_edge_shape(before: Seq<Node>, after: Seq<Node>, cur: int, ord: int)
    requires
        trie_shape(before),
        edge_added(before, after, cur, ord),
    ensures
        trie_shape(after),
{
    lemma_edge_children(before, after, cur, ord);
    let fresh = before.len() as int;
    assert forall|n: int| 0 <= n < after.len() implies #[trigger] node_wf(after, n) by {
        if n == fresh {
            lemma_mask_zero(0);
        } else {
            assert(node_wf(before, n));
            if n == cur {
                lemma_bit_of(ord);
                lemma_mask_ops(before[cur].connections as u64, bit_of(ord));
                lemma_low_mask(before[cur].connections as u64, ord);
                assert forall|k: int| 0 <= k < 31 implies after[cur].children[k] == (if k == ord {
                    before.len() as usize
                } else {
                    before[cur].children[k]
                }) by {
                    assert(after[cur].children[k] == after[cur].children@[k]);
                    assert(before[cur].children[k] == before[cur].children@[k]);
                }
            } else {
                assert(after[n] == before[n]);
            }
        }
    }
    assert forall|c: int| 1 <= c < after.len() implies #[trigger] has_parent(after, c) by {
        if c == fresh {
            assert(child(after, cur, ord) == c);
        } else {
            assert(has_parent(before, c));
            let (n, k) = choose|n: int, k: int| #[trigger] child(before, n, k) == c;
            assert(child(after, n, k) == c);
        }
    }
    assert forall|n1: int, k1: int, n2: int, k2: int|
        #[trigger] child(after, n1, k1) >= 0 && child(after, n1, k1) == #[trigger] child(
            after,
            n2,
            k2,
        ) implies n1 == n2 && k1 == k2 by {
        if 0 <= n1 < before.len() {
            assert(node_wf(before, n1));
        }
        if 0 <= n2 < before.len() {
            assert(node_wf(before, n2));
        }
        if !(n1 == cur && k1 == ord) && !(n2 == cur && k2 == ord) {
            assert(child(before, n1, k1) == child(before, n2, k2));
        }
    }
}

/// Adding a node keeps the paths that the tree had.
proof fn lemma_edge_keeps(before: Seq<Node>, after: Seq<Node>, cur: int, ord: int, word: Seq<int>)
    requires
        trie_shape(before),
        edge_added(before, after, cur, ord),
        walk(before, word) >= 0,
    ensures
        walk(after, word) == walk(before, word),
    decreases word.len(),
{
    lemma_edge_children(before, after, cur, ord);
    if word.len() > 0 {
        lemma_walk_in_range(before, word);
        lemma_edge_keeps(before, after, cur, ord, word.drop_last());
    }
}

/// Adding a node adds one path: that to the new node.
proof fn lemma_edge_adds(before: Seq<Node>, after: Seq<Node>, cur: int, ord: int, word: Seq<int>)
    requires
        trie_shape(before),
        edge_added(before, after, cur, ord),
        walk(after, word) >= 0,
    ensures
        walk(before, word) == walk(after, word) || (walk(after, word) == before.len()
            && word.len() > 0 && walk(before, word.drop_last()) == cur && word.last() == ord),
    decreases word.len(),
{
    lemma_edge_children(before, after, cur, ord);
    lemma_edge_shape(before, after, cur, ord);
    if word.len() > 0 {
        lemma_walk_in_range(after, word);
        lemma_edge_adds(before, after, cur, ord, word.drop_last());
        lemma_walk_in_range(before, word.drop_last());
    }
}

/// Whether two trees have the same children at every node.
spec fn same_children(a: Seq<Node>, b: Seq<Node>) -> bool {
    a.len() == b.len() && forall|n: int|
        0 <= n < a.len() ==> (#[trigger] a[n]).children == b[n].children
}

/// Trees with the same children have the same paths.
proof fn lemma_same_walk(a: Seq<Node>, b: Seq<Node>, word: Seq<int>)
    requires
        same_children(a, b),
    ensures
        walk(a, word) == walk(b, word),
    decreases word.len(),
{
    if word.len() > 0 {
        lemma_same_walk(a, b, word.drop_last());
        let n = walk(a, word.drop_last());
        if 0 <= n < a.len() {
            assert(a[n].children == b[n].children);
        }
    }
}

/// The beginning of the ordinals of a text, one ordinal longer.
proof fn lemma_ordinals_step(s: Seq<char>, t: int)
    requires
        0 <= t < s.len(),
    ensures
        ordinals_of(s).take(t + 1).drop_last() == ordinals_of(s).take(t),
        ordinals_of(s).take(t + 1).last() == ordinal(s[t]),
{
    assert(ordinals_of(s).take(t + 1).drop_last() =~= ordinals_of(s).take(t));
}

/// What `insert_word` keeps during its walk down the tree: the shape,
/// the paths that were there, and of the paths that were not there only
/// beginnings of the new word.
spec fn grown(before: Seq<Node>, now: Seq<Node>, word: Seq<int>, t: int) -> bool {
    &&& trie_shape(now)
    &&& before.len() <= now.len()
    &&& forall|q: Seq<int>| #[trigger] walk(before, q) >= 0 ==> walk(now, q) == walk(before, q)
    &&& forall|q: Seq<int>|
        (#[trigger] walk(now, q)) >= 0 ==> walk(before, q) == walk(now, q) || (walk(now, q)
            >= before.len() && q.len() <= t && q == word.take(q.len() as int))
    &&& forall|n: int|
        0 <= n < before.len() ==> (#[trigger] now[n]).connections as u64 & 1
            == before[n].connections as u64 & 1 && now[n].len == before[n].len
    &&& forall|n: int|
        before.len() <= n < now.len() ==> !(#[trigger] now[n]).terminal() && now[n].len == 0
}

/// Whether `after` is the tree `before` with the word `word` put in: it
/// holds the word and the words that `before` held, and no others; it has
/// the paths of `before`, to the same nodes, and besides them only paths
/// along the new word, to new nodes; and only the node where the new word
/// ends has changed the length that it records.
pub open spec fn inserted(before: Seq<Node>, after: Seq<Node>, word: Seq<char>) -> bool {
    let w = ordinals_of(word);
    &&& trie_wf(after)
    &&& before.len() <= after.len() <= before.len() + word.len()
    &&& forall|q: Seq<int>| #[trigger] walk(before, q) >= 0 ==> walk(after, q) == walk(before, q)
    &&& forall|q: Seq<int>|
        (#[trigger] walk(after, q)) >= 0 ==> walk(before, q) == walk(after, q) || (walk(after, q)
            >= before.len() && q.len() <= word.len() && q == w.take(q.len() as int))
    &&& walk(after, w) >= 0
    &&& forall|q: Seq<int>| #[trigger] accepts(after, q) <==> accepts(before, q) || q == w
    &&& forall|n: int|
        0 <= n < after.len() ==> (#[trigger] after[n]).len == (if n == walk(after, w) {
            word.len() as usize
        } else if n < before.len() {
            before[n].len
        } else {
            0
        })
}

/// Puts a word into the tree.
pub fn insert_word(tree: &mut Vec<Node>, word: &Vec<char>)
    requires
        trie_wf(old(tree)@),
        is_word(word@),
    ensures
        inserted(old(tree)@, final(tree)@, word@),
{
    let ghost before = tree@;
    let ghost w = ordinals_of(word@);
    let mut cur: usize = 0;
    let mut t: usize = 0;
    proof {
        assert(w.take(0) =~= Seq::<int>::empty());
        assert(walk(tree@, Seq::<int>::empty()) == 0);
    }
    while t < word.len()
        invariant
            t <= word.len(),
            is_word(word@),
            w == ordinals_of(word@),
            trie_wf(before),
            grown(before, tree@, w, t as int),
            tree.len() <= before.len() + t,
            cur == walk(tree@, w.take(t as int)),
            0 <= cur < tree.len(),
        decreases word.len() - t,
    {
        let ord: usize = to_bits(word[t]) as usize;
        let bit: u64 = cell_bit(ord);
        let ghost now = tree@;
        proof {
            assert(is_letter(word@[t as int]));
            assert(node_wf(now, cur as int));
            lemma_ordinals_step(word@, t as int);
            lemma_test_bit(now[cur as int].connections as u64, ord as int);
        }
        if (tree[cur].connections as u64) & bit == 0 {
            let fresh: usize = tree.len();
            let joined: u64 = (tree[cur].connections as u64) | bit;
            proof {
                lemma_low_mask(now[cur as int].connections as u64, ord as int);
            }
            tree[cur].connections = joined as usize;
            tree[cur].children[ord] = fresh;
            tree.push(Node::default());
            // The new length is a machine number: the old one was below the
            // greatest of them.
            let total: usize = tree.len();
            proof {
                let after = tree@;
                assert(total == fresh + 1);
                assert(after[cur as int].children@ == now[cur as int].children@.update(
                    ord as int,
                    fresh,
                ));
                assert(after[cur as int].connections == joined as usize);
                assert(after[cur as int].len == now[cur as int].len);
                assert(forall|n: int|
                    0 <= n < now.len() && n != cur ==> #[trigger] after[n] == now[n]);
                assert(now[cur as int].children[ord as int] == 0);
                assert(edge_added(now, after, cur as int, ord as int));
                lemma_edge_shape(now, after, cur as int, ord as int);
                lemma_edge_children(now, after, cur as int, ord as int);
                assert forall|q: Seq<int>| #[trigger] walk(before, q) >= 0 implies walk(after, q)
                    == walk(before, q) by {
                    lemma_edge_keeps(now, after, cur as int, ord as int, q);
                }
                lemma_edge_keeps(now, after, cur as int, ord as int, w.take(t as int));
                assert forall|q: Seq<int>| (#[trigger] walk(after, q)) >= 0 implies walk(
                    before,
                    q,
                ) == walk(after, q) || (walk(after, q) >= before.len() && q.len() <= t + 1 && q
                    == w.take(q.len() as int)) by {
                    lemma_edge_adds(now, after, cur as int, ord as int, q);
                    if walk(now, q) != walk(after, q) {
                        lemma_walk_unique(now, q.drop_last(), w.take(t as int));
                        assert(q =~= w.take(t + 1));
                    }
                }
                assert forall|n: int| 0 <= n < before.len() implies (
                #[trigger] after[n]).connections as u64 & 1 == before[n].connections as u64 & 1
                    && after[n].len == before[n].len by {
                    if n == cur {
                        lemma_keeps_end(now[n].connections as u64, ord as int);
                    } else {
                        assert(after[n] == now[n]);
                    }
                }
                assert forall|n: int| before.len() <= n < after.len() implies !(
                #[trigger] after[n]).terminal() && after[n].len == 0 by {
                    lemma_mask_zero(0);
                    if n == cur {
                        lemma_bit_of(ord as int);
                        lemma_mask_ops(now[n].connections as u64, bit_of(ord as int));
                    } else if n < now.len() {
                        assert(after[n] == now[n]);
                    }
                }
            }
        }
        cur = tree[cur].children[ord];
        t = t + 1;
        proof {
            assert(node_wf(tree@, walk(tree@, w.take(t - 1))));
        }
    }
    let ghost now = tree@;
    proof {
        assert(w.take(t as int) =~= w);
        assert(node_wf(now, cur as int));
        lemma_low_mask(now[cur as int].connections as u64, 0);
        lemma_bit_of(0);
        lemma_mask_ops(now[cur as int].connections as u64, bit_of(0));
    }
    let ended: u64 = (tree[cur].connections as u64) | cell_bit(0);
    tree[cur].connections = ended as usize;
    tree[cur].len = word.len();
    proof {
        let after = tree@;
        assert(same_children(now, after)) by {
            assert forall|n: int| 0 <= n < now.len() implies (#[trigger] now[n]).children
                == after[n].children by {
                if n != cur {
                    assert(after[n] == now[n]);
                }
            }
        }
        assert forall|q: Seq<int>| walk(after, q) == #[trigger] walk(now, q) by {
            lemma_same_walk(now, after, q);
        }
        assert forall|n: int, k: int| #[trigger] child(after, n, k) == child(now, n, k) by {
            if 0 <= n < now.len() {
                assert(now[n].children == after[n].children);
            }
        }
        assert(trie_shape(after)) by {
            assert forall|n: int| 0 <= n < after.len() implies #[trigger] node_wf(after, n) by {
                assert(node_wf(now, n));
                assert(now[n].children == after[n].children);
                if n != cur {
                    assert(after[n] == now[n]);
                }
            }
            assert forall|c: int| 1 <= c < after.len() implies #[trigger] has_parent(
                after,
                c,
            ) by {
                assert(has_parent(now, c));
                let (n, k) = choose|n: int, k: int| #[trigger] child(now, n, k) == c;
                assert(child(after, n, k) == c);
            }
            assert forall|n1: int, k1: int, n2: int, k2: int|
                #[trigger] child(after, n1, k1) >= 0 && child(after, n1, k1) == #[trigger] child(
                    after,
                    n2,
                    k2,
                ) implies n1 == n2 && k1 == k2 by {
                assert(child(now, n1, k1) == child(now, n2, k2));
            }
        }
        assert forall|q: Seq<int>| #[trigger] walk(after, q) >= 0 implies q.len() <= MAX_WORD_LEN
            && (after[walk(after, q)].terminal() ==> after[walk(after, q)].len == q.len()) by {
            let n = walk(after, q);
            assert(walk(now, q) == n);
            lemma_walk_in_range(now, q);
            if n == cur {
                lemma_walk_unique(now, q, w);
            } else {
                assert(after[n] == now[n]);
                if n < before.len() {
                    lemma_end_bit(now[n].connections as u64, before[n].connections as u64);
                }
            }
        }
        assert forall|q: Seq<int>| (#[trigger] walk(after, q)) >= 0 implies walk(before, q)
            == walk(after, q) || (walk(after, q) >= before.len() && q.len() <= word.len() && q
            == w.take(q.len() as int)) by {
            assert(walk(now, q) == walk(after, q));
        }
        assert forall|q: Seq<int>| #[trigger] walk(before, q) >= 0 implies walk(after, q) == walk(
            before,
            q,
        ) by {
            assert(walk(now, q) == walk(after, q));
        }
        assert forall|n: int| 0 <= n < after.len() implies (#[trigger] after[n]).len == (if n
            == walk(after, w) {
            word.len()
        } else if n < before.len() {
            before[n].len
        } else {
            0
        }) by {
            assert(walk(after, w) == walk(now, w));
            if n != cur {
                assert(after[n] == now[n]);
            }
        }
        assert forall|q: Seq<int>| #[trigger]
            accepts(after, q) <==> accepts(before, q) || q == w by {
            let n = walk(after, q);
            assert(walk(now, q) == n);
            if n >= 0 {
                lemma_walk_in_range(now, q);
                if n == cur {
                    lemma_walk_unique(now, q, w);
                } else {
                    assert(after[n] == now[n]);
                    if n < before.len() {
                        lemma_end_bit(now[n].connections as u64, before[n].connections as u64);
                    }
                }
            }
            if accepts(before, q) {
                let m = walk(before, q);
                lemma_walk_in_range(before, q);
                assert(walk(now, q) == m);
                if m != cur {
                    assert(after[m] == now[m]);
                    lemma_end_bit(now[m].connections as u64, before[m].connections as u64);
                }
            }
        }
    }
}

/// Whether a word ends at a node is told by the lowest bit of its
/// connections.
proof fn lemma_end_bit(a: u64, b: u64)
    requires
        a & 1 == b & 1,
    ensures
        has_bit(a, 0) == has_bit(b, 0),
{
    assert(a & 1 == b & 1 ==> ((a >> 0u64) & 1 == 1 <==> (b >> 0u64) & 1 == 1)) by (bit_vector);
}

/// A new child does not change whether a word ends at a node.
proof fn lemma_keeps_end(a: u64, ord: int)
    requires
        1 <= ord < 64,
    ensures
        (a | bit_of(ord)) & 1 == a & 1,
{
    let k = ord as u64;
    assert(1 <= k < 64 ==> (a | (1u64 << k)) & 1 == a & 1) by (bit_vector);
}

} // verus!
