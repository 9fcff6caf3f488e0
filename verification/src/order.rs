//! The order in which the search tries the words it has found: words with
//! more cells first, and among words with the same number of cells the one
//! with the greater set of cells first.

use crate::bits::{count_cells, popcount};
use vstd::prelude::*;
use vstd::seq_lib::to_multiset_update;

verus! {

/// Whether the entry `a` may stand before the entry `b`.
pub open spec fn comes_first(a: (u64, usize), b: (u64, usize)) -> bool {
    popcount(a.0) > popcount(b.0) || (popcount(a.0) == popcount(b.0) && a.0 >= b.0)
}

/// Whether the entries of `v` stand in order.
pub open spec fn in_order(v: Seq<(u64, usize)>) -> bool {
    forall|a: int, b: int| 0 <= a <= b < v.len() ==> comes_first(#[trigger] v[a], #[trigger] v[b])
}

/// Whether `after` holds the entries of `before` in another order, entry
/// `i` of `after` being entry `from[i]` of `before`, and entries with the
/// same cells stand in `after` as they stood in `before`.
pub open spec fn rearranged(
    before: Seq<(u64, usize)>,
    after: Seq<(u64, usize)>,
    from: Seq<int>,
) -> bool {
    &&& from.len() == before.len()
    &&& after.len() == before.len()
    &&& from.no_duplicates()
    &&& forall|i: int| 0 <= i < from.len() ==> 0 <= #[trigger] from[i] < before.len()
    &&& forall|i: int| 0 <= i < after.len() ==> #[trigger] after[i] == before[from[i]]
    &&& forall|i: int, j: int|
        0 <= i < j < after.len() && (#[trigger] after[i]).0 == (#[trigger] after[j]).0 ==> from[i]
            < from[j]
}

/// Whether the entry `a` may stand before the entry `b`.
pub fn may_precede(a: (u64, usize), b: (u64, usize)) -> (r: bool)
    ensures
        r == comes_first(a, b),
{
    let ca = count_cells(a.0);
    let cb = count_cells(b.0);
    ca > cb || (ca == cb && a.0 >= b.0)
}

/// Two lists with the same entries, each as often in one as in the other,
/// hold the same entries.
pub proof fn lemma_same_entries(a: Seq<(u64, usize)>, b: Seq<(u64, usize)>)
    requires
        a.to_multiset() == b.to_multiset(),
    ensures
        a.len() == b.len(),
        forall|t: int| 0 <= t < a.len() ==> b.contains(#[trigger] a[t]),
        forall|t: int| 0 <= t < b.len() ==> a.contains(#[trigger] b[t]),
{
    a.to_multiset_ensures();
    b.to_multiset_ensures();
    assert forall|t: int| 0 <= t < a.len() implies b.contains(#[trigger] a[t]) by {
        assert(a.contains(a[t]));
        assert(a.to_multiset().count(a[t]) > 0);
        assert(b.to_multiset().count(a[t]) > 0);
    }
    assert forall|t: int| 0 <= t < b.len() implies a.contains(#[trigger] b[t]) by {
        assert(b.contains(b[t]));
        assert(b.to_multiset().count(b[t]) > 0);
        assert(a.to_multiset().count(b[t]) > 0);
    }
}

/// Puts the entries of `v` from `start` on in order, and leaves those
/// before `start` where they are.
pub fn sort_candidates(v: &mut Vec<(u64, usize)>, start: usize)
    requires
        start <= old(v).len(),
    ensures
        final(v).len() == old(v).len(),
        final(v)@.take(start as int) == old(v)@.take(start as int),
        in_order(final(v)@.skip(start as int)),
        final(v)@.skip(start as int).to_multiset() == old(v)@.skip(start as int).to_multiset(),
        exists|from: Seq<int>|
            rearranged(old(v)@.skip(start as int), final(v)@.skip(start as int), from),
{
    let end: usize = v.len();
    let mut i: usize = start;
    let ghost first = v@.skip(start as int);
    let ghost mut from: Seq<int> = Seq::new(first.len(), |k: int| k);
    proof {
        assert(rearranged(first, v@.skip(start as int), from));
    }
    while i < end
        invariant
            start <= i <= end == v.len(),
            v.len() == old(v).len(),
            v@.take(start as int) == old(v)@.take(start as int),
            in_order(v@.subrange(start as int, i as int)),
            v@.skip(start as int).to_multiset() == old(v)@.skip(start as int).to_multiset(),
            first == old(v)@.skip(start as int),
            rearranged(first, v@.skip(start as int), from),
        decreases end - i,
    {
        let mut j: usize = i;
        proof {
            let sorted = v@.subrange(start as int, i as int);
            assert forall|a: int, b: int| start <= a <= b < i implies comes_first(
                #[trigger] v[a],
                #[trigger] v[b],
            ) by {
                assert(sorted[a - start] == v[a]);
                assert(sorted[b - start] == v[b]);
            }
        }
        while j > start && !may_precede(v[j - 1], v[j])
            invariant
                start <= j <= i < end == v.len(),
                v.len() == old(v).len(),
                v@.take(start as int) == old(v)@.take(start as int),
                forall|a: int, b: int|
                    start <= a <= b <= i && a != j && b != j ==> comes_first(
                        #[trigger] v[a],
                        #[trigger] v[b],
                    ),
                forall|b: int| j < b <= i ==> comes_first(v[j as int], #[trigger] v[b]),
                v@.skip(start as int).to_multiset() == old(v)@.skip(start as int).to_multiset(),
                first == old(v)@.skip(start as int),
                rearranged(first, v@.skip(start as int), from),
            decreases j,
        {
            let ghost before = v@;
            let low = v[j - 1];
            let high = v[j];
            v.set(j - 1, high);
            v.set(j, low);
            proof {
                let tail = before.skip(start as int);
                let now = v@.skip(start as int);
                let k = j - start;
                let moved = from.update(k - 1, from[k]).update(k, from[k - 1]);
                assert(tail[k - 1] == low && tail[k] == high);
                assert(!comes_first(low, high));
                assert(low.0 != high.0);
                assert forall|a: int| 0 <= a < now.len() implies #[trigger] now[a]
                    == first[moved[a]] by {
                    if a != k && a != k - 1 {
                        assert(now[a] == tail[a]);
                    }
                }
                assert forall|a: int, b: int|
                    0 <= a < moved.len() && 0 <= b < moved.len() && a != b implies moved[a]
                    != moved[b] by {
                    let x = if a == k {
                        k - 1
                    } else if a == k - 1 {
                        k
                    } else {
                        a
                    };
                    let y = if b == k {
                        k - 1
                    } else if b == k - 1 {
                        k
                    } else {
                        b
                    };
                    assert(moved[a] == from[x] && moved[b] == from[y]);
                }
                assert forall|a: int, b: int|
                    0 <= a < b < now.len() && (#[trigger] now[a]).0 == (
                    #[trigger] now[b]).0 implies moved[a] < moved[b] by {
                    let x = if a == k {
                        k - 1
                    } else if a == k - 1 {
                        k
                    } else {
                        a
                    };
                    let y = if b == k {
                        k - 1
                    } else if b == k - 1 {
                        k
                    } else {
                        b
                    };
                    assert(now[a] == tail[x] && now[b] == tail[y]);
                    assert(moved[a] == from[x] && moved[b] == from[y]);
                    if a == k - 1 && b == k {
                    } else {
                        assert(x < y);
                    }
                }
                from = moved;
                let mid = tail.update(j - 1 - start, high);
                to_multiset_update(tail, j - 1 - start, high);
                to_multiset_update(mid, j - start, low);
                assert(v@.skip(start as int) =~= mid.update(j - start, low));
                assert(tail[j - 1 - start] == low);
                assert(mid[j - start] == high);
                tail.to_multiset_ensures();
                assert(tail.contains(low));
                assert(tail.to_multiset().count(low) > 0);
                assert(tail.to_multiset().insert(high).remove(low).insert(low).remove(high)
                    =~= tail.to_multiset());
                assert(v@.take(start as int) =~= before.take(start as int));
                assert forall|a: int, b: int|
                    start <= a <= b <= i && a != j - 1 && b != j - 1 implies comes_first(
                    #[trigger] v[a],
                    #[trigger] v[b],
                ) by {
                    if a == j {
                        if b != j {
                            assert(v[b] == before[b]);
                            assert(comes_first(before[j - 1], before[b]));
                        }
                    } else {
                        assert(v[a] == before[a]);
                        if b == j {
                            assert(comes_first(before[a], before[j - 1]));
                        } else {
                            assert(v[b] == before[b]);
                            assert(comes_first(before[a], before[b]));
                        }
                    }
                }
                assert forall|b: int| j - 1 < b <= i implies comes_first(
                    v[j - 1],
                    #[trigger] v[b],
                ) by {
                    if b != j {
                        assert(v[b] == before[b]);
                        assert(comes_first(before[j as int], before[b]));
                    }
                }
            }
            j = j - 1;
        }
        proof {
            let sorted = v@.subrange(start as int, i + 1);
            assert forall|a: int, b: int| 0 <= a <= b < sorted.len() implies comes_first(
                #[trigger] sorted[a],
                #[trigger] sorted[b],
            ) by {
                let x = a + start;
                let y = b + start;
                assert(sorted[a] == v[x]);
                assert(sorted[b] == v[y]);
                if x != j && y != j {
                    assert(comes_first(v[x], v[y]));
                } else if x == j {
                    if y != j {
                        assert(comes_first(v[j as int], v[y]));
                    }
                } else {
                    assert(j > start);
                    assert(comes_first(v[j - 1], v[j as int]));
                    if x != j - 1 {
                        assert(comes_first(v[x], v[j - 1]));
                    }
                }
            }
        }
        i = i + 1;
    }
    proof {
        assert(v@.subrange(start as int, i as int) =~= v@.skip(start as int));
    }
}

} // verus!
