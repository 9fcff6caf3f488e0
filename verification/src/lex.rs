//! Dictionary order on sequences of ordinals: a sequence comes before
//! another if it is a beginning of it, or if at the first place where the
//! two differ it has the smaller ordinal.

use vstd::prelude::*;

verus! {

/// Whether `a` and `b` agree before place `d` and `a` is the smaller one at
/// place `d`: there `a` ends and `b` goes on, or `a` has the smaller ordinal.
pub open spec fn differ_at(a: Seq<int>, b: Seq<int>, d: int) -> bool {
    &&& 0 <= d <= a.len()
    &&& d <= b.len()
    &&& a.take(d) =~= b.take(d)
    &&& (d == a.len() && d < b.len()) || (d < a.len() && d < b.len() && a[d] < b[d])
}

/// Whether `a` comes before `b` in dictionary order.
pub open spec fn lex_lt(a: Seq<int>, b: Seq<int>) -> bool {
    exists|d: int| #[trigger] differ_at(a, b, d)
}

/// Two sequences that agree before place `d` are equal, or one comes
/// before the other.
proof fn lemma_compare_from(a: Seq<int>, b: Seq<int>, d: int)
    requires
        0 <= d <= a.len(),
        d <= b.len(),
        a.take(d) =~= b.take(d),
    ensures
        a == b || lex_lt(a, b) || lex_lt(b, a),
    decreases a.len() - d,
{
    if d == a.len() && d == b.len() {
        assert(a.take(d) =~= a);
        assert(b.take(d) =~= b);
    } else if d == a.len() {
        assert(differ_at(a, b, d));
    } else if d == b.len() {
        assert(differ_at(b, a, d));
    } else if a[d] < b[d] {
        assert(differ_at(a, b, d));
    } else if b[d] < a[d] {
        assert(differ_at(b, a, d));
    } else {
        assert(a.take(d + 1) =~= a.take(d).push(a[d]));
        assert(b.take(d + 1) =~= b.take(d).push(b[d]));
        lemma_compare_from(a, b, d + 1);
    }
}

/// Of two sequences that differ, one comes before the other.
pub proof fn lemma_lex_total(a: Seq<int>, b: Seq<int>)
    ensures
        a == b || lex_lt(a, b) || lex_lt(b, a),
{
    lemma_compare_from(a, b, 0);
}

/// Of two sequences at most one comes before the other, and none before
/// itself.
pub proof fn lemma_lex_asymmetric(a: Seq<int>, b: Seq<int>)
    requires
        lex_lt(a, b),
    ensures
        !lex_lt(b, a),
        a != b,
{
    let d1 = choose|d: int| #[trigger] differ_at(a, b, d);
    if lex_lt(b, a) {
        let d2 = choose|d: int| #[trigger] differ_at(b, a, d);
        if d1 < d2 {
            assert(b.take(d2)[d1] == a.take(d2)[d1]);
        } else if d2 < d1 {
            assert(a.take(d1)[d2] == b.take(d1)[d2]);
        }
    }
    if a == b {
        assert(differ_at(a, a, d1));
    }
}

/// What comes before something that comes before a third comes before the
/// third.
pub proof fn lemma_lex_transitive(a: Seq<int>, b: Seq<int>, c: Seq<int>)
    requires
        lex_lt(a, b),
        lex_lt(b, c),
    ensures
        lex_lt(a, c),
{
    let d1 = choose|d: int| #[trigger] differ_at(a, b, d);
    let d2 = choose|d: int| #[trigger] differ_at(b, c, d);
    if d1 < d2 {
        assert(b.take(d2)[d1] == c.take(d2)[d1]);
        assert(a.take(d1) =~= c.take(d1)) by {
            assert forall|i: int| 0 <= i < d1 implies a[i] == c[i] by {
                assert(a.take(d1)[i] == b.take(d1)[i]);
                assert(b.take(d2)[i] == c.take(d2)[i]);
            }
        }
        assert(differ_at(a, c, d1));
    } else if d2 < d1 {
        assert(a.take(d1)[d2] == b.take(d1)[d2]);
        assert(a.take(d2) =~= c.take(d2)) by {
            assert forall|i: int| 0 <= i < d2 implies a[i] == c[i] by {
                assert(a.take(d1)[i] == b.take(d1)[i]);
                assert(b.take(d2)[i] == c.take(d2)[i]);
            }
        }
        assert(differ_at(a, c, d2));
    } else {
        assert(a.take(d1) =~= c.take(d1)) by {
            assert forall|i: int| 0 <= i < d1 implies a[i] == c[i] by {
                assert(a.take(d1)[i] == b.take(d1)[i]);
                assert(b.take(d2)[i] == c.take(d2)[i]);
            }
        }
        assert(differ_at(a, c, d1));
    }
}

/// What does not come after something that does not come after a third
/// does not come after the third.
pub proof fn lemma_lex_le_transitive(a: Seq<int>, b: Seq<int>, c: Seq<int>)
    requires
        !lex_lt(b, a),
        !lex_lt(c, b),
    ensures
        !lex_lt(c, a),
{
    if lex_lt(c, a) {
        lemma_lex_total(a, b);
        lemma_lex_total(b, c);
        if a == b {
        } else if b == c {
        } else {
            lemma_lex_transitive(c, a, b);
        }
    }
}

/// A sequence comes after each of its proper beginnings.
pub proof fn lemma_lex_prefix(a: Seq<int>, n: int)
    requires
        0 <= n < a.len(),
    ensures
        lex_lt(a.take(n), a),
        !lex_lt(a, a.take(n)),
{
    assert(a.take(n).take(n) =~= a.take(n));
    assert(differ_at(a.take(n), a, n));
    lemma_lex_asymmetric(a.take(n), a);
}

/// What lies between a beginning of a sequence and the sequence begins in
/// the same way.
pub proof fn lemma_lex_between(w: Seq<int>, n: int, q: Seq<int>)
    requires
        0 <= n <= w.len(),
        !lex_lt(q, w.take(n)),
        !lex_lt(w, q),
    ensures
        n <= q.len(),
        q.take(n) =~= w.take(n),
{
    let p = w.take(n);
    lemma_lex_total(p, q);
    if p == q {
        assert(q.take(n) =~= q);
    } else {
        let d = choose|d: int| #[trigger] differ_at(p, q, d);
        if d == n {
            assert(p.take(n) =~= p);
        } else {
            assert(w.take(d) =~= q.take(d)) by {
                assert forall|i: int| 0 <= i < d implies w[i] == q[i] by {
                    assert(p.take(d)[i] == q.take(d)[i]);
                }
            }
            assert(differ_at(w, q, d));
        }
    }
}

} // verus!
