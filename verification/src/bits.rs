//! Sets of at most 64 small numbers, held as the bits of a `u64`.

use vstd::prelude::*;
use vstd::std_specs::bits::{axiom_u64_trailing_zeros, u64_trailing_zeros};

verus! {

/// Whether bit `i` of `m` is set, for a bit index held in a machine word.
pub open spec fn bit_at(m: u64, i: u64) -> bool {
    (m >> i) & 1 == 1
}

/// Whether `i` belongs to the set that `m` stands for.
pub open spec fn has_bit(m: u64, i: int) -> bool {
    0 <= i < 64 && bit_at(m, i as u64)
}

/// Whether every member of `a` is a member of `b`.
pub open spec fn subset(a: u64, b: u64) -> bool {
    a & !b == 0
}

/// Number of members of `m` below `n`.
pub open spec fn count_below(m: u64, n: int) -> nat
    decreases n,
{
    if n <= 0 {
        0
    } else {
        count_below(m, n - 1) + if has_bit(m, n - 1) {
            1nat
        } else {
            0nat
        }
    }
}

/// Number of members of `m`.
pub open spec fn popcount(m: u64) -> nat {
    count_below(m, 64)
}

/// The bits of unions, intersections, symmetric differences and
/// complements.
proof fn lemma_bit_ops(a: u64, b: u64)
    by (bit_vector)
    ensures
        forall|j: u64| j < 64 ==> (#[trigger] bit_at(a | b, j) <==> bit_at(a, j) || bit_at(b, j)),
        forall|j: u64| j < 64 ==> (#[trigger] bit_at(a & b, j) <==> bit_at(a, j) && bit_at(b, j)),
        forall|j: u64| j < 64 ==> (#[trigger] bit_at(a ^ b, j) <==> bit_at(a, j) != bit_at(b, j)),
        forall|j: u64| j < 64 ==> (#[trigger] bit_at(!a, j) <==> !bit_at(a, j)),
{
}

/// The only bit of one shifted by `i` is bit `i`.
proof fn lemma_single_bit(i: u64)
    by (bit_vector)
    requires
        i < 64,
    ensures
        forall|j: u64| j < 64 ==> (#[trigger] bit_at(1u64 << i, j) <==> i == j),
        1u64 << i != 0,
{
}

/// A word that is not 0 has a lowest bit.
proof fn lemma_lowest_bit(a: u64)
    requires
        a != 0,
    ensures
        u64_trailing_zeros(a) < 64,
        bit_at(a, u64_trailing_zeros(a) as u64),
        forall|j: u64| j < u64_trailing_zeros(a) ==> !#[trigger] bit_at(a, j),
{
    axiom_u64_trailing_zeros(a);
    let t = u64_trailing_zeros(a);
    assert forall|j: u64| j < t implies !#[trigger] bit_at(a, j) by {
        assert((a >> j) & 1u64 == 0u64);
    }
}

/// The word 0 is the one without bits.
proof fn lemma_zero_bits(a: u64)
    ensures
        a == 0 <==> (forall|j: u64| j < 64 ==> !bit_at(a, j)),
{
    if a != 0 {
        lemma_lowest_bit(a);
    } else {
        assert(forall|j: u64| j < 64 ==> !bit_at(0u64, j)) by (bit_vector);
    }
}

/// Two words with the same bits are equal.
proof fn lemma_bits_equal(a: u64, b: u64)
    requires
        forall|j: u64| j < 64 ==> bit_at(a, j) == bit_at(b, j),
    ensures
        a == b,
{
    let x = a ^ b;
    lemma_bit_ops(a, b);
    if x != 0 {
        lemma_lowest_bit(x);
        let t = u64_trailing_zeros(x) as u64;
        assert(bit_at(a ^ b, t));
    }
    assert(a ^ b == 0 ==> a == b) by (bit_vector);
}

/// `subset` in terms of bits.
proof fn lemma_subset_bits(a: u64, b: u64)
    ensures
        subset(a, b) <==> (forall|j: u64| j < 64 ==> (bit_at(a, j) ==> bit_at(b, j))),
{
    let x = a & !b;
    lemma_bit_ops(a, !b);
    lemma_bit_ops(b, b);
    if x != 0 {
        lemma_lowest_bit(x);
        let t = u64_trailing_zeros(x) as u64;
        assert(bit_at(a & !b, t));
        assert(bit_at(!b, t));
    } else {
        lemma_zero_bits(x);
        assert forall|j: u64| j < 64 && bit_at(a, j) implies bit_at(b, j) by {
            if !bit_at(b, j) {
                assert(bit_at(!b, j));
                assert(bit_at(a & !b, j));
            }
        }
    }
}

/// The set whose only member is `i`.
pub open spec fn bit_of(i: int) -> u64
    recommends
        0 <= i < 64,
{
    1u64 << (i as u64)
}

/// Members of unions, intersections, symmetric differences and complements.
pub proof fn lemma_mask_ops(a: u64, b: u64)
    ensures
        forall|j: int| #[trigger] has_bit(a | b, j) <==> has_bit(a, j) || has_bit(b, j),
        forall|j: int| #[trigger] has_bit(a & b, j) <==> has_bit(a, j) && has_bit(b, j),
        forall|j: int| #[trigger]
            has_bit(a ^ b, j) <==> (0 <= j < 64 && has_bit(a, j) != has_bit(b, j)),
        forall|j: int| #[trigger] has_bit(!a, j) <==> (0 <= j < 64 && !has_bit(a, j)),
{
    lemma_bit_ops(a, b);
}

/// The only member of `bit_of(i)` is `i`.
pub proof fn lemma_bit_of(i: int)
    requires
        0 <= i < 64,
    ensures
        forall|j: int| #[trigger] has_bit(bit_of(i), j) <==> j == i,
        bit_of(i) != 0,
{
    lemma_single_bit(i as u64);
}

/// Intersecting with a singleton tests membership.
pub proof fn lemma_test_bit(m: u64, i: int)
    requires
        0 <= i < 64,
    ensures
        m & bit_of(i) != 0 <==> has_bit(m, i),
        subset(bit_of(i), m) <==> has_bit(m, i),
{
    let k = i as u64;
    assert(k < 64 ==> ((m & (1u64 << k) != 0) <==> ((m >> k) & 1 == 1))) by (bit_vector);
    assert(k < 64 ==> (((1u64 << k) & !m == 0) <==> ((m >> k) & 1 == 1))) by (bit_vector);
}

/// Nothing is a member of the empty set, and every other set has a member.
pub proof fn lemma_mask_zero(m: u64)
    ensures
        forall|j: int| !#[trigger] has_bit(0u64, j),
        m != 0 ==> exists|j: int| has_bit(m, j),
        m == 0 <==> (forall|j: int| !has_bit(m, j)),
        m & 0 == 0,
{
    assert(m & 0 == 0) by (bit_vector);
    lemma_zero_bits(0u64);
    if m != 0 {
        lemma_lowest_bit(m);
        assert(has_bit(m, u64_trailing_zeros(m) as int));
    }
}

/// Two sets with the same members are equal.
pub proof fn lemma_masks_equal(a: u64, b: u64)
    requires
        forall|j: int| 0 <= j < 64 ==> has_bit(a, j) == has_bit(b, j),
    ensures
        a == b,
{
    assert forall|j: u64| j < 64 implies bit_at(a, j) == bit_at(b, j) by {
        assert(has_bit(a, j as int) == has_bit(b, j as int));
    }
    lemma_bits_equal(a, b);
}

/// `subset` in terms of members.
pub proof fn lemma_subset(a: u64, b: u64)
    ensures
        subset(a, b) <==> (forall|j: int| has_bit(a, j) ==> has_bit(b, j)),
{
    lemma_subset_bits(a, b);
    if subset(a, b) {
        assert forall|j: int| has_bit(a, j) implies has_bit(b, j) by {
            assert(bit_at(a, j as u64));
        }
    }
    if forall|j: int| has_bit(a, j) ==> has_bit(b, j) {
        assert forall|j: u64| j < 64 && bit_at(a, j) implies bit_at(b, j) by {
            assert(has_bit(a, j as int));
        }
    }
}

/// The lowest member of a set that has one.
pub proof fn lemma_lowest(m: u64)
    requires
        m != 0,
    ensures
        u64_trailing_zeros(m) < 64,
        has_bit(m, u64_trailing_zeros(m) as int),
        forall|j: int| 0 <= j < u64_trailing_zeros(m) ==> !has_bit(m, j),
{
    lemma_lowest_bit(m);
    assert forall|j: int| 0 <= j < u64_trailing_zeros(m) implies !has_bit(m, j) by {
        assert(!bit_at(m, j as u64));
    }
}

/// Moving a singleton by one grid row, in either direction.
pub proof fn lemma_row_shift(i: int)
    requires
        0 <= i < 64,
    ensures
        bit_of(i) >> 8 == (if i >= 8 {
            bit_of(i - 8)
        } else {
            0
        }),
        bit_of(i) << 8 == (if i < 56 {
            bit_of(i + 8)
        } else {
            0
        }),
{
    let k = i as u64;
    assert(k < 64 ==> ((1u64 << k) >> 8 == (if k >= 8 {
        1u64 << ((k - 8) as u64)
    } else {
        0
    }))) by (bit_vector);
    assert(k < 64 ==> ((1u64 << k) << 8 == (if k < 56 {
        1u64 << ((k + 8) as u64)
    } else {
        0
    }))) by (bit_vector);
}

/// Moving a set by one grid column, in either direction.
pub proof fn lemma_column_shift(m: u64)
    ensures
        forall|j: int| #[trigger] has_bit(m >> 1, j) <==> (0 <= j < 63 && has_bit(m, j + 1)),
        forall|j: int| #[trigger] has_bit(m << 1, j) <==> (1 <= j < 64 && has_bit(m, j - 1)),
{
    assert(forall|j: u64|
        j < 64 ==> ((((m >> 1) >> j) & 1 == 1) <==> (j < 63 && (m >> ((j + 1) as u64)) & 1 == 1)))
        by (bit_vector);
    assert(forall|j: u64|
        j < 64 ==> ((((m << 1) >> j) & 1 == 1) <==> (j >= 1 && (m >> ((j - 1) as u64)) & 1 == 1)))
        by (bit_vector);
    assert forall|j: int| #[trigger] has_bit(m >> 1, j) <==> (0 <= j < 63 && has_bit(m, j + 1)) by {
        if 0 <= j < 64 {
            let k = j as u64;
            assert((((m >> 1) >> k) & 1 == 1) <==> (k < 63 && (m >> ((k + 1) as u64)) & 1 == 1));
        }
    }
    assert forall|j: int| #[trigger] has_bit(m << 1, j) <==> (1 <= j < 64 && has_bit(m, j - 1)) by {
        if 0 <= j < 64 {
            let k = j as u64;
            assert((((m << 1) >> k) & 1 == 1) <==> (k >= 1 && (m >> ((k - 1) as u64)) & 1 == 1));
        }
    }
}

/// Taking a member out of a set makes its number smaller.
pub proof fn lemma_remove_bit(m: u64, i: int)
    requires
        has_bit(m, i),
    ensures
        m ^ bit_of(i) < m,
        m ^ bit_of(i) == m & !bit_of(i),
{
    let k = i as u64;
    assert(k < 64 && (m >> k) & 1 == 1 ==> (m ^ (1u64 << k)) < m && m ^ (1u64 << k) == m & !(1u64
        << k)) by (bit_vector);
}

/// A set of numbers below 30 stays one when a number below 30 joins it.
pub proof fn lemma_low_mask(m: u64, i: int)
    requires
        m < 0x4000_0000,
        0 <= i < 30,
    ensures
        m | bit_of(i) < 0x4000_0000,
{
    let k = i as u64;
    assert(m < 0x4000_0000 && k < 30 ==> (m | (1u64 << k)) < 0x4000_0000) by (bit_vector);
}

/// Counting the members of a set that is the union of two sets without a
/// common member.
pub proof fn lemma_count_split(a: u64, b: u64, c: u64, n: int)
    requires
        forall|j: int| 0 <= j < n ==> (has_bit(c, j) <==> has_bit(a, j) || has_bit(b, j)),
        forall|j: int| 0 <= j < n ==> !(has_bit(a, j) && has_bit(b, j)),
    ensures
        count_below(c, n) == count_below(a, n) + count_below(b, n),
    decreases n,
{
    if n > 0 {
        lemma_count_split(a, b, c, n - 1);
    }
}

/// A set has no more members below `n` than there are numbers below `n`.
pub proof fn lemma_count_bound(m: u64, n: int)
    requires
        0 <= n,
    ensures
        count_below(m, n) <= n,
    decreases n,
{
    if n > 0 {
        lemma_count_bound(m, n - 1);
    }
}

/// The empty set has no members.
pub proof fn lemma_count_empty()
    ensures
        popcount(0) == 0,
{
    lemma_mask_zero(0);
    lemma_count_zero(64);
}

/// The empty set has no members below any number.
proof fn lemma_count_zero(n: int)
    requires
        forall|j: int| !has_bit(0u64, j),
    ensures
        count_below(0u64, n) == 0,
    decreases n,
{
    if n > 0 {
        lemma_count_zero(n - 1);
    }
}

/// A singleton has one member below the numbers above its member.
proof fn lemma_count_single(i: int, n: int)
    requires
        0 <= i < 64,
        forall|j: int| has_bit(bit_of(i), j) <==> j == i,
    ensures
        count_below(bit_of(i), n) == (if i < n {
            1nat
        } else {
            0nat
        }),
    decreases n,
{
    if n > 0 {
        lemma_count_single(i, n - 1);
    }
}

/// Two sets without a common member have together as many members as the
/// two have apart.
pub proof fn lemma_count_disjoint(a: u64, b: u64)
    requires
        a & b == 0,
    ensures
        popcount(a | b) == popcount(a) + popcount(b),
        popcount(a ^ b) == popcount(a) + popcount(b),
        a ^ b == a | b,
{
    assert(a & b == 0 ==> a ^ b == a | b) by (bit_vector);
    lemma_mask_ops(a, b);
    lemma_mask_zero(a & b);
    assert forall|j: int| 0 <= j < 64 implies !(has_bit(a, j) && has_bit(b, j)) by {
        assert(!has_bit(a & b, j));
    }
    lemma_count_split(a, b, a | b, 64);
}

/// A set gains one member when a number joins it that was not in it.
pub proof fn lemma_count_insert(m: u64, i: int)
    requires
        0 <= i < 64,
        !has_bit(m, i),
    ensures
        popcount(m | bit_of(i)) == popcount(m) + 1,
{
    lemma_bit_of(i);
    lemma_mask_ops(m, bit_of(i));
    lemma_count_single(i, 64);
    lemma_count_split(m, bit_of(i), m | bit_of(i), 64);
}

/// Taking a part out of a set leaves as many members as the part did not
/// have.
pub proof fn lemma_count_remove(m: u64, part: u64)
    requires
        subset(part, m),
    ensures
        popcount(m ^ part) + popcount(part) == popcount(m),
        subset(m ^ part, m),
        (m ^ part) & part == 0,
        part != 0 ==> m ^ part < m,
{
    assert(part & !m == 0 ==> ((m ^ part) & !m == 0 && (m ^ part) & part == 0 && (part != 0 ==> m
        ^ part < m))) by (bit_vector);
    lemma_mask_ops(m, part);
    lemma_subset(part, m);
    lemma_count_split(m ^ part, part, m, 64);
}

/// Number of members of a set.
pub fn count_cells(m: u64) -> (n: usize)
    ensures
        n == popcount(m),
        n <= 64,
{
    let mut rest: u64 = m;
    let mut n: usize = 0;
    proof {
        lemma_count_empty();
        lemma_count_bound(m, 64);
    }
    while rest != 0
        invariant
            n + popcount(rest) == popcount(m),
            popcount(m) <= 64,
        decreases rest,
    {
        proof {
            lemma_lowest(rest);
        }
        let low: usize = rest.trailing_zeros() as usize;
        let bit: u64 = cell_bit(low);
        proof {
            lemma_remove_bit(rest, low as int);
            lemma_test_bit(rest, low as int);
            lemma_count_remove(rest, bit);
            lemma_count_single(low as int, 64);
        }
        rest = rest ^ bit;
        n = n + 1;
    }
    proof {
        lemma_count_empty();
    }
    n
}

/// Toggling the same members twice gives the set back.
pub proof fn lemma_toggle_twice(m: u64, part: u64)
    by (bit_vector)
    ensures
        (m ^ part) ^ part == m,
        m & part == part & m,
        m ^ 0 == m,
{
}

/// A part of a set, joined with the rest of the set, is the set.
pub proof fn lemma_rejoin(m: u64, part: u64)
    by (bit_vector)
    requires
        part & !m == 0,
    ensures
        part | (m ^ part) == m,
{
}

/// The singleton of a cell.
pub fn cell_bit(i: usize) -> (b: u64)
    requires
        i < 64,
    ensures
        b == bit_of(i as int),
        b != 0,
        forall|j: int| #[trigger] has_bit(b, j) <==> j == i,
{
    proof {
        lemma_bit_of(i as int);
    }
    1u64 << (i as u64)
}

/// Whether cell `i` is a member of `m`.
pub fn test_bit(m: u64, i: usize) -> (r: bool)
    requires
        i < 64,
    ensures
        r == has_bit(m, i as int),
{
    proof {
        lemma_test_bit(m, i as int);
    }
    m & (1u64 << (i as u64)) != 0
}

} // verus!
