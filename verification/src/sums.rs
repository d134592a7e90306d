//! Sums over sequences and grids of integers, the vocabulary of every
//! contract in this crate, and the facts about them that the proofs share.
use vstd::prelude::*;
use crate::matrix::dot;

verus! {

/// The sum of a sequence of integers.
pub open spec fn sum(s: Seq<int>) -> int
    decreases s.len(),
{
    if s.len() == 0 {
        0
    } else {
        sum(s.drop_last()) + s.last()
    }
}

/// A sequence of machine integers read as mathematical integers.
pub open spec fn as_ints(s: Seq<u64>) -> Seq<int> {
    Seq::new(s.len(), |i: int| s[i] as int)
}

/// A grid is a sequence of rows that all have `width` cells.
pub open spec fn is_grid(g: Seq<Seq<int>>, width: nat) -> bool {
    forall|i: int| 0 <= i < g.len() ==> (#[trigger] g[i]).len() == width
}

/// Every cell of the grid lies between zero and `bound`.
pub open spec fn within(g: Seq<Seq<int>>, bound: int) -> bool {
    forall|i: int, j: int|
        0 <= i < g.len() && 0 <= j < g[i].len() ==> 0 <= (#[trigger] g[i][j]) <= bound
}

/// Column `j` of a grid, from the first row to the last.
pub open spec fn column(g: Seq<Seq<int>>, j: int) -> Seq<int> {
    Seq::new(g.len(), |i: int| g[i][j])
}

/// The row projection: entry `i` is the sum of row `i`.
pub open spec fn row_sums(g: Seq<Seq<int>>) -> Seq<int> {
    Seq::new(g.len(), |i: int| sum(g[i]))
}

/// The column projection: entry `j` is the sum of column `j`.
pub open spec fn col_sums(g: Seq<Seq<int>>, width: nat) -> Seq<int> {
    Seq::new(width, |j: int| sum(column(g, j)))
}

/// The total mass of a grid: the sum of all its cells.
pub open spec fn mass(g: Seq<Seq<int>>) -> int
    decreases g.len(),
{
    if g.len() == 0 {
        0
    } else {
        mass(g.drop_last()) + sum(g.last())
    }
}

/// A sum of zeros is zero.
pub proof fn lemma_sum_zeros(s: Seq<int>)
    requires
        forall|i: int| 0 <= i < s.len() ==> s[i] == 0,
    ensures
        sum(s) == 0,
    decreases s.len(),
{
    if s.len() > 0 {
        lemma_sum_zeros(s.drop_last());
    }
}

/// The sum of entries between zero and `bound` lies between zero and
/// `bound` times their number.
pub proof fn lemma_sum_bounds(s: Seq<int>, bound: int)
    requires
        forall|i: int| 0 <= i < s.len() ==> 0 <= #[trigger] s[i] <= bound,
    ensures
        0 <= sum(s) <= s.len() * bound,
    decreases s.len(),
{
    if s.len() > 0 {
        let t = s.drop_last();
        assert forall|i: int| 0 <= i < t.len() implies 0 <= #[trigger] t[i] <= bound by {
            assert(t[i] == s[i]);
        }
        lemma_sum_bounds(t, bound);
        assert(t.len() * bound + bound == s.len() * bound) by (nonlinear_arith)
            requires
                t.len() + 1 == s.len(),
        ;
    } else {
        assert(s.len() * bound == 0) by (nonlinear_arith)
            requires
                s.len() == 0,
        ;
    }
}

/// No entry of a sequence of non-negative integers exceeds their sum.
pub proof fn lemma_entry_at_most_sum(s: Seq<int>, k: int)
    requires
        forall|i: int| 0 <= i < s.len() ==> 0 <= #[trigger] s[i],
        0 <= k < s.len(),
    ensures
        0 <= s[k] <= sum(s),
    decreases s.len(),
{
    let t = s.drop_last();
    assert forall|i: int| 0 <= i < t.len() implies 0 <= #[trigger] t[i] by {
        assert(t[i] == s[i]);
    }
    if k < t.len() {
        lemma_entry_at_most_sum(t, k);
        assert(t[k] == s[k]);
        assert(0 <= s.last());
    } else {
        if t.len() > 0 {
            lemma_sum_nonnegative(t);
        }
    }
}

/// A sum of non-negative integers is non-negative.
pub proof fn lemma_sum_nonnegative(s: Seq<int>)
    requires
        forall|i: int| 0 <= i < s.len() ==> 0 <= #[trigger] s[i],
    ensures
        0 <= sum(s),
    decreases s.len(),
{
    if s.len() > 0 {
        let t = s.drop_last();
        assert forall|i: int| 0 <= i < t.len() implies 0 <= #[trigger] t[i] by {
            assert(t[i] == s[i]);
        }
        lemma_sum_nonnegative(t);
        assert(0 <= s.last());
    }
}

/// The sum of the entrywise sum of two sequences is the sum of their sums.
pub proof fn lemma_sum_add(a: Seq<int>, b: Seq<int>, c: Seq<int>)
    requires
        a.len() == b.len(),
        c.len() == a.len(),
        forall|i: int| 0 <= i < c.len() ==> #[trigger] c[i] == a[i] + b[i],
    ensures
        sum(c) == sum(a) + sum(b),
    decreases a.len(),
{
    if a.len() > 0 {
        lemma_sum_add(a.drop_last(), b.drop_last(), c.drop_last());
    }
}

/// Adding the same amount to every entry adds it to the sum once for each.
pub proof fn lemma_sum_shift(a: Seq<int>, c: Seq<int>, delta: int)
    requires
        c.len() == a.len(),
        forall|i: int| 0 <= i < c.len() ==> #[trigger] c[i] == a[i] + delta,
    ensures
        sum(c) == sum(a) + a.len() * delta,
    decreases a.len(),
{
    if a.len() > 0 {
        lemma_sum_shift(a.drop_last(), c.drop_last(), delta);
        assert((a.len() - 1) * delta + delta == a.len() * delta) by (nonlinear_arith);
    } else {
        assert(a.len() * delta == 0) by (nonlinear_arith)
            requires
                a.len() == 0,
        ;
    }
}

/// Sums respect entrywise order.
pub proof fn lemma_sum_monotone(a: Seq<int>, b: Seq<int>)
    requires
        a.len() == b.len(),
        forall|i: int| 0 <= i < a.len() ==> #[trigger] a[i] <= b[i],
    ensures
        sum(a) <= sum(b),
    decreases a.len(),
{
    if a.len() > 0 {
        let s = a.drop_last();
        let t = b.drop_last();
        assert forall|i: int| 0 <= i < s.len() implies #[trigger] s[i] <= t[i] by {
            assert(s[i] == a[i] && t[i] == b[i]);
        }
        lemma_sum_monotone(s, t);
        assert(a.last() <= b.last());
    }
}

/// The inner product with a vector of ones is the sum of the entries.
pub proof fn lemma_dot_ones(a: Seq<u64>, ones: Seq<u64>)
    requires
        a.len() <= ones.len(),
        forall|i: int| 0 <= i < ones.len() ==> ones[i] == 1,
    ensures
        dot(a, ones) == sum(as_ints(a)),
    decreases a.len(),
{
    if a.len() > 0 {
        lemma_dot_ones(a.drop_last(), ones);
        assert(as_ints(a).drop_last() =~= as_ints(a.drop_last()));
    }
}

/// The row projection adds up to the mass.
pub proof fn lemma_row_sums_total(g: Seq<Seq<int>>)
    ensures
        sum(row_sums(g)) == mass(g),
    decreases g.len(),
{
    if g.len() > 0 {
        lemma_row_sums_total(g.drop_last());
        assert(row_sums(g).drop_last() =~= row_sums(g.drop_last()));
    }
}

/// The column projection adds up to the mass.
pub proof fn lemma_col_sums_total(g: Seq<Seq<int>>, width: nat)
    requires
        is_grid(g, width),
    ensures
        sum(col_sums(g, width)) == mass(g),
    decreases g.len(),
{
    if g.len() == 0 {
        assert forall|j: int| 0 <= j < width implies col_sums(g, width)[j] == 0 by {
            assert(column(g, j).len() == 0);
        }
        lemma_sum_zeros(col_sums(g, width));
    } else {
        let upper = g.drop_last();
        let last = g.last();
        assert(is_grid(upper, width)) by {
            assert forall|i: int| 0 <= i < upper.len() implies (#[trigger] upper[i]).len()
                == width by {
                assert(upper[i] == g[i]);
            }
        }
        lemma_col_sums_total(upper, width);
        assert forall|j: int| 0 <= j < width implies #[trigger] col_sums(g, width)[j] == col_sums(
            upper,
            width,
        )[j] + last[j] by {
            assert(column(g, j).drop_last() =~= column(upper, j));
        }
        lemma_sum_add(col_sums(upper, width), last, col_sums(g, width));
    }
}

/// Conservation of mass under projection: the row sums and the column sums
/// of a grid add up to the same total, the sum of all its cells.
pub proof fn lemma_projections_conserve_mass(g: Seq<Seq<int>>, width: nat)
    requires
        is_grid(g, width),
    ensures
        sum(row_sums(g)) == mass(g),
        sum(col_sums(g, width)) == mass(g),
        sum(row_sums(g)) == sum(col_sums(g, width)),
{
    lemma_row_sums_total(g);
    lemma_col_sums_total(g, width);
}

} // verus!
