//! What holds of every image and every inferrer, beyond what each function
//! promises of its own result.
use vstd::prelude::*;
use crate::image::Image;
use crate::inferrer::{
    adjusted, back_projection, clamp_add, col_delta, col_pass, row_delta, row_pass, spread, swept,
    ImageInferrer,
};
use crate::sums::{
    col_sums, column, is_grid, lemma_projections_conserve_mass, lemma_row_sums_total,
    lemma_sum_monotone, lemma_sum_shift, mass, row_sums, sum,
};

verus! {

/// Conservation of mass under projection: the row projection and the column
/// projection of an image add up to the same total, the mass of the image.
pub proof fn lemma_projection_conservation(image: Image)
    requires
        image.wf(),
    ensures
        sum(row_sums(image@)) == sum(col_sums(image@, image.width())),
        sum(row_sums(image@)) == mass(image@),
{
    lemma_projections_conserve_mass(image@, image.width());
}

/// Non-negativity of the first estimate: the back projection of targets
/// that are not negative has no negative cell.
pub proof fn lemma_back_projection_nonnegative(target_rows: Seq<int>, target_cols: Seq<int>)
    requires
        target_rows.len() > 0,
        target_cols.len() > 0,
        forall|i: int| 0 <= i < target_rows.len() ==> 0 <= target_rows[i],
        forall|j: int| 0 <= j < target_cols.len() ==> 0 <= target_cols[j],
    ensures
        forall|i: int, j: int|
            0 <= i < target_rows.len() && 0 <= j < target_cols.len() ==> 0
                <= #[trigger] back_projection(target_rows, target_cols)[i][j],
{
    let nrows = target_rows.len() as int;
    let ncols = target_cols.len() as int;
    assert forall|i: int, j: int| 0 <= i < nrows && 0 <= j < ncols implies 0
        <= #[trigger] back_projection(target_rows, target_cols)[i][j] by {
        let a = target_rows[i];
        let b = target_cols[j];
        assert(0 <= a / ncols && 0 <= b / nrows) by (nonlinear_arith)
            requires
                0 <= a,
                0 <= b,
                nrows > 0,
                ncols > 0,
        ;
    }
}

/// Non-negativity after a sweep: whatever the grid and the targets, no cell
/// of the swept grid is negative.
pub proof fn lemma_adjusted_nonnegative(
    g: Seq<Seq<int>>,
    target_rows: Seq<int>,
    target_cols: Seq<int>,
)
    ensures
        forall|i: int, j: int|
            0 <= i < g.len() && 0 <= j < g[i].len() ==> 0 <= #[trigger] adjusted(
                g,
                target_rows,
                target_cols,
            )[i][j],
{
}

/// Non-negativity of the estimate: no cell of an inferrer's estimate is
/// negative, after it is made and after every sweep.
pub proof fn lemma_estimate_nonnegative(inferrer: ImageInferrer)
    requires
        inferrer.wf(),
    ensures
        forall|i: int, j: int|
            0 <= i < inferrer.estimate().len() && 0 <= j < inferrer.estimate()[i].len() ==> 0
                <= #[trigger] inferrer.estimate()[i][j],
{
}

/// Determinism: two inferrers made from the same targets hold the same
/// estimate, and still do after the same number of sweeps.
pub proof fn lemma_same_targets_same_estimates(
    first: ImageInferrer,
    second: ImageInferrer,
    first_later: ImageInferrer,
    second_later: ImageInferrer,
    sweeps: nat,
)
    requires
        first.target_rows() == second.target_rows(),
        first.target_cols() == second.target_cols(),
        first.estimate() == back_projection(first.target_rows(), first.target_cols()),
        second.estimate() == back_projection(second.target_rows(), second.target_cols()),
        first_later.estimate() == swept(
            first.estimate(),
            first.target_rows(),
            first.target_cols(),
            sweeps,
        ),
        second_later.estimate() == swept(
            second.estimate(),
            second.target_rows(),
            second.target_cols(),
            sweeps,
        ),
    ensures
        first.estimate() == second.estimate(),
        first_later.estimate() == second_later.estimate(),
{
}

/// Fixed point: a grid without negative cells whose projections are the
/// targets is left as it is by a sweep.
pub proof fn lemma_fixed_point(
    g: Seq<Seq<int>>,
    width: nat,
    target_rows: Seq<int>,
    target_cols: Seq<int>,
)
    requires
        is_grid(g, width),
        g.len() > 0,
        width > 0,
        forall|i: int, j: int| 0 <= i < g.len() && 0 <= j < width ==> 0 <= #[trigger] g[i][j],
        target_rows == row_sums(g),
        target_cols == col_sums(g, width),
    ensures
        adjusted(g, target_rows, target_cols) == g,
{
    let nrows = g.len() as int;
    let ncols = width as int;
    assert(0int / ncols == 0 && 0int / nrows == 0) by (nonlinear_arith)
        requires
            ncols > 0,
            nrows > 0,
    ;
    let after_rows = row_pass(g, target_rows);
    assert forall|i: int| 0 <= i < nrows implies #[trigger] after_rows[i] =~= g[i] by {
        assert(row_delta(g, target_rows, i) == 0);
        assert forall|j: int| 0 <= j < ncols implies after_rows[i][j] == g[i][j] by {
            assert(clamp_add(g[i][j], 0) == g[i][j]);
        }
    }
    assert(after_rows =~= g);
    let after_cols = col_pass(g, target_cols);
    assert forall|i: int| 0 <= i < nrows implies #[trigger] after_cols[i] =~= g[i] by {
        assert forall|j: int| 0 <= j < ncols implies after_cols[i][j] == g[i][j] by {
            assert(col_delta(g, target_cols, j) == 0) by {
                assert(target_cols[j] == sum(column(g, j)));
            }
            assert(clamp_add(g[i][j], 0) == g[i][j]);
        }
    }
    assert(after_cols =~= g);
}

/// Fixed point, of an inferrer: where the projections of the estimate are
/// already the targets, a sweep leaves the estimate as it is.
pub proof fn lemma_inferrer_fixed_point(inferrer: ImageInferrer)
    requires
        inferrer.wf(),
        row_sums(inferrer.estimate()) == inferrer.target_rows(),
        col_sums(inferrer.estimate(), inferrer.image_spec().width()) == inferrer.target_cols(),
    ensures
        adjusted(inferrer.estimate(), inferrer.target_rows(), inferrer.target_cols())
            == inferrer.estimate(),
{
    lemma_fixed_point(
        inferrer.estimate(),
        inferrer.image_spec().width(),
        inferrer.target_rows(),
        inferrer.target_cols(),
    );
}

/// Whether `n` divides every entry of the sequence.
pub open spec fn divides_all(n: int, s: Seq<int>) -> bool {
    forall|i: int| 0 <= i < s.len() ==> #[trigger] s[i] % n == 0
}

/// The shares of a sequence: every entry divided by `n`.
pub open spec fn shares(s: Seq<int>, n: int) -> Seq<int> {
    Seq::new(s.len(), |i: int| s[i] / n)
}

/// The sum of a sequence in which every entry is `fixed` plus `n` times the
/// entry of `s` at its place.
proof fn lemma_sum_affine(s: Seq<int>, c: Seq<int>, fixed: int, n: int)
    requires
        c.len() == s.len(),
        forall|i: int| 0 <= i < c.len() ==> #[trigger] c[i] == fixed + n * s[i],
    ensures
        sum(c) == s.len() * fixed + n * sum(s),
    decreases s.len(),
{
    if s.len() > 0 {
        lemma_sum_affine(s.drop_last(), c.drop_last(), fixed, n);
        let k = s.len() as int;
        let rest = sum(s.drop_last());
        let last = s.last();
        assert((k - 1) * fixed + n * rest + (fixed + n * last) == k * fixed + n * (rest + last))
            by (nonlinear_arith);
    } else {
        assert(s.len() * fixed + n * 0 == 0) by (nonlinear_arith)
            requires
                s.len() == 0,
        ;
    }
}

/// The mass of the first estimate: the back projection holds each row share
/// once for every column and each column share once for every row. That is
/// never more than the two target masses together, and exactly as much
/// where every target divides evenly.
pub proof fn lemma_back_projection_mass(target_rows: Seq<int>, target_cols: Seq<int>)
    requires
        target_rows.len() > 0,
        target_cols.len() > 0,
        forall|i: int| 0 <= i < target_rows.len() ==> 0 <= target_rows[i],
        forall|j: int| 0 <= j < target_cols.len() ==> 0 <= target_cols[j],
    ensures
        mass(back_projection(target_rows, target_cols)) == target_cols.len() * sum(
            shares(target_rows, target_cols.len() as int),
        ) + target_rows.len() * sum(shares(target_cols, target_rows.len() as int)),
        mass(back_projection(target_rows, target_cols)) <= sum(target_rows) + sum(target_cols),
        divides_all(target_cols.len() as int, target_rows) && divides_all(
            target_rows.len() as int,
            target_cols,
        ) ==> mass(back_projection(target_rows, target_cols)) == sum(target_rows) + sum(
            target_cols,
        ),
{
    let nrows = target_rows.len() as int;
    let ncols = target_cols.len() as int;
    let g = back_projection(target_rows, target_cols);
    let row_shares = shares(target_rows, ncols);
    let col_shares = shares(target_cols, nrows);
    let across = sum(col_shares);
    assert forall|i: int| 0 <= i < nrows implies #[trigger] row_sums(g)[i] == across + ncols
        * row_shares[i] by {
        assert forall|j: int| 0 <= j < ncols implies #[trigger] g[i][j] == col_shares[j]
            + row_shares[i] by {}
        lemma_sum_shift(col_shares, g[i], row_shares[i]);
        assert(col_shares.len() * row_shares[i] == ncols * row_shares[i]);
    }
    lemma_sum_affine(row_shares, row_sums(g), across, ncols);
    lemma_row_sums_total(g);
    assert(mass(g) == nrows * across + ncols * sum(row_shares));
    lemma_shares_total(target_rows, ncols);
    lemma_shares_total(target_cols, nrows);
}

/// `n` times the shares of a sequence of non-negative entries add up to no
/// more than the entries, and to as much where `n` divides every entry.
proof fn lemma_shares_total(s: Seq<int>, n: int)
    requires
        n > 0,
        forall|i: int| 0 <= i < s.len() ==> 0 <= s[i],
    ensures
        n * sum(shares(s, n)) <= sum(s),
        divides_all(n, s) ==> n * sum(shares(s, n)) == sum(s),
    decreases s.len(),
{
    if s.len() > 0 {
        let rest = s.drop_last();
        lemma_shares_total(rest, n);
        assert(shares(s, n).drop_last() =~= shares(rest, n));
        let last = s.last();
        assert(n * (last / n) <= last && (last % n == 0 ==> n * (last / n) == last))
            by (nonlinear_arith)
            requires
                n > 0,
                last >= 0,
        ;
        let a = sum(shares(rest, n));
        assert(n * (a + last / n) == n * a + n * (last / n)) by (nonlinear_arith);
        if divides_all(n, s) {
            assert forall|i: int| 0 <= i < rest.len() implies #[trigger] rest[i] % n == 0 by {
                assert(rest[i] == s[i]);
            }
            assert(s[s.len() - 1] % n == 0);
        }
    } else {
        assert(n * 0 == 0) by (nonlinear_arith);
    }
}

/// The row pass never carries a row past its target: the sum of each row
/// ends between what it was and the target, and a row that was short ends
/// below the target by less than the number of its cells.
pub proof fn lemma_row_pass_approaches(g: Seq<Seq<int>>, width: nat, targets: Seq<int>, i: int)
    requires
        is_grid(g, width),
        width > 0,
        0 <= i < g.len(),
        forall|j: int| 0 <= j < width ==> 0 <= #[trigger] g[i][j],
    ensures
        sum(g[i]) <= targets[i] ==> sum(g[i]) <= sum(row_pass(g, targets)[i]) <= targets[i]
            && targets[i] - sum(row_pass(g, targets)[i]) < width,
        targets[i] <= sum(g[i]) ==> targets[i] <= sum(row_pass(g, targets)[i]) <= sum(g[i]),
{
    lemma_line_approaches(g[i], row_pass(g, targets)[i], targets[i]);
}

/// The column pass never carries a column past its target: the sum of each
/// column ends between what it was and the target, and a column that was
/// short ends below the target by less than the number of its cells.
pub proof fn lemma_col_pass_approaches(g: Seq<Seq<int>>, width: nat, targets: Seq<int>, j: int)
    requires
        is_grid(g, width),
        g.len() > 0,
        0 <= j < width,
        forall|i: int| 0 <= i < g.len() ==> 0 <= #[trigger] g[i][j],
    ensures
        sum(column(g, j)) <= targets[j] ==> sum(column(g, j)) <= sum(
            column(col_pass(g, targets), j),
        ) <= targets[j] && targets[j] - sum(column(col_pass(g, targets), j)) < g.len(),
        targets[j] <= sum(column(g, j)) ==> targets[j] <= sum(column(col_pass(g, targets), j))
            <= sum(column(g, j)),
{
    lemma_line_approaches(column(g, j), column(col_pass(g, targets), j), targets[j]);
}

/// A line of non-negative cells, each corrected by the line's share of what
/// the line lacks of `target`, ends between its old sum and the target.
proof fn lemma_line_approaches(line: Seq<int>, after: Seq<int>, target: int)
    requires
        line.len() > 0,
        after.len() == line.len(),
        forall|k: int| 0 <= k < line.len() ==> 0 <= #[trigger] line[k],
        forall|k: int|
            0 <= k < line.len() ==> #[trigger] after[k] == clamp_add(
                line[k],
                spread(target - sum(line), line.len() as int),
            ),
    ensures
        sum(line) <= target ==> sum(line) <= sum(after) <= target && target - sum(after)
            < line.len(),
        target <= sum(line) ==> target <= sum(after) <= sum(line),
{
    let n = line.len() as int;
    let diff = target - sum(line);
    let delta = spread(diff, n);
    if diff >= 0 {
        assert(0 <= delta && n * delta <= diff < n * delta + n) by (nonlinear_arith)
            requires
                diff >= 0,
                n > 0,
                delta == diff / n,
        ;
        assert forall|k: int| 0 <= k < n implies #[trigger] after[k] == line[k] + delta by {}
        lemma_sum_shift(line, after, delta);
    } else {
        let cut = (-diff) / n;
        assert(0 <= cut && n * cut <= -diff) by (nonlinear_arith)
            requires
                diff < 0,
                n > 0,
                cut == (-diff) / n,
        ;
        let lowered = Seq::new(line.len(), |k: int| line[k] - cut);
        lemma_sum_shift(line, lowered, -cut);
        assert(n * (-cut) == -(n * cut)) by (nonlinear_arith);
        assert forall|k: int| 0 <= k < n implies #[trigger] lowered[k] <= after[k] by {}
        lemma_sum_monotone(lowered, after);
        assert forall|k: int| 0 <= k < n implies #[trigger] after[k] <= line[k] by {}
        lemma_sum_monotone(after, line);
    }
}

/// How far truncation takes a cell of the first estimate from the exact
/// sum of its two shares: the cell is never above that sum, and less than
/// two stored units below it. Both sides are taken times the number of
/// rows and of columns, so that no quotient is left.
pub proof fn lemma_back_projection_error(
    target_rows: Seq<int>,
    target_cols: Seq<int>,
    i: int,
    j: int,
)
    requires
        0 <= i < target_rows.len(),
        0 <= j < target_cols.len(),
        0 <= target_rows[i],
        0 <= target_cols[j],
    ensures
        ({
            let nrows = target_rows.len() as int;
            let ncols = target_cols.len() as int;
            let cell = back_projection(target_rows, target_cols)[i][j];
            let exact = nrows * target_rows[i] + ncols * target_cols[j];
            nrows * ncols * cell <= exact < nrows * ncols * (cell + 2)
        }),
{
    let nrows = target_rows.len() as int;
    let ncols = target_cols.len() as int;
    let r = target_rows[i];
    let c = target_cols[j];
    let a = r / ncols;
    let b = c / nrows;
    let p = ncols * a;
    let q = nrows * b;
    assert(p <= r < p + ncols) by (nonlinear_arith)
        requires
            ncols > 0,
            r >= 0,
            a == r / ncols,
            p == ncols * a,
    ;
    assert(q <= c < q + nrows) by (nonlinear_arith)
        requires
            nrows > 0,
            c >= 0,
            b == c / nrows,
            q == nrows * b,
    ;
    assert(nrows * p <= nrows * r < nrows * p + nrows * ncols) by (nonlinear_arith)
        requires
            nrows > 0,
            p <= r < p + ncols,
    ;
    assert(ncols * q <= ncols * c < ncols * q + nrows * ncols) by (nonlinear_arith)
        requires
            ncols > 0,
            q <= c < q + nrows,
    ;
    assert(nrows * ncols * (a + b) == nrows * p + ncols * q && nrows * ncols * (a + b + 2)
        == nrows * p + ncols * q + 2 * (nrows * ncols)) by (nonlinear_arith)
        requires
            p == ncols * a,
            q == nrows * b,
    ;
}

/// How far truncation takes a correction from the exact share of a
/// difference: the correction times the number of cells lies between zero
/// and the difference, less than that number of stored units away from it.
pub proof fn lemma_spread_error(diff: int, n: int)
    requires
        n > 0,
    ensures
        diff >= 0 ==> 0 <= n * spread(diff, n) <= diff < n * spread(diff, n) + n,
        diff <= 0 ==> n * spread(diff, n) - n < diff <= n * spread(diff, n) <= 0,
{
    if diff >= 0 {
        let q = diff / n;
        assert(0 <= n * q <= diff < n * q + n) by (nonlinear_arith)
            requires
                n > 0,
                diff >= 0,
                q == diff / n,
        ;
    } else {
        let q = (-diff) / n;
        assert(0 <= n * q <= -diff < n * q + n && n * (-q) == -(n * q)) by (nonlinear_arith)
            requires
                n > 0,
                diff < 0,
                q == (-diff) / n,
        ;
    }
}

} // verus!
