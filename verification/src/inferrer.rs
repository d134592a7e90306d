//! The inferrer: an estimate of an image that is known only by its two
//! projections, first made by back projection and then improved sweep by
//! sweep.
use vstd::prelude::*;
use crate::image::{cell_limit, lemma_cell_limit_range, Image};
use crate::matrix::storable;
use crate::sums::{
    as_ints, col_sums, column, is_grid, lemma_entry_at_most_sum, row_sums, sum, within,
};

verus! {

/// A difference spread evenly over `n` cells: the quotient, truncated
/// towards zero.
pub open spec fn spread(diff: int, n: int) -> int {
    if diff >= 0 {
        diff / n
    } else {
        -((-diff) / n)
    }
}

/// A cell after a correction, kept from going below zero.
pub open spec fn clamp_add(cell: int, delta: int) -> int {
    if cell + delta < 0 {
        0
    } else {
        cell + delta
    }
}

/// Row `i` with `delta` added to every cell.
pub open spec fn nudged_row(g: Seq<Seq<int>>, i: int, delta: int) -> Seq<int> {
    Seq::new(g[i].len(), |j: int| clamp_add(g[i][j], delta))
}

/// Column `j` of the grid with `delta` added to every cell of it.
pub open spec fn nudged_col(g: Seq<Seq<int>>, j: int, delta: int) -> Seq<Seq<int>> {
    Seq::new(g.len(), |i: int| g[i].update(j, clamp_add(g[i][j], delta)))
}

/// The correction `amount`, upwards where `gain` holds and downwards where
/// it does not.
pub open spec fn signed(gain: bool, amount: u64) -> int {
    if gain {
        amount as int
    } else {
        -(amount as int)
    }
}

/// The correction that the row pass applies to the cells of row `i`.
pub open spec fn row_delta(g: Seq<Seq<int>>, targets: Seq<int>, i: int) -> int {
    spread(targets[i] - sum(g[i]), g[i].len() as int)
}

/// The correction that the column pass applies to the cells of column `j`.
pub open spec fn col_delta(g: Seq<Seq<int>>, targets: Seq<int>, j: int) -> int {
    spread(targets[j] - sum(column(g, j)), g.len() as int)
}

/// The grid after the row pass: what each row lacks of its target is spread
/// over its cells.
pub open spec fn row_pass(g: Seq<Seq<int>>, targets: Seq<int>) -> Seq<Seq<int>> {
    Seq::new(g.len(), |i: int| nudged_row(g, i, row_delta(g, targets, i)))
}

/// The grid after the column pass: what each column lacks of its target is
/// spread over its cells.
pub open spec fn col_pass(g: Seq<Seq<int>>, targets: Seq<int>) -> Seq<Seq<int>> {
    Seq::new(
        g.len(),
        |i: int| Seq::new(g[i].len(), |j: int| clamp_add(g[i][j], col_delta(g, targets, j))),
    )
}

/// One sweep: the row pass, then the column pass on its result.
pub open spec fn adjusted(g: Seq<Seq<int>>, target_rows: Seq<int>, target_cols: Seq<int>) -> Seq<
    Seq<int>,
> {
    col_pass(row_pass(g, target_rows), target_cols)
}

/// The grid after `n` sweeps.
pub open spec fn swept(
    g: Seq<Seq<int>>,
    target_rows: Seq<int>,
    target_cols: Seq<int>,
    n: nat,
) -> Seq<Seq<int>>
    decreases n,
{
    if n == 0 {
        g
    } else {
        adjusted(swept(g, target_rows, target_cols, (n - 1) as nat), target_rows, target_cols)
    }
}

/// The back projection of two target projections: each row target spread
/// evenly over the cells of its row, plus each column target spread evenly
/// over the cells of its column.
pub open spec fn back_projection(target_rows: Seq<int>, target_cols: Seq<int>) -> Seq<Seq<int>> {
    Seq::new(
        target_rows.len(),
        |i: int|
            Seq::new(
                target_cols.len(),
                |j: int|
                    target_rows[i] / (target_cols.len() as int) + target_cols[j] / (
                    target_rows.len() as int),
            ),
    )
}

/// Every entry lies between zero and `bound`.
pub open spec fn all_within(s: Seq<int>, bound: int) -> bool {
    forall|i: int| 0 <= i < s.len() ==> 0 <= #[trigger] s[i] <= bound
}

/// The targets that an inferrer can hold: an image of their shape can be
/// stored, and neither a target nor a cell of their back projection exceeds
/// the cell limit of that shape.
pub open spec fn admissible(target_rows: Seq<int>, target_cols: Seq<int>) -> bool {
    let limit = cell_limit(target_rows.len(), target_cols.len());
    &&& storable(target_rows.len(), target_cols.len())
    &&& all_within(target_rows, limit)
    &&& all_within(target_cols, limit)
    &&& within(back_projection(target_rows, target_cols), limit)
}

/// Why no inferrer was made.
#[derive(Debug, Clone, Copy, PartialEq, Eq)]
pub enum InferError {
    /// A target projection is empty.
    DimensionMismatch,
    /// The targets are not admissible: the estimate could not be stored, or
    /// its projections could leave the range of `u64`.
    TooLarge,
}

/// Adds `amount` to every cell of row `i`, or takes it away where `gain` is
/// false, stopping at zero.
fn nudge_row(image: &mut Image, i: usize, gain: bool, amount: u64)
    requires
        old(image).wf(),
        i < old(image).height(),
        gain ==> forall|j: int|
            0 <= j < old(image).width() ==> #[trigger] old(image)@[i as int][j] + amount <= old(
                image,
            ).limit(),
    ensures
        final(image).wf(),
        final(image).width() == old(image).width(),
        final(image)@ == old(image)@.update(
            i as int,
            nudged_row(old(image)@, i as int, signed(gain, amount)),
        ),
{
    let ncols: usize = image.ncols();
    let ghost before = image@;
    let ghost delta = signed(gain, amount);
    let mut j: usize = 0;
    while j < ncols
        invariant
            j <= ncols,
            image.wf(),
            ncols == image.width(),
            image.width() == old(image).width(),
            before == old(image)@,
            delta == signed(gain, amount),
            i < before.len(),
            image@.len() == before.len(),
            image.limit() == old(image).limit(),
            before[i as int].len() == ncols,
            gain ==> forall|k: int|
                0 <= k < ncols ==> #[trigger] before[i as int][k] + amount <= image.limit(),
            forall|r: int| 0 <= r < before.len() && r != i ==> image@[r] == before[r],
            forall|k: int|
                0 <= k < j ==> image@[i as int][k] == clamp_add(before[i as int][k], delta),
            forall|k: int| j <= k < ncols ==> image@[i as int][k] == before[i as int][k],
        decreases ncols - j,
    {
        let cell: u64 = image.get(i, j);
        proof {
            lemma_cell_limit_range(image.height(), image.width());
            assert(cell == before[i as int][j as int]);
            assert(0 <= image@[i as int][j as int] <= image.limit());
        }
        let next: u64 = if gain {
            cell + amount
        } else if cell > amount {
            cell - amount
        } else {
            0
        };
        image.set(i, j, next);
        j = j + 1;
    }
    proof {
        let expected = before.update(i as int, nudged_row(before, i as int, delta));
        assert forall|r: int| 0 <= r < image@.len() implies image@[r] =~= expected[r] by {}
        assert(image@ =~= expected);
    }
}

/// Adds `amount` to every cell of column `j`, or takes it away where `gain`
/// is false, stopping at zero.
fn nudge_col(image: &mut Image, j: usize, gain: bool, amount: u64)
    requires
        old(image).wf(),
        j < old(image).width(),
        gain ==> forall|i: int|
            0 <= i < old(image).height() ==> #[trigger] old(image)@[i][j as int] + amount <= old(
                image,
            ).limit(),
    ensures
        final(image).wf(),
        final(image).width() == old(image).width(),
        final(image)@ == nudged_col(old(image)@, j as int, signed(gain, amount)),
{
    let nrows: usize = image.nrows();
    let ghost before = image@;
    let ghost delta = signed(gain, amount);
    let mut i: usize = 0;
    while i < nrows
        invariant
            i <= nrows,
            image.wf(),
            nrows == image.height(),
            image.width() == old(image).width(),
            before == old(image)@,
            delta == signed(gain, amount),
            j < image.width(),
            is_grid(before, image.width()),
            image@.len() == before.len(),
            image.limit() == old(image).limit(),
            gain ==> forall|r: int|
                0 <= r < nrows ==> #[trigger] before[r][j as int] + amount <= image.limit(),
            forall|r: int| 0 <= r < i ==> image@[r] == before[r].update(
                j as int,
                clamp_add(before[r][j as int], delta),
            ),
            forall|r: int| i <= r < nrows ==> image@[r] == before[r],
        decreases nrows - i,
    {
        let cell: u64 = image.get(i, j);
        proof {
            lemma_cell_limit_range(image.height(), image.width());
            assert(cell == before[i as int][j as int]);
            assert(0 <= image@[i as int][j as int] <= image.limit());
        }
        let next: u64 = if gain {
            cell + amount
        } else if cell > amount {
            cell - amount
        } else {
            0
        };
        image.set(i, j, next);
        i = i + 1;
    }
    proof {
        assert(image@ =~= nudged_col(before, j as int, delta));
    }
}

/// Whether every entry of `v` is at most `bound`.
fn all_at_most(v: &Vec<u64>, bound: u64) -> (b: bool)
    ensures
        b == all_within(as_ints(v@), bound as int),
{
    let mut k: usize = 0;
    while k < v.len()
        invariant
            k <= v.len(),
            forall|i: int| 0 <= i < k ==> v@[i] <= bound,
        decreases v.len() - k,
    {
        if v[k] > bound {
            proof {
                assert(as_ints(v@)[k as int] > bound);
            }
            return false;
        }
        k = k + 1;
    }
    proof {
        assert forall|i: int| 0 <= i < as_ints(v@).len() implies 0 <= #[trigger] as_ints(v@)[i]
            <= bound by {
            assert(v@[i] <= bound);
        }
    }
    true
}

/// Whether `amount` can be added to every cell of column `j` without
/// passing the cell limit.
fn column_has_room(image: &Image, j: usize, amount: u64) -> (b: bool)
    requires
        image.wf(),
        j < image.width(),
    ensures
        b == forall|i: int|
            0 <= i < image.height() ==> #[trigger] image@[i][j as int] + amount <= image.limit(),
{
    let nrows: usize = image.nrows();
    let limit: u64 = image.max_cell();
    let mut i: usize = 0;
    while i < nrows
        invariant
            i <= nrows,
            image.wf(),
            nrows == image.height(),
            j < image.width(),
            limit == image.limit(),
            forall|r: int| 0 <= r < i ==> #[trigger] image@[r][j as int] + amount <= limit,
        decreases nrows - i,
    {
        let cell: u64 = image.get(i, j);
        proof {
            assert(0 <= image@[i as int][j as int] <= image.limit());
        }
        if amount > limit - cell {
            proof {
                assert(image@[i as int][j as int] + amount > image.limit());
            }
            return false;
        }
        i = i + 1;
    }
    true
}

/// An estimate of an image, with the row and column projections that it is
/// meant to reach.
pub struct ImageInferrer {
    image: Image,
    rows_proj: Vec<u64>,
    cols_proj: Vec<u64>,
}

impl ImageInferrer {
    /// The image that holds the estimate.
    pub closed spec fn image_spec(&self) -> Image {
        self.image
    }

    /// The cells of the estimate, row by row.
    pub open spec fn estimate(&self) -> Seq<Seq<int>> {
        self.image_spec()@
    }

    /// The row sums that the estimate is meant to reach.
    pub closed spec fn target_rows(&self) -> Seq<int> {
        as_ints(self.rows_proj@)
    }

    /// The column sums that the estimate is meant to reach.
    pub closed spec fn target_cols(&self) -> Seq<int> {
        as_ints(self.cols_proj@)
    }

    /// What holds of every inferrer: the estimate is an image with one row
    /// for each row target and one column for each column target, there is
    /// at least one of each, and no target exceeds the cell limit.
    pub open spec fn wf(&self) -> bool {
        &&& self.image_spec().wf()
        &&& self.image_spec().height() == self.target_rows().len()
        &&& self.image_spec().width() == self.target_cols().len()
        &&& self.target_rows().len() > 0
        &&& self.target_cols().len() > 0
        &&& all_within(self.target_rows(), self.image_spec().limit())
        &&& all_within(self.target_cols(), self.image_spec().limit())
    }

    /// The estimate.
    pub fn image(&self) -> (img: &Image)
        ensures
            *img == self.image_spec(),
    {
        &self.image
    }

    /// The row targets.
    pub fn rows_proj(&self) -> (t: &Vec<u64>)
        ensures
            as_ints(t@) == self.target_rows(),
    {
        &self.rows_proj
    }

    /// The column targets.
    pub fn cols_proj(&self) -> (t: &Vec<u64>)
        ensures
            as_ints(t@) == self.target_cols(),
    {
        &self.cols_proj
    }

    /// Makes an inferrer for the given targets, with their back projection
    /// as its first estimate: the cell in row `i` and column `j` holds the
    /// share of row target `i` in each column plus the share of column
    /// target `j` in each row. Fails with `DimensionMismatch` where either
    /// sequence of targets is empty, and with `TooLarge` where the targets
    /// are not [`admissible`].
    pub fn infer_by_back_projection(rows_proj: Vec<u64>, cols_proj: Vec<u64>) -> (r: Result<
        ImageInferrer,
        InferError,
    >)
        ensures
            match r {
                Ok(inferrer) => {
                    &&& rows_proj@.len() > 0
                    &&& cols_proj@.len() > 0
                    &&& admissible(as_ints(rows_proj@), as_ints(cols_proj@))
                    &&& inferrer.wf()
                    &&& inferrer.target_rows() == as_ints(rows_proj@)
                    &&& inferrer.target_cols() == as_ints(cols_proj@)
                    &&& inferrer.estimate() == back_projection(
                        as_ints(rows_proj@),
                        as_ints(cols_proj@),
                    )
                },
                Err(InferError::DimensionMismatch) => rows_proj@.len() == 0 || cols_proj@.len()
                    == 0,
                Err(InferError::TooLarge) => {
                    &&& rows_proj@.len() > 0
                    &&& cols_proj@.len() > 0
                    &&& !admissible(as_ints(rows_proj@), as_ints(cols_proj@))
                },
            },
    {
        let nrows: usize = rows_proj.len();
        let ncols: usize = cols_proj.len();
        if nrows == 0 || ncols == 0 {
            return Err(InferError::DimensionMismatch);
        }
        let ghost tr = as_ints(rows_proj@);
        let ghost tc = as_ints(cols_proj@);
        let mut image = match Image::zeros(nrows, ncols) {
            None => {
                return Err(InferError::TooLarge);
            },
            Some(image) => image,
        };
        let limit: u64 = image.max_cell();
        if !all_at_most(&rows_proj, limit) || !all_at_most(&cols_proj, limit) {
            return Err(InferError::TooLarge);
        }
        let mut ri: usize = 0;
        while ri < nrows
            invariant
                ri <= nrows,
                nrows == rows_proj@.len(),
                ncols == cols_proj@.len(),
                ncols > 0,
                tr == as_ints(rows_proj@),
                image.wf(),
                image.height() == nrows,
                image.width() == ncols,
                limit == image.limit(),
                all_within(tr, limit as int),
                forall|i: int, j: int|
                    0 <= i < ri && 0 <= j < ncols ==> #[trigger] image@[i][j] == tr[i] / (
                    ncols as int),
                forall|i: int, j: int|
                    ri <= i < nrows && 0 <= j < ncols ==> #[trigger] image@[i][j] == 0,
            decreases nrows - ri,
        {
            let mean: u64 = rows_proj[ri] / (ncols as u64);
            proof {
                assert(tr[ri as int] == rows_proj@[ri as int]);
                assert(mean <= tr[ri as int] <= limit);
            }
            nudge_row(&mut image, ri, true, mean);
            ri = ri + 1;
        }
        let mut cj: usize = 0;
        while cj < ncols
            invariant
                cj <= ncols,
                nrows == rows_proj@.len(),
                ncols == cols_proj@.len(),
                nrows > 0,
                tr == as_ints(rows_proj@),
                tc == as_ints(cols_proj@),
                image.wf(),
                image.height() == nrows,
                image.width() == ncols,
                limit == image.limit(),
                forall|i: int, j: int|
                    0 <= i < nrows && 0 <= j < cj ==> #[trigger] image@[i][j] == tr[i] / (
                    ncols as int) + tc[j] / (nrows as int),
                forall|i: int, j: int|
                    0 <= i < nrows && cj <= j < ncols ==> #[trigger] image@[i][j] == tr[i] / (
                    ncols as int),
            decreases ncols - cj,
        {
            let mean: u64 = cols_proj[cj] / (nrows as u64);
            proof {
                assert(tc[cj as int] == cols_proj@[cj as int]);
            }
            if !column_has_room(&image, cj, mean) {
                proof {
                    let i = choose|i: int|
                        0 <= i < image.height() && !(#[trigger] image@[i][cj as int] + mean
                            <= image.limit());
                    assert(back_projection(tr, tc)[i][cj as int] > limit);
                }
                return Err(InferError::TooLarge);
            }
            nudge_col(&mut image, cj, true, mean);
            cj = cj + 1;
        }
        proof {
            assert forall|i: int| 0 <= i < nrows implies #[trigger] image@[i] =~= back_projection(
                tr,
                tc,
            )[i] by {
                assert forall|j: int| 0 <= j < ncols implies image@[i][j] == back_projection(
                    tr,
                    tc,
                )[i][j] by {}
            }
            assert(image@ =~= back_projection(tr, tc));
        }
        Ok(ImageInferrer { image, rows_proj, cols_proj })
    }

    /// The row pass of a sweep.
    fn adjust_rows(&mut self)
        requires
            old(self).wf(),
        ensures
            final(self).wf(),
            final(self).target_rows() == old(self).target_rows(),
            final(self).target_cols() == old(self).target_cols(),
            final(self).estimate() == row_pass(old(self).estimate(), old(self).target_rows()),
    {
        let computed = self.image.rows_projection();
        let nrows: usize = self.image.nrows();
        let ncols: usize = self.image.ncols();
        let ghost before = self.image@;
        let ghost targets = self.target_rows();
        assert(computed@.len() == as_ints(computed@).len());
        let mut ri: usize = 0;
        while ri < nrows
            invariant
                ri <= nrows,
                self.wf(),
                nrows == self.image.height(),
                ncols == self.image.width(),
                self.image.limit() == old(self).image.limit(),
                before == old(self).estimate(),
                targets == old(self).target_rows(),
                self.target_rows() == targets,
                self.target_cols() == old(self).target_cols(),
                is_grid(before, ncols as nat),
                within(before, self.image.limit()),
                before.len() == nrows,
                as_ints(computed@) == row_sums(before),
                computed@.len() == nrows,
                forall|i: int|
                    0 <= i < ri ==> #[trigger] self.image@[i] == row_pass(before, targets)[i],
                forall|i: int| ri <= i < nrows ==> #[trigger] self.image@[i] == before[i],
            decreases nrows - ri,
        {
            let target: u64 = self.rows_proj[ri];
            let have: u64 = computed[ri];
            proof {
                assert(target == targets[ri as int]);
                assert(have == as_ints(computed@)[ri as int]);
                assert(have == sum(before[ri as int]));
            }
            let gain: bool = target >= have;
            let amount: u64 = if gain {
                (target - have) / (ncols as u64)
            } else {
                (have - target) / (ncols as u64)
            };
            proof {
                assert(signed(gain, amount) == row_delta(before, targets, ri as int));
                if gain {
                    lemma_spread_fits(before[ri as int], target as int, ncols as int);
                }
            }
            nudge_row(&mut self.image, ri, gain, amount);
            ri = ri + 1;
        }
        proof {
            assert(self.image@ =~= row_pass(before, targets));
        }
    }

    /// The column pass of a sweep.
    fn adjust_cols(&mut self)
        requires
            old(self).wf(),
        ensures
            final(self).wf(),
            final(self).target_rows() == old(self).target_rows(),
            final(self).target_cols() == old(self).target_cols(),
            final(self).estimate() == col_pass(old(self).estimate(), old(self).target_cols()),
    {
        let computed = self.image.cols_projection();
        let nrows: usize = self.image.nrows();
        let ncols: usize = self.image.ncols();
        let ghost before = self.image@;
        let ghost targets = self.target_cols();
        assert(computed@.len() == as_ints(computed@).len());
        let mut cj: usize = 0;
        while cj < ncols
            invariant
                cj <= ncols,
                self.wf(),
                nrows == self.image.height(),
                ncols == self.image.width(),
                self.image.limit() == old(self).image.limit(),
                before == old(self).estimate(),
                targets == old(self).target_cols(),
                self.target_cols() == targets,
                self.target_rows() == old(self).target_rows(),
                is_grid(before, ncols as nat),
                within(before, self.image.limit()),
                before.len() == nrows,
                as_ints(computed@) == col_sums(before, ncols as nat),
                computed@.len() == ncols,
                forall|i: int, j: int|
                    0 <= i < nrows && 0 <= j < cj ==> #[trigger] self.image@[i][j] == clamp_add(
                        before[i][j],
                        col_delta(before, targets, j),
                    ),
                forall|i: int, j: int|
                    0 <= i < nrows && cj <= j < ncols ==> #[trigger] self.image@[i][j]
                        == before[i][j],
            decreases ncols - cj,
        {
            let target: u64 = self.cols_proj[cj];
            let have: u64 = computed[cj];
            proof {
                assert(target == targets[cj as int]);
                assert(have == as_ints(computed@)[cj as int]);
                assert(have == sum(column(before, cj as int)));
            }
            let gain: bool = target >= have;
            let amount: u64 = if gain {
                (target - have) / (nrows as u64)
            } else {
                (have - target) / (nrows as u64)
            };
            proof {
                assert(signed(gain, amount) == col_delta(before, targets, cj as int));
                if gain {
                    lemma_spread_fits(column(before, cj as int), target as int, nrows as int);
                    assert forall|i: int| 0 <= i < nrows implies #[trigger] self.image@[i][cj
                        as int] + amount <= self.image.limit() by {
                        assert(self.image@[i][cj as int] == column(before, cj as int)[i]);
                    }
                }
            }
            nudge_col(&mut self.image, cj, gain, amount);
            cj = cj + 1;
        }
        proof {
            assert forall|i: int| 0 <= i < nrows implies #[trigger] self.image@[i] =~= col_pass(
                before,
                targets,
            )[i] by {}
            assert(self.image@ =~= col_pass(before, targets));
        }
    }

    /// One sweep over the estimate: each row, then each column, has what it
    /// lacks of its target spread evenly over its cells, and no cell goes
    /// below zero. The column pass works on what the row pass left.
    pub fn adjust(&mut self)
        requires
            old(self).wf(),
        ensures
            final(self).wf(),
            final(self).target_rows() == old(self).target_rows(),
            final(self).target_cols() == old(self).target_cols(),
            final(self).estimate() == adjusted(
                old(self).estimate(),
                old(self).target_rows(),
                old(self).target_cols(),
            ),
    {
        self.adjust_rows();
        self.adjust_cols();
    }

    /// As many sweeps as `times` says, one after the other.
    pub fn sweep(&mut self, times: usize)
        requires
            old(self).wf(),
        ensures
            final(self).wf(),
            final(self).target_rows() == old(self).target_rows(),
            final(self).target_cols() == old(self).target_cols(),
            final(self).estimate() == swept(
                old(self).estimate(),
                old(self).target_rows(),
                old(self).target_cols(),
                times as nat,
            ),
    {
        let mut done: usize = 0;
        while done < times
            invariant
                done <= times,
                self.wf(),
                self.target_rows() == old(self).target_rows(),
                self.target_cols() == old(self).target_cols(),
                self.estimate() == swept(
                    old(self).estimate(),
                    old(self).target_rows(),
                    old(self).target_cols(),
                    done as nat,
                ),
            decreases times - done,
        {
            self.adjust();
            done = done + 1;
        }
    }
}

/// Where a line of non-negative cells has `n` cells and falls short of its
/// target, each cell with its share of the shortfall is still at most the
/// target.
proof fn lemma_spread_fits(line: Seq<int>, target: int, n: int)
    requires
        forall|k: int| 0 <= k < line.len() ==> 0 <= #[trigger] line[k],
        line.len() == n,
        sum(line) <= target,
    ensures
        forall|k: int|
            0 <= k < line.len() ==> #[trigger] line[k] + (target - sum(line)) / n <= target,
{
    assert forall|k: int| 0 <= k < line.len() implies #[trigger] line[k] + (target - sum(line)) / n
        <= target by {
        lemma_entry_at_most_sum(line, k);
        let diff = target - sum(line);
        assert(diff / n <= diff) by (nonlinear_arith)
            requires
                diff >= 0,
                n >= 1,
        ;
    }
}

} // verus!
