//! The image: a rectangular grid of non-negative fixed-point cells, with its
//! two projections.
use vstd::prelude::*;
use crate::matrix::{column_count, dot, entries, rectangular, storable, Matrix};
use crate::sums::{
    as_ints, col_sums, column, is_grid, lemma_dot_ones, lemma_sum_bounds, row_sums, sum, within,
};

verus! {

/// The stored value of the number one: a cell counts 65536ths of a unit.
pub const ONE: u64 = 65536;

/// The largest value a cell of an image of the given shape may hold: the
/// largest whole number of units such that the sum of any row or column
/// still fits in a `u64`.
pub open spec fn cell_limit(nrows: nat, ncols: nat) -> int {
    (u64::MAX as int / longer_side(nrows, ncols)) / (ONE as int) * (ONE as int)
}

/// The longer side of a shape, counted as one where both are zero.
pub open spec fn longer_side(nrows: nat, ncols: nat) -> int {
    if nrows >= ncols && nrows > 0 {
        nrows as int
    } else if ncols > 0 {
        ncols as int
    } else {
        1
    }
}

/// A rectangular array of non-negative fixed-point numbers.
pub struct Image {
    data: Matrix,
}

impl View for Image {
    type V = Seq<Seq<int>>;

    /// The cells, row by row.
    closed spec fn view(&self) -> Seq<Seq<int>> {
        Seq::new(entries(self.data).len(), |i: int| as_ints(entries(self.data)[i]))
    }
}

impl Image {
    /// The number of columns.
    pub closed spec fn width(&self) -> nat {
        column_count(self.data)
    }

    /// The number of rows.
    pub open spec fn height(&self) -> nat {
        self@.len()
    }

    /// The largest value a cell of this image may hold.
    pub open spec fn limit(&self) -> int {
        cell_limit(self.height(), self.width())
    }

    /// What holds of every image: all rows have the same number of cells,
    /// the shape can be stored, and every cell lies between zero and the
    /// limit of the shape.
    pub open spec fn wf(&self) -> bool {
        &&& is_grid(self@, self.width())
        &&& storable(self.height(), self.width())
        &&& within(self@, self.limit())
    }

    proof fn lemma_rectangular(&self)
        requires
            is_grid(self@, self.width()),
        ensures
            rectangular(self.data),
    {
        assert forall|i: int| 0 <= i < entries(self.data).len() implies (#[trigger] entries(
            self.data,
        )[i]).len() == column_count(self.data) by {
            assert(self@[i].len() == entries(self.data)[i].len());
        }
    }

    /// The image that holds the entries of `data`.
    pub(crate) fn new(data: Matrix) -> (img: Image)
        requires
            rectangular(data),
            storable(entries(data).len(), column_count(data)),
            forall|i: int, j: int|
                0 <= i < entries(data).len() && 0 <= j < column_count(data) ==> (#[trigger] entries(
                    data,
                )[i][j]) <= cell_limit(entries(data).len(), column_count(data)),
        ensures
            img.wf(),
            img.height() == entries(data).len(),
            img.width() == column_count(data),
            forall|i: int, j: int|
                0 <= i < img.height() && 0 <= j < img.width() ==> (#[trigger] img@[i][j])
                    == entries(data)[i][j],
    {
        let img = Image { data };
        proof {
            assert forall|i: int, j: int|
                0 <= i < img@.len() && 0 <= j < img@[i].len() implies 0 <= (#[trigger] img@[i][j])
                <= img.limit() by {
                assert(img@[i][j] == entries(data)[i][j]);
            }
        }
        img
    }

    /// An image of the given shape with every cell zero, or `None` where
    /// that shape cannot be stored.
    pub fn zeros(nrows: usize, ncols: usize) -> (r: Option<Image>)
        ensures
            r is Some <==> storable(nrows as nat, ncols as nat),
            r matches Some(img) ==> {
                &&& img.wf()
                &&& img.height() == nrows
                &&& img.width() == ncols
                &&& forall|i: int, j: int|
                    0 <= i < nrows && 0 <= j < ncols ==> (#[trigger] img@[i][j]) == 0
            },
    {
        if !can_store(nrows, ncols) {
            return None;
        }
        let data = crate::matrix::zeros(nrows, ncols);
        proof {
            lemma_cell_limit_range(nrows as nat, ncols as nat);
        }
        Some(Image::new(data))
    }

    /// The number of rows.
    pub fn nrows(&self) -> (n: usize)
        ensures
            n == self.height(),
    {
        crate::matrix::nrows(&self.data)
    }

    /// The number of columns.
    pub fn ncols(&self) -> (n: usize)
        ensures
            n == self.width(),
    {
        crate::matrix::ncols(&self.data)
    }

    /// The largest value that [`Image::set`] accepts for this image.
    pub fn max_cell(&self) -> (v: u64)
        ensures
            v == self.limit(),
    {
        max_cell_of(self.nrows(), self.ncols())
    }

    /// The cell in row `i` and column `j`.
    pub fn get(&self, i: usize, j: usize) -> (v: u64)
        requires
            self.wf(),
            i < self.height(),
            j < self.width(),
        ensures
            v == self@[i as int][j as int],
    {
        crate::matrix::get(&self.data, i, j)
    }

    /// Stores `v` in row `i` and column `j`; every other cell stays.
    pub fn set(&mut self, i: usize, j: usize, v: u64)
        requires
            old(self).wf(),
            i < old(self).height(),
            j < old(self).width(),
            v <= old(self).limit(),
        ensures
            final(self).wf(),
            final(self).width() == old(self).width(),
            final(self)@ == old(self)@.update(
                i as int,
                old(self)@[i as int].update(j as int, v as int),
            ),
    {
        crate::matrix::set(&mut self.data, i, j, v);
        proof {
            let before = old(self)@;
            let after = self@;
            let expected = before.update(i as int, before[i as int].update(j as int, v as int));
            assert(after.len() == expected.len());
            assert forall|r: int| 0 <= r < after.len() implies after[r] =~= expected[r] by {
                if r == i {
                    assert(entries(self.data)[r] == entries(old(self).data)[r].update(j as int, v));
                } else {
                    assert(entries(self.data)[r] == entries(old(self).data)[r]);
                }
            }
            assert(after =~= expected);
        }
    }

    /// The row projection: entry `i` is the sum of row `i`. It is the product
    /// of the image and a vector of ones.
    pub fn rows_projection(&self) -> (p: Vec<u64>)
        requires
            self.wf(),
        ensures
            as_ints(p@) == row_sums(self@),
    {
        let ones = ones(self.ncols());
        proof {
            self.lemma_rectangular();
            lemma_cell_limit_range(self.height(), self.width());
            lemma_storable_sides(self.height(), self.width());
            assert forall|i: int| 0 <= i < entries(self.data).len() implies dot(
                #[trigger] entries(self.data)[i],
                ones@,
            ) == sum(self@[i]) && sum(self@[i]) <= u64::MAX by {
                lemma_dot_ones(entries(self.data)[i], ones@);
                lemma_sum_bounds(self@[i], self.limit());
                lemma_side_bound(
                    self@[i].len() as int,
                    longer_side(self.height(), self.width()),
                    self.limit(),
                );
            }
        }
        let p = crate::matrix::times(&self.data, &ones);
        proof {
            assert(as_ints(p@) =~= row_sums(self@));
        }
        p
    }

    /// The column projection: entry `j` is the sum of column `j`. It is the
    /// product of the transposed image and a vector of ones.
    pub fn cols_projection(&self) -> (p: Vec<u64>)
        requires
            self.wf(),
        ensures
            as_ints(p@) == col_sums(self@, self.width()),
    {
        proof {
            self.lemma_rectangular();
        }
        let turned = crate::matrix::transpose(&self.data);
        let ones = ones(self.nrows());
        proof {
            lemma_cell_limit_range(self.height(), self.width());
            lemma_storable_sides(self.height(), self.width());
            assert forall|j: int| 0 <= j < entries(turned).len() implies dot(
                #[trigger] entries(turned)[j],
                ones@,
            ) == sum(column(self@, j)) && sum(column(self@, j)) <= u64::MAX by {
                lemma_dot_ones(entries(turned)[j], ones@);
                assert(as_ints(entries(turned)[j]) =~= column(self@, j)) by {
                    assert forall|i: int| 0 <= i < self.height() implies as_ints(
                        entries(turned)[j],
                    )[i] == column(self@, j)[i] by {
                        assert(entries(turned)[j][i] == entries(self.data)[i][j]);
                    }
                }
                lemma_sum_bounds(column(self@, j), self.limit());
                lemma_side_bound(
                    self.height() as int,
                    longer_side(self.height(), self.width()),
                    self.limit(),
                );
            }
        }
        let p = crate::matrix::times(&turned, &ones);
        proof {
            assert(as_ints(p@) =~= col_sums(self@, self.width()));
        }
        p
    }

    /// Replaces every cell by what `f` makes of it.
    pub(crate) fn apply<F: Fn(u64) -> u64>(&mut self, f: F)
        requires
            old(self).wf(),
            forall|v: u64| v <= old(self).limit() ==> call_requires(f, (v,)),
            forall|v: u64, r: u64|
                v <= old(self).limit() && call_ensures(f, (v,), r) ==> r <= old(self).limit(),
        ensures
            final(self).wf(),
            final(self).width() == old(self).width(),
            final(self).height() == old(self).height(),
            forall|i: int, j: int|
                0 <= i < old(self).height() && 0 <= j < old(self).width() ==> call_ensures(
                    f,
                    (old(self)@[i][j] as u64,),
                    (#[trigger] final(self)@[i][j]) as u64,
                ),
    {
        proof {
            lemma_cell_limit_range(self.height(), self.width());
            assert forall|i: int, j: int|
                0 <= i < entries(self.data).len() && 0 <= j < entries(
                    self.data,
                )[i].len() implies call_requires(f, (#[trigger] entries(self.data)[i][j],)) by {
                assert(self@[i][j] == entries(self.data)[i][j]);
            }
        }
        crate::matrix::apply(&mut self.data, f);
        proof {
            assert forall|i: int, j: int|
                0 <= i < old(self).height() && 0 <= j < old(self).width() implies call_ensures(
                f,
                (old(self)@[i][j] as u64,),
                (#[trigger] self@[i][j]) as u64,
            ) && 0 <= self@[i][j] <= self.limit() by {
                assert(old(self)@[i][j] == entries(old(self).data)[i][j]);
                assert(self@[i][j] == entries(self.data)[i][j]);
                assert(call_ensures(
                    f,
                    (entries(old(self).data)[i][j],),
                    entries(self.data)[i][j],
                ));
            }
            assert forall|i: int| 0 <= i < self@.len() implies (#[trigger] self@[i]).len()
                == self.width() by {
                assert(entries(self.data)[i].len() == entries(old(self).data)[i].len());
                assert(old(self)@[i].len() == self.width());
            }
            assert(is_grid(self@, self.width()));
            assert(within(self@, self.limit()));
        }
    }

    /// A copy with every cell rounded to the nearest whole number of units,
    /// halves upwards.
    pub fn round(&self) -> (r: Image)
        requires
            self.wf(),
        ensures
            r.wf(),
            r.width() == self.width(),
            r@ == rounded_grid(self@),
    {
        let mut r = self.clone();
        let nearest = |v: u64| -> (w: u64)
            requires
                v <= u64::MAX - ONE / 2,
            ensures
                w == rounded(v as int),
            { round_cell(v) };
        proof {
            lemma_cell_limit_range(self.height(), self.width());
            assert forall|v: u64, w: u64|
                v <= r.limit() && call_ensures(nearest, (v,), w) implies w <= r.limit() by {
                lemma_rounded_within(v as int, r.limit());
            }
        }
        r.apply(nearest);
        proof {
            assert forall|i: int| 0 <= i < r@.len() implies #[trigger] r@[i] =~= rounded_grid(
                self@,
            )[i] by {
                assert forall|j: int| 0 <= j < r@[i].len() implies r@[i][j] == rounded(
                    self@[i][j],
                ) by {
                    assert(call_ensures(nearest, (self@[i][j] as u64,), r@[i][j] as u64));
                }
            }
            assert(r@ =~= rounded_grid(self@));
        }
        r
    }
}

impl Clone for Image {
    /// A copy with the same shape and cells.
    fn clone(&self) -> (c: Self)
        ensures
            c@ == self@,
            c.width() == self.width(),
    {
        Image { data: crate::matrix::duplicate(&self.data) }
    }
}

/// A value rounded to the nearest whole number of units, halves upwards.
pub open spec fn rounded(v: int) -> int {
    (v + ONE / 2) / (ONE as int) * (ONE as int)
}

/// A grid with every cell rounded.
pub open spec fn rounded_grid(g: Seq<Seq<int>>) -> Seq<Seq<int>> {
    Seq::new(g.len(), |i: int| Seq::new(g[i].len(), |j: int| rounded(g[i][j])))
}

/// Rounds a value to the nearest whole number of units, halves upwards.
pub fn round_cell(v: u64) -> (r: u64)
    requires
        v <= u64::MAX - ONE / 2,
    ensures
        r == rounded(v as int),
{
    (v + ONE / 2) / ONE * ONE
}

/// Rounding stays between zero and any whole bound above the value.
pub proof fn lemma_rounded_within(v: int, bound: int)
    requires
        0 <= v <= bound,
        bound % (ONE as int) == 0,
    ensures
        0 <= rounded(v) <= bound,
{
}

/// Whether a matrix of this shape can be stored.
pub fn can_store(nrows: usize, ncols: usize) -> (b: bool)
    ensures
        b == storable(nrows as nat, ncols as nat),
{
    let r: usize = if nrows == 0 { 1 } else { nrows };
    let c: usize = if ncols == 0 { 1 } else { ncols };
    match r.checked_mul(c) {
        None => {
            assert(r * c * 8 > isize::MAX) by (nonlinear_arith)
                requires
                    r * c > usize::MAX,
                    usize::MAX >= isize::MAX,
            ;
            false
        },
        Some(cells) => match cells.checked_mul(8) {
            None => false,
            Some(bytes) => bytes <= isize::MAX as usize,
        },
    }
}

/// The largest value a cell of an image of the given shape may hold.
pub fn max_cell_of(nrows: usize, ncols: usize) -> (v: u64)
    ensures
        v == cell_limit(nrows as nat, ncols as nat),
{
    let longer: usize = if nrows >= ncols { nrows } else { ncols };
    let side: u64 = if longer == 0 { 1 } else { longer as u64 };
    (u64::MAX / side) / ONE * ONE
}

/// The cell limit is a `u64`, and leaves room for half a unit above it.
pub proof fn lemma_cell_limit_range(nrows: nat, ncols: nat)
    ensures
        0 <= cell_limit(nrows, ncols) <= u64::MAX - ONE + 1,
        cell_limit(nrows, ncols) % (ONE as int) == 0,
        longer_side(nrows, ncols) * cell_limit(nrows, ncols) <= u64::MAX,
{
    let side = longer_side(nrows, ncols);
    let per_side = u64::MAX as int / side;
    assert(0 <= per_side <= u64::MAX && side * per_side <= u64::MAX) by (nonlinear_arith)
        requires
            side >= 1,
            per_side == u64::MAX as int / side,
    ;
    let limit = cell_limit(nrows, ncols);
    assert(limit <= per_side);
    assert(side * limit <= side * per_side) by (nonlinear_arith)
        requires
            side >= 1,
            0 <= limit <= per_side,
    ;
}

/// A vector of `n` ones.
fn ones(n: usize) -> (v: Vec<u64>)
    ensures
        v@.len() == n,
        forall|i: int| 0 <= i < n ==> v@[i] == 1,
{
    let mut v: Vec<u64> = Vec::new();
    let mut k: usize = 0;
    while k < n
        invariant
            k <= n,
            v@.len() == k,
            forall|i: int| 0 <= i < k ==> v@[i] == 1,
        decreases n - k,
    {
        v.push(1);
        k = k + 1;
    }
    v
}

/// Either side of a storable shape is the length of a storable vector.
pub proof fn lemma_storable_sides(nrows: nat, ncols: nat)
    requires
        storable(nrows, ncols),
    ensures
        nrows * 8 <= isize::MAX,
        ncols * 8 <= isize::MAX,
{
    let r: int = if nrows == 0 { 1 } else { nrows as int };
    let c: int = if ncols == 0 { 1 } else { ncols as int };
    assert(r * 8 <= r * c * 8 && c * 8 <= r * c * 8) by (nonlinear_arith)
        requires
            r >= 1,
            c >= 1,
    ;
}

/// As many cells as a side is long, each within the limit, add up to no
/// more than the longer side times the limit.
proof fn lemma_side_bound(len: int, side: int, limit: int)
    requires
        0 <= len <= side,
        0 <= limit,
    ensures
        len * limit <= side * limit,
{
    assert(len * limit <= side * limit) by (nonlinear_arith)
        requires
            0 <= len <= side,
            0 <= limit,
    ;
}

} // verus!
