//! The matrix storage, kept in `nalgebra`, and the contracts this crate
//! assumes of the `nalgebra` operations it calls. Nothing in this file is
//! proved; everything else in the crate is proved from it.
use vstd::prelude::*;

verus! {

/// A dynamically sized `nalgebra` matrix of `u64` entries, seen by the
/// verifier only through [`entries`] and [`column_count`].
#[verifier::external_body]
pub struct Matrix {
    inner: nalgebra::DMatrix<u64>,
}

/// The entries of a matrix, row by row.
pub uninterp spec fn entries(m: Matrix) -> Seq<Seq<u64>>;

/// The number of columns of a matrix, which its rows cannot tell when there
/// are none.
pub uninterp spec fn column_count(m: Matrix) -> nat;

/// Every row has as many entries as the matrix has columns.
pub open spec fn rectangular(m: Matrix) -> bool {
    forall|i: int| 0 <= i < entries(m).len() ==> (#[trigger] entries(m)[i]).len() == column_count(m)
}

/// A matrix of this shape, and a vector as long as either side of it, can be
/// allocated: the byte size of its entries stays within `isize::MAX`.
pub open spec fn storable(nrows: nat, ncols: nat) -> bool {
    (if nrows == 0 { 1 } else { nrows }) * (if ncols == 0 { 1 } else { ncols }) * 8 <= isize::MAX
}

/// The inner product of two sequences, taken over the length of the first.
pub open spec fn dot(a: Seq<u64>, b: Seq<u64>) -> int
    decreases a.len(),
{
    if a.len() == 0 {
        0
    } else {
        dot(a.drop_last(), b) + a.last() * b[a.len() - 1]
    }
}

/// `nalgebra::DMatrix::zeros`: a matrix of the given shape with every entry
/// zero. Shapes whose entries `nalgebra` cannot count or allocate are left
/// out.
#[verifier::external_body]
pub(crate) fn zeros(nrows: usize, ncols: usize) -> (m: Matrix)
    requires
        storable(nrows as nat, ncols as nat),
    ensures
        entries(m).len() == nrows,
        column_count(m) == ncols,
        rectangular(m),
        forall|i: int, j: int|
            0 <= i < nrows && 0 <= j < ncols ==> (#[trigger] entries(m)[i][j]) == 0,
{
    Matrix { inner: nalgebra::DMatrix::zeros(nrows, ncols) }
}

/// `nalgebra::Matrix::nrows`: the number of rows.
#[verifier::external_body]
pub(crate) fn nrows(m: &Matrix) -> (n: usize)
    ensures
        n == entries(*m).len(),
{
    m.inner.nrows()
}

/// `nalgebra::Matrix::ncols`: the number of columns.
#[verifier::external_body]
pub(crate) fn ncols(m: &Matrix) -> (n: usize)
    ensures
        n == column_count(*m),
{
    m.inner.ncols()
}

/// `Index<(usize, usize)>::index` of a `nalgebra` matrix: the entry in that
/// row and column. Indices outside the matrix, on which `nalgebra` panics,
/// are left out.
#[verifier::external_body]
pub(crate) fn get(m: &Matrix, i: usize, j: usize) -> (v: u64)
    requires
        i < entries(*m).len(),
        j < column_count(*m),
    ensures
        v == entries(*m)[i as int][j as int],
{
    m.inner[(i, j)]
}

/// `IndexMut<(usize, usize)>::index_mut` of a `nalgebra` matrix, assigned
/// through: the entry in that row and column becomes `v`, the others and the
/// shape stay. Indices outside the matrix, on which `nalgebra` panics, are
/// left out.
#[verifier::external_body]
pub(crate) fn set(m: &mut Matrix, i: usize, j: usize, v: u64)
    requires
        i < entries(*old(m)).len(),
        j < column_count(*old(m)),
    ensures
        entries(*final(m)) == entries(*old(m)).update(
            i as int,
            entries(*old(m))[i as int].update(j as int, v),
        ),
        column_count(*final(m)) == column_count(*old(m)),
{
    m.inner[(i, j)] = v;
}

/// `Mul::mul` of a `nalgebra` matrix and a column vector, which is made of
/// `v` by `DVector::from_column_slice` and handed back as a `Vec`: entry `i`
/// of the product is the inner product of row `i` and the vector. `nalgebra`
/// adds each inner product up term by term in `u64`, so inner products that
/// do not fit are left out, as are vectors of the wrong length and products
/// too long to allocate.
#[verifier::external_body]
pub(crate) fn times(m: &Matrix, v: &Vec<u64>) -> (p: Vec<u64>)
    requires
        rectangular(*m),
        v@.len() == column_count(*m),
        entries(*m).len() * 8 <= isize::MAX,
        forall|i: int|
            0 <= i < entries(*m).len() ==> dot(#[trigger] entries(*m)[i], v@) <= u64::MAX,
    ensures
        p@.len() == entries(*m).len(),
        forall|i: int| 0 <= i < entries(*m).len() ==> (#[trigger] p@[i]) == dot(entries(*m)[i], v@),
{
    let product = &m.inner * nalgebra::DVector::from_column_slice(v);
    product.as_slice().to_vec()
}

/// `nalgebra::Matrix::transpose`: a matrix in which rows and columns have
/// changed places.
#[verifier::external_body]
pub(crate) fn transpose(m: &Matrix) -> (t: Matrix)
    requires
        rectangular(*m),
    ensures
        entries(t).len() == column_count(*m),
        column_count(t) == entries(*m).len(),
        rectangular(t),
        forall|i: int, j: int|
            0 <= i < entries(*m).len() && 0 <= j < column_count(*m) ==> (#[trigger] entries(
                t,
            )[j][i]) == entries(*m)[i][j],
{
    Matrix { inner: m.inner.transpose() }
}

/// `Clone::clone` of a `nalgebra` matrix: a matrix of the same shape and
/// entries.
#[verifier::external_body]
pub(crate) fn duplicate(m: &Matrix) -> (c: Matrix)
    ensures
        entries(c) == entries(*m),
        column_count(c) == column_count(*m),
{
    Matrix { inner: m.inner.clone() }
}

/// `nalgebra::Matrix::apply`: every entry is replaced by a result of `f` on
/// it; the shape stays.
#[verifier::external_body]
pub(crate) fn apply<F: Fn(u64) -> u64>(m: &mut Matrix, f: F)
    requires
        forall|i: int, j: int|
            0 <= i < entries(*old(m)).len() && 0 <= j < entries(*old(m))[i].len() ==> call_requires(
                f,
                (#[trigger] entries(*old(m))[i][j],),
            ),
    ensures
        entries(*final(m)).len() == entries(*old(m)).len(),
        column_count(*final(m)) == column_count(*old(m)),
        forall|i: int|
            0 <= i < entries(*old(m)).len() ==> (#[trigger] entries(*final(m))[i]).len() == entries(
                *old(m),
            )[i].len(),
        forall|i: int, j: int|
            0 <= i < entries(*old(m)).len() && 0 <= j < entries(*old(m))[i].len() ==> call_ensures(
                f,
                (entries(*old(m))[i][j],),
                #[trigger] entries(*final(m))[i][j],
            ),
{
    m.inner.apply(|e| *e = f(*e));
}

/// `nalgebra::DMatrix::from_fn`: a matrix of the given shape whose entry in
/// row `i` and column `j` is a result of `f(i, j)`. Shapes whose entries
/// `nalgebra` cannot count or allocate are left out.
#[verifier::external_body]
pub(crate) fn from_fn<F: Fn(usize, usize) -> u64>(nrows: usize, ncols: usize, f: F) -> (m: Matrix)
    requires
        storable(nrows as nat, ncols as nat),
        forall|i: usize, j: usize| i < nrows && j < ncols ==> call_requires(f, (i, j)),
    ensures
        entries(m).len() == nrows,
        column_count(m) == ncols,
        rectangular(m),
        forall|i: usize, j: usize|
            i < nrows && j < ncols ==> call_ensures(
                f,
                (i, j),
                #[trigger] entries(m)[i as int][j as int],
            ),
{
    Matrix { inner: nalgebra::DMatrix::from_fn(nrows, ncols, f) }
}

} // verus!
