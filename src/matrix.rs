//! Square matrices of counts, held in nalgebra's `DMatrix<u32>`.
//!
//! Verus sees a matrix through its view: its rows, each a sequence of
//! entries, so that `m@[i][j]` is the entry at row `i`, column `j`.
use nalgebra::DMatrix;
use vstd::prelude::*;

verus! {

/// A matrix of `u32` counts, held in nalgebra's `DMatrix<u32>`. Verus cannot
/// declare nalgebra's storage type, so the matrix is held here out of its
/// sight, and every access goes through the functions below, whose contracts
/// rest on nalgebra's indexing, `zeros` and addition.
#[verifier::external_body]
#[derive(Debug, PartialEq)]
pub struct SquareMatrix {
    inner: DMatrix<u32>,
}

/// The entries of a matrix, row by row.
pub uninterp spec fn matrix_cells(m: SquareMatrix) -> Seq<Seq<u32>>;

impl View for SquareMatrix {
    type V = Seq<Seq<u32>>;

    open spec fn view(&self) -> Seq<Seq<u32>> {
        matrix_cells(*self)
    }
}

/// `m` has `n` rows of `n` entries each.
pub open spec fn is_square(m: Seq<Seq<u32>>, n: nat) -> bool {
    &&& m.len() == n
    &&& forall|i: int| 0 <= i < n ==> (#[trigger] m[i]).len() == n
}

impl SquareMatrix {
    /// Relies on `DMatrix::zeros`: an `n` by `n` matrix whose entries are all 0.
    #[verifier::external_body]
    pub(crate) fn zeros(n: usize) -> (r: SquareMatrix)
        ensures
            is_square(matrix_cells(r), n as nat),
            forall|i: int, j: int|
                0 <= i < n && 0 <= j < n ==> #[trigger] matrix_cells(r)[i][j] == 0,
    {
        SquareMatrix { inner: DMatrix::zeros(n, n) }
    }

    /// Relies on `Matrix::nrows`: the number of rows.
    #[verifier::external_body]
    pub(crate) fn nrows(&self) -> (r: usize)
        ensures
            r == matrix_cells(*self).len(),
    {
        self.inner.nrows()
    }

    /// Relies on indexing a matrix by `(row, column)`.
    #[verifier::external_body]
    pub(crate) fn get(&self, i: usize, j: usize) -> (r: u32)
        requires
            i < matrix_cells(*self).len(),
            j < matrix_cells(*self)[i as int].len(),
        ensures
            r == matrix_cells(*self)[i as int][j as int],
    {
        self.inner[(i, j)]
    }

    /// Relies on assigning through a mutable index `(row, column)`: that one
    /// entry changes, and nothing else.
    #[verifier::external_body]
    pub(crate) fn set(&mut self, i: usize, j: usize, v: u32)
        requires
            i < matrix_cells(*old(self)).len(),
            j < matrix_cells(*old(self))[i as int].len(),
        ensures
            matrix_cells(*final(self)) == matrix_cells(*old(self)).update(
                i as int,
                matrix_cells(*old(self))[i as int].update(j as int, v),
            ),
    {
        self.inner[(i, j)] = v;
    }

    /// The `n` by `n` matrix whose row `i` is `entries[i * n .. (i + 1) * n]`.
    pub fn from_row_slice(n: usize, entries: &[u32]) -> (r: SquareMatrix)
        requires
            entries@.len() == n * n,
        ensures
            is_square(r@, n as nat),
            forall|i: int, j: int|
                0 <= i < n && 0 <= j < n ==> #[trigger] r@[i][j] == entries@[i * n + j],
    {
        let total = entries.len();
        let mut m = SquareMatrix::zeros(n);
        let mut i: usize = 0;
        while i < n
            invariant
                total == entries@.len(),
                entries@.len() == n * n,
                i <= n,
                is_square(m@, n as nat),
                forall|a: int, b: int|
                    0 <= a < i && 0 <= b < n ==> #[trigger] m@[a][b] == entries@[a * n + b],
            decreases n - i,
        {
            let mut j: usize = 0;
            while j < n
                invariant
                    total == entries@.len(),
                    entries@.len() == n * n,
                    i < n,
                    j <= n,
                    is_square(m@, n as nat),
                    forall|a: int, b: int|
                        0 <= a < i && 0 <= b < n ==> #[trigger] m@[a][b] == entries@[a * n + b],
                    forall|b: int| 0 <= b < j ==> #[trigger] m@[i as int][b] == entries@[i * n + b],
                decreases n - j,
            {
                proof {
                    assert(i * n + j < n * n) by (nonlinear_arith)
                        requires
                            i < n,
                            j < n,
                    ;
                    assert(i * n + j < total);
                    assert(0 <= i * n) by (nonlinear_arith);
                }
                m.set(i, j, entries[i * n + j]);
                j = j + 1;
            }
            i = i + 1;
        }
        m
    }

    /// The entries, row by row.
    pub fn to_rows(&self) -> (r: Vec<Vec<u32>>)
        requires
            is_square(self@, self@.len()),
        ensures
            r@.len() == self@.len(),
            forall|i: int| 0 <= i < r@.len() ==> (#[trigger] r@[i])@ == self@[i],
    {
        let n = self.nrows();
        let mut rows: Vec<Vec<u32>> = Vec::new();
        let mut i: usize = 0;
        while i < n
            invariant
                n == self@.len(),
                is_square(self@, self@.len()),
                i <= n,
                rows@.len() == i,
                forall|a: int| 0 <= a < i ==> (#[trigger] rows@[a])@ == self@[a],
            decreases n - i,
        {
            let mut row: Vec<u32> = Vec::new();
            let mut j: usize = 0;
            while j < n
                invariant
                    n == self@.len(),
                    is_square(self@, self@.len()),
                    i < n,
                    j <= n,
                    row@ == self@[i as int].take(j as int),
                decreases n - j,
            {
                row.push(self.get(i, j));
                proof {
                    assert(self@[i as int].take(j + 1) =~= self@[i as int].take(j as int).push(
                        self@[i as int][j as int],
                    ));
                }
                j = j + 1;
            }
            assert(self@[i as int].take(n as int) =~= self@[i as int]);
            rows.push(row);
            i = i + 1;
        }
        rows
    }

    /// Relies on `&a + &b` for matrices of one shape: the entrywise sum, which
    /// must not overflow.
    #[verifier::external_body]
    pub(crate) fn sum(&self, b: &SquareMatrix, n: usize) -> (r: SquareMatrix)
        requires
            is_square(matrix_cells(*self), n as nat),
            is_square(matrix_cells(*b), n as nat),
            forall|i: int, j: int|
                0 <= i < n && 0 <= j < n ==> #[trigger] matrix_cells(*self)[i][j]
                    + matrix_cells(*b)[i][j] <= u32::MAX,
        ensures
            is_square(matrix_cells(r), n as nat),
            forall|i: int, j: int|
                0 <= i < n && 0 <= j < n ==> #[trigger] matrix_cells(r)[i][j] == matrix_cells(
                    *self,
                )[i][j] + matrix_cells(*b)[i][j],
    {
        SquareMatrix { inner: &self.inner + &b.inner }
    }
}

} // verus!
