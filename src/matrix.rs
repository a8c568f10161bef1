use vstd::prelude::*;
use vstd::arithmetic::div_mod::{lemma_fundamental_div_mod, lemma_fundamental_div_mod_converse};

verus! {

/// Errors of matrix access and inversion.
#[derive(Debug, Clone, Copy, PartialEq, Eq, Structural)]
pub enum MatrixError {
    /// A row or column index lies outside the matrix.
    OutOfMatrixBorder,
    /// The matrix has a determinant of zero.
    MatrixNotInvertible,
    /// A 2x2 matrix has no submatrix.
    No2x2Submatrix,
}

/// True when `(row, col)` addresses a cell of a square matrix of the given order.
pub open spec fn in_bounds(order: nat, row: int, col: int) -> bool {
    0 <= row < order && 0 <= col < order
}

/// Index `i` of a submatrix maps to index `skip(i, k)` of the matrix it was
/// cut from, where `k` is the removed row or column.
pub open spec fn skip(i: int, k: int) -> int {
    if i < k {
        i
    } else {
        i + 1
    }
}

/// Cells are stored row by row: `(row, col)` lives at `row * order + col`.
pub proof fn lemma_cell_index(order: int, row: int, col: int)
    requires
        0 <= row < order,
        0 <= col < order,
    ensures
        0 <= row * order + col < order * order,
        (row * order + col) / order == row,
        (row * order + col) % order == col,
{
    assert(row * order <= (order - 1) * order) by (nonlinear_arith)
        requires
            0 <= row < order,
    ;
    assert((order - 1) * order == order * order - order) by (nonlinear_arith);
    assert(0 <= row * order) by (nonlinear_arith)
        requires
            0 <= row,
            0 < order,
    ;
    lemma_fundamental_div_mod_converse(row * order + col, order, row, col);
}

/// Checks that `(row, col)` addresses a cell of a square matrix of order `order`.
pub fn check_bounds(order: usize, row: usize, col: usize) -> (r: Result<(), MatrixError>)
    ensures
        r is Ok <==> in_bounds(order as nat, row as int, col as int),
        r is Err ==> r == Err::<(), MatrixError>(MatrixError::OutOfMatrixBorder),
{
    if row >= order || col >= order {
        Err(MatrixError::OutOfMatrixBorder)
    } else {
        Ok(())
    }
}

/// The sign of the cofactor at `(row, col)`: `(-1)^(row + col)`.
pub fn cofactor_sign(row: usize, col: usize) -> (r: i8)
    ensures
        r == (if (row + col) % 2 == 0 { 1i8 } else { -1i8 }),
{
    if (row % 2 == 0) == (col % 2 == 0) {
        1
    } else {
        -1
    }
}

/// A square matrix of any cell type, stored row by row.
pub struct SquareMatrix<T> {
    order: usize,
    cells: Vec<T>,
}

impl<T> SquareMatrix<T> {
    /// The number of rows, which is also the number of columns.
    pub closed spec fn dim(&self) -> nat {
        self.order as nat
    }

    /// All cells, row by row.
    pub closed spec fn cells(&self) -> Seq<T> {
        self.cells@
    }

    /// The cells fill the square exactly.
    pub open spec fn wf(&self) -> bool {
        self.cells().len() == self.dim() * self.dim()
    }

    /// The cell at `(row, col)`.
    pub open spec fn at(&self, row: int, col: int) -> T {
        self.cells()[row * self.dim() + col]
    }
}

impl<T: Copy> SquareMatrix<T> {
    /// The matrix of the given order with every cell set to `value`.
    pub fn filled(order: usize, value: T) -> (m: Self)
        requires
            order * order <= usize::MAX,
        ensures
            m.wf(),
            m.dim() == order,
            forall|i: int| 0 <= i < m.cells().len() ==> m.cells()[i] == value,
    {
        let n: usize = order * order;
        let mut cells: Vec<T> = Vec::new();
        while cells.len() < n
            invariant
                cells@.len() <= n,
                forall|i: int| 0 <= i < cells@.len() ==> cells@[i] == value,
            decreases n - cells@.len(),
        {
            cells.push(value);
        }
        SquareMatrix { order, cells }
    }

    /// The matrix of the given order with `one` on the diagonal and `zero` elsewhere.
    pub fn identity(order: usize, zero: T, one: T) -> (m: Self)
        requires
            order * order <= usize::MAX,
        ensures
            m.wf(),
            m.dim() == order,
            forall|r: int, c: int|
                in_bounds(order as nat, r, c) ==> #[trigger] m.at(r, c) == (if r == c {
                    one
                } else {
                    zero
                }),
    {
        let mut cells: Vec<T> = Vec::new();
        let mut r: usize = 0;
        while r < order
            invariant
                r <= order,
                order * order <= usize::MAX,
                cells@.len() == r * order,
                forall|k: int|
                    0 <= k < cells@.len() ==> #[trigger] cells@[k] == (if k / (order as int) == k
                        % (order as int) {
                        one
                    } else {
                        zero
                    }),
            decreases order - r,
        {
            let mut c: usize = 0;
            while c < order
                invariant
                    r < order,
                    c <= order,
                    order * order <= usize::MAX,
                    cells@.len() == r * order + c,
                    forall|k: int|
                        0 <= k < cells@.len() ==> #[trigger] cells@[k] == (if k / (order as int)
                            == k % (order as int) {
                            one
                        } else {
                            zero
                        }),
                decreases order - c,
            {
                proof {
                    lemma_cell_index(order as int, r as int, c as int);
                }
                if r == c {
                    cells.push(one);
                } else {
                    cells.push(zero);
                }
                c = c + 1;
            }
            proof {
                assert((r + 1) * order == r * order + order) by (nonlinear_arith);
            }
            r = r + 1;
        }
        let m = SquareMatrix { order, cells };
        assert forall|r: int, c: int| in_bounds(order as nat, r, c) implies #[trigger] m.at(r, c)
            == (if r == c {
            one
        } else {
            zero
        }) by {
            lemma_cell_index(order as int, r, c);
        }
        m
    }

    /// The matrix of the given order whose cells, row by row, are `cells`;
    /// `OutOfMatrixBorder` when there are not exactly `order * order` of them.
    pub fn from_cells(order: usize, cells: Vec<T>) -> (r: Result<Self, MatrixError>)
        ensures
            r is Ok <==> cells@.len() == order * order,
            r matches Ok(m) ==> m.wf() && m.dim() == order && m.cells() == cells@,
            r is Err ==> r->Err_0 == MatrixError::OutOfMatrixBorder,
    {
        let len = cells.len();
        if order == 0 {
            if len == 0 {
                Ok(SquareMatrix { order, cells })
            } else {
                Err(MatrixError::OutOfMatrixBorder)
            }
        } else if len / order == order && len % order == 0 {
            proof {
                lemma_fundamental_div_mod(len as int, order as int);
            }
            Ok(SquareMatrix { order, cells })
        } else {
            proof {
                if len == order * order {
                    lemma_fundamental_div_mod_converse(len as int, order as int, order as int, 0);
                }
            }
            Err(MatrixError::OutOfMatrixBorder)
        }
    }

    /// The number of rows (and of columns).
    pub fn order(&self) -> (r: usize)
        ensures
            r == self.dim(),
    {
        self.order
    }

    /// All cells, row by row.
    pub fn to_cells(&self) -> (r: Vec<T>)
        ensures
            r@ == self.cells(),
    {
        let mut out: Vec<T> = Vec::new();
        let mut i: usize = 0;
        while i < self.cells.len()
            invariant
                i <= self.cells@.len(),
                out@ == self.cells@.take(i as int),
            decreases self.cells@.len() - i,
        {
            out.push(self.cells[i]);
            proof {
                assert(self.cells@.take(i + 1) =~= self.cells@.take(i as int).push(self.cells@[i as int]));
            }
            i = i + 1;
        }
        assert(self.cells@.take(i as int) =~= self.cells@);
        out
    }

    /// The cell at `(row, col)`, or `OutOfMatrixBorder`.
    pub fn get(&self, row: usize, col: usize) -> (r: Result<T, MatrixError>)
        requires
            self.wf(),
        ensures
            r is Ok <==> in_bounds(self.dim(), row as int, col as int),
            r matches Ok(v) ==> v == self.at(row as int, col as int),
            r is Err ==> r->Err_0 == MatrixError::OutOfMatrixBorder,
    {
        match check_bounds(self.order, row, col) {
            Ok(()) => {
                let len = self.cells.len();
                proof {
                    lemma_cell_index(self.order as int, row as int, col as int);
                }
                Ok(self.cells[row * self.order + col])
            },
            Err(e) => Err(e),
        }
    }

    /// Writes `value` at `(row, col)`; `OutOfMatrixBorder`, with the matrix
    /// unchanged, when the cell does not exist.
    pub fn set(&mut self, row: usize, col: usize, value: T) -> (r: Result<(), MatrixError>)
        requires
            old(self).wf(),
        ensures
            final(self).wf(),
            r is Ok <==> in_bounds(old(self).dim(), row as int, col as int),
            final(self).dim() == old(self).dim(),
            r is Ok ==> final(self).cells() == old(self).cells().update(
                row * old(self).dim() + col,
                value,
            ),
            r is Err ==> r->Err_0 == MatrixError::OutOfMatrixBorder && final(self).cells() == old(
                self,
            ).cells(),
    {
        match check_bounds(self.order, row, col) {
            Ok(()) => {
                let len = self.cells.len();
                proof {
                    lemma_cell_index(self.order as int, row as int, col as int);
                }
                let i = row * self.order + col;
                self.cells.set(i, value);
                Ok(())
            },
            Err(e) => Err(e),
        }
    }
    /// The matrix with rows and columns swapped.
    pub fn transpose(&self) -> (m: Self)
        requires
            self.wf(),
        ensures
            m.wf(),
            m.dim() == self.dim(),
            forall|r: int, c: int|
                in_bounds(self.dim(), r, c) ==> #[trigger] m.at(r, c) == self.at(c, r),
    {
        let n = self.order;
        let total = self.cells.len();
        let mut cells: Vec<T> = Vec::new();
        let mut r: usize = 0;
        while r < n
            invariant
                r <= n,
                n == self.dim(),
                total == n * n,
                self.wf(),
                cells@.len() == r * n,
                forall|k: int|
                    0 <= k < cells@.len() ==> #[trigger] cells@[k] == self.at(
                        k % (n as int),
                        k / (n as int),
                    ),
            decreases n - r,
        {
            let mut c: usize = 0;
            while c < n
                invariant
                    r < n,
                    c <= n,
                    n == self.dim(),
                    total == n * n,
                    self.wf(),
                    cells@.len() == r * n + c,
                    forall|k: int|
                        0 <= k < cells@.len() ==> #[trigger] cells@[k] == self.at(
                            k % (n as int),
                            k / (n as int),
                        ),
                decreases n - c,
            {
                proof {
                    lemma_cell_index(n as int, r as int, c as int);
                    lemma_cell_index(n as int, c as int, r as int);
                }
                cells.push(self.cells[c * n + r]);
                c = c + 1;
            }
            proof {
                assert((r + 1) * n == r * n + n) by (nonlinear_arith);
            }
            r = r + 1;
        }
        let m = SquareMatrix { order: n, cells };
        assert forall|r: int, c: int| in_bounds(self.dim(), r, c) implies #[trigger] m.at(r, c)
            == self.at(c, r) by {
            lemma_cell_index(n as int, r, c);
        }
        m
    }

    /// The matrix with row `row` and column `col` removed: `No2x2Submatrix`
    /// for a matrix of order 2 or less, `OutOfMatrixBorder` when the cell
    /// does not exist.
    pub fn submatrix(&self, row: usize, col: usize) -> (r: Result<Self, MatrixError>)
        requires
            self.wf(),
        ensures
            self.dim() <= 2 ==> r == Err::<Self, MatrixError>(MatrixError::No2x2Submatrix),
            self.dim() > 2 && !in_bounds(self.dim(), row as int, col as int) ==> r == Err::<
                Self,
                MatrixError,
            >(MatrixError::OutOfMatrixBorder),
            r is Ok <==> self.dim() > 2 && in_bounds(self.dim(), row as int, col as int),
            r matches Ok(m) ==> {
                &&& m.wf()
                &&& m.dim() == self.dim() - 1
                &&& forall|i: int, j: int|
                    in_bounds(m.dim(), i, j) ==> #[trigger] m.at(i, j) == self.at(
                        skip(i, row as int),
                        skip(j, col as int),
                    )
            },
    {
        let n = self.order;
        if n <= 2 {
            return Err(MatrixError::No2x2Submatrix);
        }
        if let Err(e) = check_bounds(n, row, col) {
            return Err(e);
        }
        let total = self.cells.len();
        let d: usize = n - 1;
        proof {
            assert(d * d <= n * n) by (nonlinear_arith)
                requires
                    d < n,
            ;
        }
        let mut cells: Vec<T> = Vec::new();
        let mut i: usize = 0;
        while i < d
            invariant
                i <= d,
                d == n - 1,
                n == self.dim(),
                n > 2,
                row < n,
                col < n,
                total == n * n,
                self.wf(),
                cells@.len() == i * d,
                forall|k: int|
                    0 <= k < cells@.len() ==> #[trigger] cells@[k] == self.at(
                        skip(k / (d as int), row as int),
                        skip(k % (d as int), col as int),
                    ),
            decreases d - i,
        {
            let si: usize = if i < row {
                i
            } else {
                i + 1
            };
            let mut j: usize = 0;
            while j < d
                invariant
                    i < d,
                    j <= d,
                    d == n - 1,
                    n == self.dim(),
                    n > 2,
                    row < n,
                    col < n,
                    si == skip(i as int, row as int),
                    total == n * n,
                    self.wf(),
                    cells@.len() == i * d + j,
                    forall|k: int|
                        0 <= k < cells@.len() ==> #[trigger] cells@[k] == self.at(
                            skip(k / (d as int), row as int),
                            skip(k % (d as int), col as int),
                        ),
                decreases d - j,
            {
                let sj: usize = if j < col {
                    j
                } else {
                    j + 1
                };
                proof {
                    lemma_cell_index(d as int, i as int, j as int);
                    lemma_cell_index(n as int, si as int, sj as int);
                }
                cells.push(self.cells[si * n + sj]);
                j = j + 1;
            }
            proof {
                assert((i + 1) * d == i * d + d) by (nonlinear_arith);
            }
            i = i + 1;
        }
        let m = SquareMatrix { order: d, cells };
        assert forall|a: int, b: int| in_bounds(m.dim(), a, b) implies #[trigger] m.at(a, b)
            == self.at(skip(a, row as int), skip(b, col as int)) by {
            lemma_cell_index(d as int, a, b);
        }
        Ok(m)
    }
}

} // verus!
