//! A matrix stored as one flat vector, row after row: the value at row `i`
//! and column `j` sits at index `i * cols + j`.

use vstd::prelude::*;
use vstd::slice::slice_subrange;

verus! {

/// A matrix of `rows` rows of `cols` values, stored row-major in one vector.
pub struct Matrix<T> {
    data: Vec<T>,
    rows: usize,
    cols: usize,
}

/// Row `i` of a row-major layout with `c` columns ends within a layout of
/// `r` rows.
proof fn lemma_row_index(i: int, c: int, r: int)
    requires
        0 <= i < r,
        0 <= c,
    ensures
        0 <= i * c,
        i * c + c <= r * c,
{
    assert(0 <= i * c) by (nonlinear_arith)
        requires
            0 <= i,
            0 <= c,
    ;
    assert(i * c + c <= r * c) by (nonlinear_arith)
        requires
            i < r,
            0 <= c,
    ;
}

/// The value at row `i`, column `j` of a row-major layout with `c` columns
/// lies inside a layout of `r` rows, and no other cell shares its index.
proof fn lemma_cell_index(i: int, j: int, c: int, r: int)
    requires
        0 <= i < r,
        0 <= j < c,
    ensures
        0 <= i * c,
        i * c + j < r * c,
        i * c + c <= r * c,
        forall|i2: int, j2: int|
            0 <= i2 && 0 <= j2 < c && i2 != i ==> #[trigger] (i2 * c + j2) != i * c + j,
{
    lemma_row_index(i, c, r);
    assert forall|i2: int, j2: int| 0 <= i2 && 0 <= j2 < c && i2 != i implies #[trigger] (i2 * c
        + j2) != i * c + j by {
        if i2 < i {
            assert(i2 * c + c <= i * c) by (nonlinear_arith)
                requires
                    i2 < i,
                    0 <= c,
            ;
        } else {
            assert(i * c + c <= i2 * c) by (nonlinear_arith)
                requires
                    i < i2,
                    0 <= c,
            ;
        }
    }
}

impl<T> View for Matrix<T> {
    type V = Seq<Seq<T>>;

    /// The rows of the matrix.
    closed spec fn view(&self) -> Seq<Seq<T>> {
        Seq::new(
            self.rows as nat,
            |i: int| self.data@.subrange(i * self.cols, i * self.cols + self.cols),
        )
    }
}

impl<T: Copy> Matrix<T> {
    /// The number of columns, also when there is no row to show it.
    pub closed spec fn spec_cols(&self) -> nat {
        self.cols as nat
    }

    /// The flat storage holds exactly `rows * cols` values.
    pub closed spec fn wf(&self) -> bool {
        self.data@.len() == self.rows * self.cols
    }

    /// Flattens the rows of `matrix_data`, which must all have the length of
    /// the first, into a matrix.
    pub fn new(matrix_data: Vec<Vec<T>>) -> (r: Matrix<T>)
        requires
            forall|i: int|
                0 <= i < matrix_data@.len() ==> (#[trigger] matrix_data@[i])@.len()
                    == matrix_data@[0]@.len(),
        ensures
            r.wf(),
            r@ == matrix_data@.map_values(|row: Vec<T>| row@),
            r.spec_cols() == if matrix_data@.len() == 0 {
                0
            } else {
                matrix_data@[0]@.len()
            },
    {
        let rows = matrix_data.len();
        let cols = if rows == 0 {
            0
        } else {
            matrix_data[0].len()
        };
        let mut data: Vec<T> = Vec::new();
        let mut i: usize = 0;
        while i < rows
            invariant
                rows == matrix_data@.len(),
                rows > 0 ==> cols == matrix_data@[0]@.len(),
                forall|k: int|
                    0 <= k < matrix_data@.len() ==> (#[trigger] matrix_data@[k])@.len()
                        == matrix_data@[0]@.len(),
                i <= rows,
                data@.len() == i * cols,
                forall|a: int, b: int|
                    0 <= a < i && 0 <= b < cols ==> #[trigger] data@[a * cols + b]
                        == matrix_data@[a]@[b],
            decreases rows - i,
        {
            let row = &matrix_data[i];
            let mut j: usize = 0;
            while j < row.len()
                invariant
                    rows == matrix_data@.len(),
                    cols == matrix_data@[0]@.len(),
                    row@.len() == cols,
                    *row == matrix_data@[i as int],
                    i < rows,
                    j <= cols,
                    data@.len() == i * cols + j,
                    forall|a: int, b: int|
                        0 <= a < i && 0 <= b < cols ==> #[trigger] data@[a * cols + b]
                            == matrix_data@[a]@[b],
                    forall|b: int| 0 <= b < j ==> #[trigger] data@[i * cols + b] == row@[b],
                decreases cols - j,
            {
                let ghost before = data@;
                data.push(row[j]);
                proof {
                    assert forall|a: int, b: int| 0 <= a < i && 0 <= b < cols implies #[trigger] data@[a
                        * cols + b] == matrix_data@[a]@[b] by {
                        lemma_cell_index(a, b, cols as int, i as int);
                        assert(data@[a * cols + b] == before[a * cols + b]);
                    }
                }
                j += 1;
            }
            proof {
                assert((i + 1) * cols == i * cols + cols) by (nonlinear_arith);
                assert forall|a: int, b: int| 0 <= a < i + 1 && 0 <= b < cols implies #[trigger] data@[a
                    * cols + b] == matrix_data@[a]@[b] by {
                    if a == i {
                        assert(data@[i * cols + b] == row@[b]);
                    }
                }
            }
            i += 1;
        }
        let m = Matrix { data, rows, cols };
        proof {
            assert forall|a: int| 0 <= a < rows implies #[trigger] m@[a] =~= matrix_data@[a]@ by {
                lemma_row_index(a, cols as int, rows as int);
                assert forall|b: int| 0 <= b < cols implies m@[a][b] == matrix_data@[a]@[b] by {
                    lemma_cell_index(a, b, cols as int, rows as int);
                    assert(m@[a][b] == m.data@[a * cols + b]);
                }
            }
            assert(m@ =~= matrix_data@.map_values(|row: Vec<T>| row@));
        }
        m
    }

    /// Index in the flat storage of the value at `row` and `col`.
    pub fn translate(&self, row: usize, col: usize) -> (r: usize)
        requires
            row * self.spec_cols() + col <= usize::MAX,
        ensures
            r == row * self.spec_cols() + col,
    {
        row * self.cols + col
    }

    /// The number of rows.
    pub fn rows(&self) -> (r: usize)
        ensures
            r == self@.len(),
    {
        self.rows
    }

    /// The number of columns.
    pub fn cols(&self) -> (r: usize)
        ensures
            r == self.spec_cols(),
    {
        self.cols
    }

    /// The flat storage, row after row.
    pub fn data(&self) -> (r: &Vec<T>)
        requires
            self.wf(),
        ensures
            r@.len() == self@.len() * self.spec_cols(),
            forall|i: int, j: int|
                0 <= i < self@.len() && 0 <= j < self.spec_cols() ==> #[trigger] r@[i
                    * self.spec_cols() + j] == self@[i][j],
    {
        proof {
            assert forall|i: int, j: int|
                0 <= i < self@.len() && 0 <= j < self.spec_cols() implies #[trigger] self.data@[i
                * self.spec_cols() + j] == self@[i][j] by {
                lemma_cell_index(i, j, self.cols as int, self.rows as int);
            }
        }
        &self.data
    }

    /// The values of row `index`.
    pub fn index(&self, index: usize) -> (r: &[T])
        requires
            self.wf(),
            index < self@.len(),
        ensures
            r@ == self@[index as int],
            r@.len() == self.spec_cols(),
    {
        proof {
            lemma_row_index(index as int, self.cols as int, self.rows as int);
            assert(self.data@.len() == self.data.len());
        }
        if self.cols == 0 {
            return slice_subrange(self.data.as_slice(), 0, 0);
        }
        let start = self.translate(index, 0);
        let end = self.translate(index, self.cols);
        slice_subrange(self.data.as_slice(), start, end)
    }

    /// Writes `value` at row `row` and column `col`.
    pub fn set(&mut self, row: usize, col: usize, value: T)
        requires
            old(self).wf(),
            row < old(self)@.len(),
            col < old(self).spec_cols(),
        ensures
            final(self).wf(),
            final(self).spec_cols() == old(self).spec_cols(),
            final(self)@ == old(self)@.update(row as int, old(self)@[row as int].update(col as int, value)),
    {
        proof {
            lemma_cell_index(row as int, col as int, self.cols as int, self.rows as int);
            assert(self.data@.len() == self.data.len());
        }
        let k = self.translate(row, col);
        let ghost before = self@;
        self.data[k] = value;
        proof {
            assert forall|i: int| 0 <= i < self.rows implies #[trigger] self@[i] =~= before.update(
                row as int,
                before[row as int].update(col as int, value),
            )[i] by {
                lemma_row_index(i, self.cols as int, self.rows as int);
                assert forall|j: int| 0 <= j < self.cols implies self@[i][j] == before.update(
                    row as int,
                    before[row as int].update(col as int, value),
                )[i][j] by {
                    lemma_cell_index(i, j, self.cols as int, self.rows as int);
                    lemma_cell_index(row as int, col as int, self.cols as int, self.rows as int);
                }
            }
            assert(self@ =~= before.update(row as int, before[row as int].update(col as int, value)));
        }
    }
}

} // verus!
