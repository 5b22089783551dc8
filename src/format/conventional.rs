//! The conventional format.
//!
//! The format is suitable for dense matrices: every element is stored, in
//! column-major order.
use vstd::prelude::*;

use crate::element::{count_nonzero, Element};
use crate::operation::Transpose;
use crate::size::{Position, Size};

verus! {

/// A conventional matrix.
#[derive(Clone, Debug, PartialEq)]
pub struct Conventional<T: Element> {
    /// The number of rows.
    pub rows: usize,
    /// The number of columns.
    pub columns: usize,
    /// The values stored in the column-major order.
    pub values: Vec<T>,
}

/// The element `(i, j)` of a `rows × columns` matrix stored column by column
/// lies at `j * rows + i`, inside the storage.
pub proof fn lemma_cell_index(rows: int, columns: int, i: int, j: int)
    requires
        0 <= i < rows,
        0 <= j < columns,
    ensures
        0 <= j * rows + i < rows * columns,
        j * rows + i < (j + 1) * rows,
        j * rows <= j * rows + i,
{
    assert(0 <= j * rows + i < rows * columns) by (nonlinear_arith)
        requires
            0 <= i < rows,
            0 <= j < columns,
    ;
    assert((j + 1) * rows == j * rows + rows) by (nonlinear_arith);
}

/// Distinct elements lie at distinct places.
pub proof fn lemma_cell_distinct(rows: int, i: int, j: int, a: int, b: int)
    requires
        0 <= i < rows,
        0 <= a < rows,
        0 <= j,
        0 <= b,
        j * rows + i == b * rows + a,
    ensures
        i == a,
        j == b,
{
    if j < b {
        assert(j * rows + rows <= b * rows) by (nonlinear_arith)
            requires
                j < b,
                0 <= i < rows,
        ;
    } else if b < j {
        assert(b * rows + rows <= j * rows) by (nonlinear_arith)
            requires
                b < j,
                0 <= i < rows,
        ;
    }
}

impl<T: Element> Conventional<T> {
    /// The storage holds one value per element.
    pub open spec fn wf(&self) -> bool {
        &&& self.values@.len() == self.rows * self.columns
        &&& self.rows * self.columns <= usize::MAX
    }

    /// The element in row `i` and column `j`.
    pub open spec fn cell(&self, i: int, j: int) -> T {
        self.values@[j * self.rows + i]
    }

    /// Create a zero matrix.
    pub fn new<S: Size>(size: S) -> (r: Self)
        requires
            size.spec_rows() * size.spec_columns() <= usize::MAX,
        ensures
            r.wf(),
            r.rows == size.spec_rows(),
            r.columns == size.spec_columns(),
            forall|k: int| 0 <= k < r.values@.len() ==> #[trigger] r.values@[k] == T::spec_zero(),
    {
        let (rows, columns) = size.dimensions();
        let n = rows * columns;
        let mut values: Vec<T> = Vec::with_capacity(n);
        let mut k: usize = 0;
        while k < n
            invariant
                k <= n,
                values@.len() == k,
                forall|t: int| 0 <= t < k ==> #[trigger] values@[t] == T::spec_zero(),
            decreases n - k,
        {
            values.push(T::zero());
            k += 1;
        }
        Conventional { rows, columns, values }
    }

    /// Create a matrix from a slice of values in column-major order.
    pub fn from_slice<S: Size>(size: S, values: &[T]) -> (r: Self)
        requires
            values@.len() == size.spec_rows() * size.spec_columns(),
        ensures
            r.wf(),
            r.rows == size.spec_rows(),
            r.columns == size.spec_columns(),
            r.values@ == values@,
    {
        let (rows, columns) = size.dimensions();
        let mut copy: Vec<T> = Vec::with_capacity(values.len());
        let mut k: usize = 0;
        while k < values.len()
            invariant
                k <= values@.len(),
                copy@ == values@.subrange(0, k as int),
            decreases values@.len() - k,
        {
            copy.push(values[k]);
            k += 1;
        }
        assert(copy@ =~= values@);
        assert(copy@.len() <= usize::MAX);
        Conventional { rows, columns, values: copy }
    }

    /// Create a matrix from a vector of values in column-major order.
    pub fn from_vec<S: Size>(size: S, values: Vec<T>) -> (r: Self)
        requires
            values@.len() == size.spec_rows() * size.spec_columns(),
        ensures
            r.wf(),
            r.rows == size.spec_rows(),
            r.columns == size.spec_columns(),
            r.values@ == values@,
    {
        let (rows, columns) = size.dimensions();
        let count = values.len();
        assert(count == rows * columns);
        Conventional { rows, columns, values }
    }

    /// Read an element.
    pub fn get<P: Position>(&self, position: P) -> (r: T)
        requires
            self.wf(),
            position.spec_row() < self.rows,
            position.spec_column() < self.columns,
        ensures
            r == self.cell(position.spec_row() as int, position.spec_column() as int),
    {
        let (i, j) = position.coordinates();
        proof {
            lemma_cell_index(self.rows as int, self.columns as int, i as int, j as int);
        }
        self.values[j * self.rows + i]
    }

    /// Assign a value to an element.
    pub fn set<P: Position>(&mut self, position: P, value: T)
        requires
            old(self).wf(),
            position.spec_row() < old(self).rows,
            position.spec_column() < old(self).columns,
        ensures
            final(self).wf(),
            final(self).rows == old(self).rows,
            final(self).columns == old(self).columns,
            final(self).values@ == old(self).values@.update(
                position.spec_column() * old(self).rows + position.spec_row(),
                value,
            ),
    {
        let (i, j) = position.coordinates();
        proof {
            lemma_cell_index(self.rows as int, self.columns as int, i as int, j as int);
        }
        let k = j * self.rows + i;
        self.values.set(k, value);
    }

    /// Count the nonzero elements.
    pub fn nonzeros(&self) -> (r: usize)
        ensures
            r == count_nonzero(self.values@),
    {
        let mut count: usize = 0;
        let mut k: usize = 0;
        while k < self.values.len()
            invariant
                k <= self.values@.len(),
                count == count_nonzero(self.values@.subrange(0, k as int)),
                count <= k,
            decreases self.values@.len() - k,
        {
            proof {
                let s = self.values@.subrange(0, k + 1);
                assert(s.drop_last() =~= self.values@.subrange(0, k as int));
            }
            if !self.values[k].is_zero() {
                count += 1;
            }
            k += 1;
        }
        assert(self.values@.subrange(0, k as int) =~= self.values@);
        count
    }

    /// Resize the matrix, keeping the elements that stay inside and filling
    /// the new ones with zero.
    pub fn resize<S: Size>(&mut self, size: S)
        requires
            old(self).wf(),
            size.spec_rows() * size.spec_columns() <= usize::MAX,
        ensures
            final(self).wf(),
            final(self).rows == size.spec_rows(),
            final(self).columns == size.spec_columns(),
            forall|i: int, j: int|
                0 <= i < final(self).rows && 0 <= j < final(self).columns ==> #[trigger] final(self).cell(i, j) == if i < old(self).rows && j < old(self).columns {
                    old(self).cell(i, j)
                } else {
                    T::spec_zero()
                },
    {
        let (rows, columns) = size.dimensions();
        let ghost a = *self;
        if self.rows == rows {
            let n = rows * columns;
            if self.columns > columns {
                self.values.truncate(n);
                proof {
                    assert(n <= a.values@.len()) by (nonlinear_arith)
                        requires
                            n == rows * columns,
                            a.values@.len() == rows * a.columns,
                            a.columns > columns,
                    ;
                }
            } else {
                proof {
                    assert(a.values@.len() <= n) by (nonlinear_arith)
                        requires
                            n == rows * columns,
                            a.values@.len() == rows * a.columns,
                            a.columns <= columns,
                    ;
                }
                let mut k = self.values.len();
                while k < n
                    invariant
                        self.rows == rows,
                        a.rows == rows,
                        self.columns == a.columns,
                        a.values@.len() <= k <= n,
                        self.values@.len() == k,
                        forall|t: int| 0 <= t < a.values@.len() ==> #[trigger] self.values@[t] == a.values@[t],
                        forall|t: int| a.values@.len() <= t < k ==> #[trigger] self.values@[t] == T::spec_zero(),
                    decreases n - k,
                {
                    self.values.push(T::zero());
                    k += 1;
                }
            }
            self.columns = columns;
            proof {
                assert forall|i: int, j: int|
                    0 <= i < self.rows && 0 <= j < self.columns implies #[trigger] self.cell(i, j) == if i
                        < a.rows && j < a.columns {
                        a.cell(i, j)
                    } else {
                        T::spec_zero()
                    } by {
                    lemma_cell_index(rows as int, columns as int, i, j);
                    if j < a.columns {
                        lemma_cell_index(rows as int, a.columns as int, i, j);
                    } else {
                        assert(a.columns * rows <= j * rows) by (nonlinear_arith)
                            requires
                                a.columns <= j,
                                0 <= rows,
                        ;
                    }
                }
            }
        } else {
            let mut matrix = Conventional::new(size);
            let kept_rows = if self.rows < rows { self.rows } else { rows };
            let kept_columns = if self.columns < columns { self.columns } else { columns };
            proof {
                assert forall|x: int, y: int| 0 <= x < rows && 0 <= y < columns implies #[trigger] matrix.cell(
                    x,
                    y,
                ) == T::spec_zero() by {
                    lemma_cell_index(rows as int, columns as int, x, y);
                }
            }
            let mut j: usize = 0;
            while j < kept_columns
                invariant
                    a == *self,
                    a.wf(),
                    matrix.wf(),
                    matrix.rows == rows,
                    matrix.columns == columns,
                    kept_rows <= rows && kept_rows <= a.rows,
                    kept_columns <= columns && kept_columns <= a.columns,
                    j <= kept_columns,
                    forall|x: int, y: int|
                        0 <= x < rows && 0 <= y < columns ==> #[trigger] matrix.cell(x, y) == if x
                            < kept_rows && y < j {
                            a.cell(x, y)
                        } else {
                            T::spec_zero()
                        },
                decreases kept_columns - j,
            {
                let mut i: usize = 0;
                while i < kept_rows
                    invariant
                        a == *self,
                        a.wf(),
                        matrix.wf(),
                        matrix.rows == rows,
                        matrix.columns == columns,
                        kept_rows <= rows && kept_rows <= a.rows,
                        kept_columns <= columns && kept_columns <= a.columns,
                        j < kept_columns,
                        i <= kept_rows,
                        forall|x: int, y: int|
                            0 <= x < rows && 0 <= y < columns ==> #[trigger] matrix.cell(x, y) == if (
                            x < kept_rows && y < j) || (x < i && y == j) {
                                a.cell(x, y)
                            } else {
                                T::spec_zero()
                            },
                    decreases kept_rows - i,
                {
                    let v = self.get((i, j));
                    let ghost before = matrix;
                    matrix.set((i, j), v);
                    proof {
                        assert forall|x: int, y: int|
                            0 <= x < rows && 0 <= y < columns implies #[trigger] matrix.cell(x, y)
                                == if (x < kept_rows && y < j) || (x < i + 1 && y == j) {
                                a.cell(x, y)
                            } else {
                                T::spec_zero()
                            } by {
                            lemma_cell_index(rows as int, columns as int, x, y);
                            lemma_cell_index(rows as int, columns as int, i as int, j as int);
                            assert(before.cell(x, y) == if (x < kept_rows && y < j) || (x < i && y
                                == j) {
                                a.cell(x, y)
                            } else {
                                T::spec_zero()
                            });
                            if x != i || y != j {
                                if y * rows + x == j * rows + i {
                                    lemma_cell_distinct(rows as int, x, y, i as int, j as int);
                                }
                            }
                        }
                    }
                    i += 1;
                }
                j += 1;
            }
            *self = matrix;
        }
    }
}

/// The transpose of a conventional matrix.
impl<T: Element> Transpose for Conventional<T> {
    open spec fn transpose_requires(&self) -> bool {
        self.wf()
    }

    open spec fn transpose_ensures(&self, r: &Self) -> bool {
        &&& r.wf()
        &&& r.rows == self.columns
        &&& r.columns == self.rows
        &&& forall|i: int, j: int|
            0 <= i < self.rows && 0 <= j < self.columns ==> #[trigger] r.cell(j, i) == self.cell(i, j)
    }

    fn transpose(&self) -> (r: Self) {
        let (rows, columns) = (self.rows, self.columns);
        proof {
            assert(columns * rows == rows * columns) by (nonlinear_arith);
        }
        let mut matrix = Conventional::new((columns, rows));
        let mut i: usize = 0;
        while i < rows
            invariant
                self.wf(),
                rows == self.rows,
                columns == self.columns,
                matrix.wf(),
                matrix.rows == columns,
                matrix.columns == rows,
                i <= rows,
                forall|x: int, y: int|
                    0 <= x < rows && 0 <= y < columns && x < i ==> #[trigger] matrix.cell(y, x)
                        == self.cell(x, y),
            decreases rows - i,
        {
            let mut j: usize = 0;
            while j < columns
                invariant
                    self.wf(),
                    rows == self.rows,
                    columns == self.columns,
                    matrix.wf(),
                    matrix.rows == columns,
                    matrix.columns == rows,
                    i < rows,
                    j <= columns,
                    forall|x: int, y: int|
                        0 <= x < rows && 0 <= y < columns && (x < i || (x == i && y < j))
                            ==> #[trigger] matrix.cell(y, x) == self.cell(x, y),
                decreases columns - j,
            {
                let v = self.get((i, j));
                let ghost before = matrix;
                matrix.set((j, i), v);
                proof {
                    assert forall|x: int, y: int|
                        0 <= x < rows && 0 <= y < columns && (x < i || (x == i && y < j + 1))
                            implies #[trigger] matrix.cell(y, x) == self.cell(x, y) by {
                        lemma_cell_index(columns as int, rows as int, y, x);
                        lemma_cell_index(columns as int, rows as int, j as int, i as int);
                        if x < i || (x == i && y < j) {
                            assert(before.cell(y, x) == self.cell(x, y));
                        }
                        if x != i || y != j {
                            if x * columns + y == i * columns + j {
                                lemma_cell_distinct(columns as int, y, x, j as int, i as int);
                            }
                        }
                    }
                }
                j += 1;
            }
            i += 1;
        }
        matrix
    }
}

/// The size of a conventional matrix.
impl<T: Element> Size for Conventional<T> {
    open spec fn spec_rows(&self) -> usize {
        self.rows
    }

    open spec fn spec_columns(&self) -> usize {
        self.columns
    }

    fn rows(&self) -> (r: usize) {
        self.rows
    }

    fn columns(&self) -> (r: usize) {
        self.columns
    }
}

} // verus!
