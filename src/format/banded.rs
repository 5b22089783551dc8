//! The banded format.
//!
//! The format is suitable for matrices with a small number of superdiagonals
//! and subdiagonals. The diagonals are stored as a `(superdiagonals + 1 +
//! subdiagonals) × columns` matrix in column-major order: the first row holds
//! the uppermost superdiagonal and the last row the lowest subdiagonal.
use vstd::prelude::*;

use crate::element::{count_nonzero, Element};
use crate::format::conventional::{lemma_cell_distinct, lemma_cell_index, Conventional};
use crate::format::diagonal::Diagonal;
use crate::operation::Transpose;
use crate::size::Size;

verus! {

/// A banded matrix.
#[derive(Clone, Debug, PartialEq)]
pub struct Banded<T: Element> {
    /// The number of rows.
    pub rows: usize,
    /// The number of columns.
    pub columns: usize,
    /// The number of superdiagonals.
    pub superdiagonals: usize,
    /// The number of subdiagonals.
    pub subdiagonals: usize,
    /// The values of the diagonal elements, column by column.
    pub values: Vec<T>,
}

/// The first row of the band in column `j`.
pub open spec fn band_start(superdiagonals: int, j: int) -> int {
    if j < superdiagonals {
        0
    } else {
        j - superdiagonals
    }
}

/// The row after the last one of the band in column `j`.
pub open spec fn band_finish(rows: int, subdiagonals: int, j: int) -> int {
    if rows < j + subdiagonals + 1 {
        rows
    } else {
        j + subdiagonals + 1
    }
}

/// Compute the first row of the band in column `j`.
fn row_start(superdiagonals: usize, j: usize) -> (r: usize)
    ensures
        r == band_start(superdiagonals as int, j as int),
{
    if j < superdiagonals {
        0
    } else {
        j - superdiagonals
    }
}

/// Compute the row after the last one of the band in column `j`.
fn row_finish(rows: usize, subdiagonals: usize, j: usize) -> (r: usize)
    requires
        j + subdiagonals + 1 <= usize::MAX,
    ensures
        r == band_finish(rows as int, subdiagonals as int, j as int),
{
    if rows < j + subdiagonals + 1 {
        rows
    } else {
        j + subdiagonals + 1
    }
}

/// The storage slot of row `i` within band column `j`.
fn slot_of(superdiagonals: usize, i: usize, j: usize) -> (r: usize)
    requires
        j <= i + superdiagonals,
        i - j + superdiagonals <= usize::MAX,
    ensures
        r == superdiagonals + i - j,
{
    if i >= j {
        superdiagonals + (i - j)
    } else {
        superdiagonals - (j - i)
    }
}

/// Storage slot `k` of band column `j` holds row `j + k - superdiagonals`;
/// the slots of distinct elements differ and stay inside the storage.
proof fn lemma_band_slot(d: int, columns: int, j: int, k: int)
    requires
        0 <= j < columns,
        0 <= k < d,
    ensures
        0 <= j * d + k < d * columns,
        j * d + k < (j + 1) * d,
{
    lemma_cell_index(d, columns, k, j);
    assert(columns * d == d * columns) by (nonlinear_arith);
}

impl<T: Element> Banded<T> {
    /// The number of stored diagonals.
    pub open spec fn diagonal_count(&self) -> int {
        self.superdiagonals + 1 + self.subdiagonals
    }

    /// The storage holds one value per diagonal and column, and the indices
    /// that the band needs fit in `usize`.
    pub open spec fn wf(&self) -> bool {
        &&& self.values@.len() == self.diagonal_count() * self.columns
        &&& self.diagonal_count() * self.columns <= usize::MAX
        &&& self.diagonal_count() <= usize::MAX
        &&& self.columns + self.subdiagonals + 1 <= usize::MAX
    }

    /// The first row of the band in column `j`.
    pub open spec fn start(&self, j: int) -> int {
        band_start(self.superdiagonals as int, j)
    }

    /// The row after the last one of the band in column `j`.
    pub open spec fn finish(&self, j: int) -> int {
        band_finish(self.rows as int, self.subdiagonals as int, j)
    }

    /// Position `(i, j)` lies in the band.
    pub open spec fn in_band(&self, i: int, j: int) -> bool {
        0 <= j < self.columns && self.start(j) <= i < self.finish(j)
    }

    /// The stored value of a position in the band.
    pub open spec fn band_value(&self, i: int, j: int) -> T {
        self.values@[j * self.diagonal_count() + self.superdiagonals + i - j]
    }

    /// The element in row `i` and column `j`: zero outside the band.
    pub open spec fn cell(&self, i: int, j: int) -> T {
        if self.in_band(i, j) {
            self.band_value(i, j)
        } else {
            T::spec_zero()
        }
    }

    /// The values of the band in column `j`, from top to bottom.
    pub open spec fn column_values(&self, j: int) -> Seq<T> {
        Seq::new(
            if self.finish(j) > self.start(j) {
                (self.finish(j) - self.start(j)) as nat
            } else {
                0nat
            },
            |t: int| self.band_value(self.start(j) + t, j),
        )
    }

    /// The values of the band in the columns before `j`, column by column.
    pub open spec fn band_values(&self, j: int) -> Seq<T>
        decreases j,
    {
        if j <= 0 {
            Seq::empty()
        } else {
            self.band_values(j - 1) + self.column_values(j - 1)
        }
    }

    /// The first position of the band at or after row `s` of column `c`,
    /// going down each column and then to the next column.
    pub open spec fn next_position(&self, c: int, s: int) -> Option<(int, int)>
        decreases self.columns - c,
    {
        if c >= self.columns || c < 0 {
            None
        } else if s < self.finish(c) {
            Some((s, c))
        } else {
            self.next_position(c + 1, self.start(c + 1))
        }
    }

    /// Create a zero matrix.
    pub fn new<S: Size>(size: S, superdiagonals: usize, subdiagonals: usize) -> (r: Self)
        requires
            superdiagonals + 1 + subdiagonals <= usize::MAX,
            (superdiagonals + 1 + subdiagonals) * size.spec_columns() <= usize::MAX,
            size.spec_columns() + subdiagonals + 1 <= usize::MAX,
        ensures
            r.wf(),
            r.rows == size.spec_rows(),
            r.columns == size.spec_columns(),
            r.superdiagonals == superdiagonals,
            r.subdiagonals == subdiagonals,
            forall|k: int| 0 <= k < r.values@.len() ==> #[trigger] r.values@[k] == T::spec_zero(),
    {
        let (rows, columns) = size.dimensions();
        let n = (superdiagonals + 1 + subdiagonals) * columns;
        let mut values: Vec<T> = Vec::with_capacity(n);
        let mut k: usize = 0;
        while k < n
            invariant
                k <= n,
                values@.len() == k,
                forall|t: int| 0 <= t < k ==> #[trigger] values@[t] == T::spec_zero(),
            decreases n - k,
        {
            values.push(T::zero());
            k += 1;
        }
        Banded { rows, columns, superdiagonals, subdiagonals, values }
    }

    /// Return the number of diagonals.
    pub fn diagonals(&self) -> (r: usize)
        requires
            self.wf(),
        ensures
            r == self.diagonal_count(),
    {
        self.superdiagonals + 1 + self.subdiagonals
    }

    /// Return a sparse iterator over the band.
    pub fn iter(&self) -> (r: Iterator<'_, T>)
        requires
            self.wf(),
        ensures
            r.wf(),
            r.matrix() == *self,
            r.position() == (0int, 0int),
    {
        Iterator::new(self)
    }

    /// Count the elements of the band that are not zero.
    pub fn nonzeros(&self) -> (r: usize)
        requires
            self.wf(),
        ensures
            r == count_nonzero(self.band_values(self.columns as int)),
    {
        let d = self.diagonals();
        let mut count: usize = 0;
        let mut j: usize = 0;
        while j < self.columns
            invariant
                self.wf(),
                d == self.diagonal_count(),
                j <= self.columns,
                count == count_nonzero(self.band_values(j as int)),
                count <= j * d,
            decreases self.columns - j,
        {
            let start = row_start(self.superdiagonals, j);
            let finish = row_finish(self.rows, self.subdiagonals, j);
            let mut i = start;
            while i < finish
                invariant
                    self.wf(),
                    d == self.diagonal_count(),
                    j < self.columns,
                    start == self.start(j as int),
                    finish == self.finish(j as int),
                    start <= i,
                    i <= finish || i == start,
                    count == count_nonzero(
                        self.band_values(j as int) + self.column_values(j as int).take(i - start),
                    ),
                    count <= j * d + (i - start),
                decreases finish - i,
            {
                let k = slot_of(self.superdiagonals, i, j);
                proof {
                    lemma_band_slot(d as int, self.columns as int, j as int, k as int);
                    let s = self.band_values(j as int) + self.column_values(j as int).take(i - start + 1);
                    assert(s.drop_last() =~= self.band_values(j as int) + self.column_values(j as int).take(i - start));
                    assert(s.last() == self.band_value(i as int, j as int));
                    assert(i - start < d);
                }
                if !self.values[j * d + k].is_zero() {
                    count += 1;
                }
                i += 1;
            }
            proof {
                if finish > start {
                    assert(self.column_values(j as int).take(finish - start) =~= self.column_values(j as int));
                } else {
                    assert(self.column_values(j as int) =~= Seq::<T>::empty());
                    assert(self.band_values(j as int) + self.column_values(j as int).take(0) =~= self.band_values(j as int));
                }
                assert(self.band_values(j + 1) == self.band_values(j as int) + self.column_values(j as int));
                assert(finish - start <= d);
                assert((j + 1) * d == j * d + d) by (nonlinear_arith);
            }
            j += 1;
        }
        count
    }

    /// Convert a diagonal matrix: a band without superdiagonals and
    /// subdiagonals, padded with zeros in the columns past the last row.
    pub fn from_diagonal(matrix: &Diagonal<T>) -> (r: Banded<T>)
        requires
            matrix.wf(),
            matrix.columns + 1 < usize::MAX,
        ensures
            r.wf(),
            r.rows == matrix.rows,
            r.columns == matrix.columns,
            r.superdiagonals == 0,
            r.subdiagonals == 0,
            r.values@.len() == matrix.columns,
            forall|k: int| 0 <= k < matrix.values@.len() ==> #[trigger] r.values@[k] == matrix.values@[k],
            forall|k: int| matrix.values@.len() <= k < matrix.columns ==> #[trigger] r.values@[k] == T::spec_zero(),
    {
        let mut values: Vec<T> = Vec::with_capacity(matrix.columns);
        let n = matrix.values.len();
        let mut k: usize = 0;
        while k < n
            invariant
                n == matrix.values@.len(),
                k <= n,
                values@ == matrix.values@.subrange(0, k as int),
            decreases n - k,
        {
            values.push(matrix.values[k]);
            k += 1;
        }
        let mut j = matrix.rows;
        while j < matrix.columns
            invariant
                matrix.wf(),
                n == matrix.values@.len(),
                matrix.rows <= j <= matrix.columns || j == matrix.rows,
                j >= matrix.rows,
                values@.len() == n + (j - matrix.rows),
                forall|t: int| 0 <= t < n ==> #[trigger] values@[t] == matrix.values@[t],
                forall|t: int| n <= t < values@.len() ==> #[trigger] values@[t] == T::spec_zero(),
            decreases matrix.columns - j,
        {
            values.push(T::zero());
            j += 1;
        }
        assert(1 * matrix.columns == matrix.columns);
        Banded { rows: matrix.rows, columns: matrix.columns, superdiagonals: 0, subdiagonals: 0, values }
    }
}

/// A sparse iterator over the band, column by column.
pub struct Iterator<'l, T: Element> {
    matrix: &'l Banded<T>,
    column: usize,
    start: usize,
    finish: usize,
}

impl<'l, T: Element> Iterator<'l, T> {
    /// Start at the top of the band in the first column.
    fn new(matrix: &'l Banded<T>) -> (r: Iterator<'l, T>)
        requires
            matrix.wf(),
        ensures
            r.wf(),
            r.matrix() == *matrix,
            r.position() == (0int, 0int),
    {
        Iterator {
            matrix,
            column: 0,
            start: row_start(matrix.superdiagonals, 0),
            finish: row_finish(matrix.rows, matrix.subdiagonals, 0),
        }
    }

    /// The matrix iterated over.
    pub closed spec fn matrix(&self) -> Banded<T> {
        *self.matrix
    }

    /// The row and column from which the iteration goes on.
    pub closed spec fn position(&self) -> (int, int) {
        (self.start as int, self.column as int)
    }

    /// The iterator stands inside the band of its column, or past it.
    pub closed spec fn wf(&self) -> bool {
        &&& self.matrix.wf()
        &&& self.column <= self.matrix.columns
        &&& self.finish == self.matrix.finish(self.column as int)
        &&& self.start >= self.matrix.start(self.column as int)
    }

    /// Return the next element of the band as its row, its column and its
    /// value.
    pub fn next(&mut self) -> (r: Option<(usize, usize, &'l T)>)
        requires
            old(self).wf(),
        ensures
            final(self).wf(),
            final(self).matrix() == old(self).matrix(),
            match old(self).matrix().next_position(old(self).position().1, old(self).position().0) {
                Some(p) => {
                    &&& r == Some((p.0 as usize, p.1 as usize, &old(self).matrix().band_value(p.0, p.1)))
                    &&& final(self).position() == (p.0 + 1, p.1)
                },
                None => r.is_none(),
            },
    {
        let ghost target = self.matrix.next_position(self.column as int, self.start as int);
        while self.column < self.matrix.columns
            invariant
                self.wf(),
                self.matrix == old(self).matrix,
                self.matrix.next_position(self.column as int, self.start as int) == target,
                target == old(self).matrix.next_position(old(self).column as int, old(self).start as int),
            decreases self.matrix.columns - self.column, self.finish - self.start,
        {
            if self.start >= self.finish {
                self.column += 1;
                self.start = row_start(self.matrix.superdiagonals, self.column);
                self.finish = row_finish(self.matrix.rows, self.matrix.subdiagonals, self.column);
                continue;
            }
            let i = self.start;
            let j = self.column;
            let d = self.matrix.diagonals();
            let k = slot_of(self.matrix.superdiagonals, i, j);
            proof {
                lemma_band_slot(d as int, self.matrix.columns as int, j as int, k as int);
            }
            self.start = i + 1;
            return Some((i, j, &self.matrix.values[j * d + k]));
        }
        None
    }
}

impl<T: Element> Conventional<T> {
    /// Convert a banded matrix: every element outside the band is zero.
    pub fn from_banded(matrix: &Banded<T>) -> (r: Conventional<T>)
        requires
            matrix.wf(),
            matrix.rows * matrix.columns <= usize::MAX,
        ensures
            r.wf(),
            r.rows == matrix.rows,
            r.columns == matrix.columns,
            forall|i: int, j: int|
                0 <= i < r.rows && 0 <= j < r.columns ==> #[trigger] r.cell(i, j) == matrix.cell(i, j),
    {
        let rows = matrix.rows;
        let columns = matrix.columns;
        let d = matrix.diagonals();
        let mut result = Conventional::new((rows, columns));
        proof {
            assert forall|x: int, y: int|
                0 <= x < rows && 0 <= y < columns implies #[trigger] result.cell(x, y) == T::spec_zero() by {
                lemma_cell_index(rows as int, columns as int, x, y);
            }
        }
        let mut j: usize = 0;
        while j < columns
            invariant
                matrix.wf(),
                d == matrix.diagonal_count(),
                rows == matrix.rows,
                columns == matrix.columns,
                result.wf(),
                result.rows == rows,
                result.columns == columns,
                j <= columns,
                forall|x: int, y: int|
                    0 <= x < rows && 0 <= y < columns ==> #[trigger] result.cell(x, y) == if y < j {
                        matrix.cell(x, y)
                    } else {
                        T::spec_zero()
                    },
            decreases columns - j,
        {
            let start = row_start(matrix.superdiagonals, j);
            let finish = row_finish(rows, matrix.subdiagonals, j);
            let mut i = start;
            while i < finish
                invariant
                    matrix.wf(),
                    d == matrix.diagonal_count(),
                    rows == matrix.rows,
                    columns == matrix.columns,
                    result.wf(),
                    result.rows == rows,
                    result.columns == columns,
                    j < columns,
                    start == matrix.start(j as int),
                    finish == matrix.finish(j as int),
                    start <= i,
                    i <= finish || finish < start,
                    forall|x: int, y: int|
                        0 <= x < rows && 0 <= y < columns ==> #[trigger] result.cell(x, y) == if y < j
                            || (y == j && x < i) {
                            matrix.cell(x, y)
                        } else {
                            T::spec_zero()
                        },
                decreases finish - i,
            {
                let k = slot_of(matrix.superdiagonals, i, j);
                proof {
                    lemma_band_slot(d as int, columns as int, j as int, k as int);
                }
                let ghost before = result;
                result.set((i, j), matrix.values[j * d + k]);
                proof {
                    assert forall|x: int, y: int|
                        0 <= x < rows && 0 <= y < columns implies #[trigger] result.cell(x, y) == if y
                            < j || (y == j && x < i + 1) {
                            matrix.cell(x, y)
                        } else {
                            T::spec_zero()
                        } by {
                        lemma_cell_index(rows as int, columns as int, x, y);
                        lemma_cell_index(rows as int, columns as int, i as int, j as int);
                        assert(before.cell(x, y) == if y < j || (y == j && x < i) {
                            matrix.cell(x, y)
                        } else {
                            T::spec_zero()
                        });
                        if x != i || y != j {
                            if y * rows + x == j * rows + i {
                                lemma_cell_distinct(rows as int, x, y, i as int, j as int);
                            }
                        }
                    }
                }
                i += 1;
            }
            proof {
                assert forall|x: int, y: int|
                    0 <= x < rows && 0 <= y < columns implies #[trigger] result.cell(x, y) == if y < j + 1 {
                        matrix.cell(x, y)
                    } else {
                        T::spec_zero()
                    } by {
                    if y == j && !(x < i) {
                        assert(!matrix.in_band(x, y));
                    }
                }
            }
            j += 1;
        }
        result
    }
}

/// The transpose of a banded matrix: superdiagonals and subdiagonals trade
/// places, and the storage outside the band holds zeros.
impl<T: Element> Transpose for Banded<T> {
    open spec fn transpose_requires(&self) -> bool {
        &&& self.wf()
        &&& self.diagonal_count() * self.rows <= usize::MAX
        &&& self.rows + self.superdiagonals + 1 <= usize::MAX
    }

    open spec fn transpose_ensures(&self, r: &Self) -> bool {
        &&& r.wf()
        &&& r.rows == self.columns
        &&& r.columns == self.rows
        &&& r.superdiagonals == self.subdiagonals
        &&& r.subdiagonals == self.superdiagonals
        &&& forall|i: int, j: int|
            0 <= i < self.rows && 0 <= j < self.columns ==> #[trigger] r.cell(j, i) == self.cell(i, j)
        &&& forall|c: int, k: int|
            0 <= c < r.columns && 0 <= k < r.diagonal_count() && !r.in_band(c + k - r.superdiagonals, c)
                ==> #[trigger] r.values@[c * r.diagonal_count() + k] == T::spec_zero()
    }

    fn transpose(&self) -> (r: Self) {
        let rows = self.rows;
        let columns = self.columns;
        let sup = self.superdiagonals;
        let sub = self.subdiagonals;
        let d = self.diagonals();
        let mut matrix = Banded::new((columns, rows), sub, sup);
        proof {
            assert forall|c: int, kk: int| 0 <= c < rows && 0 <= kk < d implies #[trigger] matrix.values@[c * d + kk] == T::spec_zero() by {
                lemma_band_slot(d as int, rows as int, c, kk);
            }
        }
        let mut j: usize = 0;
        while j < columns
            invariant
                self.wf(),
                rows == self.rows,
                columns == self.columns,
                sup == self.superdiagonals,
                sub == self.subdiagonals,
                d == self.diagonal_count(),
                matrix.wf(),
                matrix.rows == columns,
                matrix.columns == rows,
                matrix.superdiagonals == sub,
                matrix.subdiagonals == sup,
                j <= columns,
                forall|c: int, kk: int| 0 <= c < rows && 0 <= kk < d ==> #[trigger] matrix.values@[c * d + kk] == if self.in_band(c, c + kk - sub) && c + kk - sub < j {
                    self.band_value(c, c + kk - sub)
                } else {
                    T::spec_zero()
                },
            decreases columns - j,
        {
            let start = row_start(sup, j);
            let finish = row_finish(rows, sub, j);
            let mut i = start;
            while i < finish
                invariant
                    self.wf(),
                    rows == self.rows,
                    columns == self.columns,
                    sup == self.superdiagonals,
                    sub == self.subdiagonals,
                    d == self.diagonal_count(),
                    matrix.wf(),
                    matrix.rows == columns,
                    matrix.columns == rows,
                    matrix.superdiagonals == sub,
                    matrix.subdiagonals == sup,
                    j < columns,
                    start == self.start(j as int),
                    finish == self.finish(j as int),
                    start <= i,
                    i <= finish || i == start,
                    forall|c: int, kk: int| 0 <= c < rows && 0 <= kk < d ==> #[trigger] matrix.values@[c * d + kk] == if self.in_band(c, c + kk - sub) && (c + kk - sub < j || (c + kk - sub == j && c < i)) {
                        self.band_value(c, c + kk - sub)
                    } else {
                        T::spec_zero()
                    },
                decreases finish - i,
            {
                let k = slot_of(sup, i, j);
                let l = slot_of(sub, j, i);
                proof {
                    lemma_band_slot(d as int, columns as int, j as int, k as int);
                    lemma_band_slot(d as int, rows as int, i as int, l as int);
                }
                let ghost before = matrix.values@;
                let value = self.values[j * d + k];
                matrix.values.set(i * d + l, value);
                proof {
                    assert forall|c: int, kk: int| 0 <= c < rows && 0 <= kk < d implies #[trigger] matrix.values@[c * d + kk] == if self.in_band(c, c + kk - sub) && (c + kk - sub < j || (c + kk - sub == j && c < i + 1)) {
                        self.band_value(c, c + kk - sub)
                    } else {
                        T::spec_zero()
                    } by {
                        lemma_band_slot(d as int, rows as int, c, kk);
                        assert(before[c * d + kk] == if self.in_band(c, c + kk - sub) && (c + kk - sub < j || (c + kk - sub == j && c < i)) {
                            self.band_value(c, c + kk - sub)
                        } else {
                            T::spec_zero()
                        });
                        if c != i || kk != l {
                            if c * d + kk == i * d + l {
                                lemma_cell_distinct(d as int, kk, c, l as int, i as int);
                            }
                        }
                    }
                }
                i += 1;
            }
            proof {
                assert forall|c: int, kk: int| 0 <= c < rows && 0 <= kk < d implies #[trigger] matrix.values@[c * d + kk] == if self.in_band(c, c + kk - sub) && c + kk - sub < j + 1 {
                    self.band_value(c, c + kk - sub)
                } else {
                    T::spec_zero()
                } by {
                    if self.in_band(c, c + kk - sub) && c + kk - sub == j {
                        assert(c < i);
                    }
                }
            }
            j += 1;
        }
        proof {
            assert forall|x: int, y: int| 0 <= x < rows && 0 <= y < columns implies #[trigger] matrix.cell(y, x) == self.cell(x, y) by {
                if self.in_band(x, y) {
                    assert(matrix.in_band(y, x));
                    let kk = sub + y - x;
                    assert(matrix.values@[x * d + kk] == self.band_value(x, y));
                } else {
                    assert(!matrix.in_band(y, x));
                }
            }
            assert forall|c: int, kk: int|
                0 <= c < matrix.columns && 0 <= kk < matrix.diagonal_count() && !matrix.in_band(c + kk - matrix.superdiagonals, c)
                    implies #[trigger] matrix.values@[c * matrix.diagonal_count() + kk] == T::spec_zero() by {
                assert(!self.in_band(c, c + kk - sub));
            }
        }
        matrix
    }
}

/// The size of a banded matrix.
impl<T: Element> Size for Banded<T> {
    open spec fn spec_rows(&self) -> usize {
        self.rows
    }

    open spec fn spec_columns(&self) -> usize {
        self.columns
    }

    fn rows(&self) -> (r: usize) {
        self.rows
    }

    fn columns(&self) -> (r: usize) {
        self.columns
    }
}

} // verus!
