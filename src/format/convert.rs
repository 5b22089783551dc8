//! Conversions between the compressed, conventional and diagonal formats.
use vstd::prelude::*;

use crate::element::Element;
use crate::format::compressed::{
    lemma_insert, lemma_nonzeros_len, lemma_push_group, lemma_slot, lemma_stored, position_of, Compressed, Variant,
};
use crate::format::conventional::{lemma_cell_distinct, lemma_cell_index, Conventional};
use crate::format::diagonal::{spec_min, Diagonal};

verus! {

impl<T: Element> Conventional<T> {
    /// The nonzero elements by (row, column).
    pub open spec fn nonzero_view(&self) -> Map<(int, int), T> {
        Map::new(
            |p: (int, int)|
                0 <= p.0 < self.rows && 0 <= p.1 < self.columns && self.cell(p.0, p.1)
                    != T::spec_zero(),
            |p: (int, int)| self.cell(p.0, p.1),
        )
    }

    /// Convert a compressed matrix: every element not stored is zero.
    pub fn from_compressed(matrix: &Compressed<T>) -> (r: Conventional<T>)
        requires
            matrix.wf(),
            matrix.rows * matrix.columns <= usize::MAX,
        ensures
            r.wf(),
            r.rows == matrix.rows,
            r.columns == matrix.columns,
            forall|i: int, j: int|
                0 <= i < r.rows && 0 <= j < r.columns ==> #[trigger] r.cell(i, j)
                    == matrix.spec_get(i, j),
    {
        let rows = matrix.rows;
        let columns = matrix.columns;
        let mut result = Conventional::new((rows, columns));
        let count: usize = match matrix.variant {
            Variant::Column => columns,
            Variant::Row => rows,
        };
        proof {
            assert forall|x: int, y: int|
                0 <= x < rows && 0 <= y < columns implies #[trigger] result.cell(x, y) == T::spec_zero() by {
                lemma_cell_index(rows as int, columns as int, x, y);
            }
        }
        let mut g: usize = 0;
        while g < count
            invariant
                matrix.wf(),
                count == matrix.major_count(),
                rows == matrix.rows,
                columns == matrix.columns,
                result.wf(),
                result.rows == rows,
                result.columns == columns,
                g <= count,
                forall|x: int, y: int|
                    0 <= x < rows && 0 <= y < columns ==> #[trigger] result.cell(x, y) == if matrix@.contains_key((x, y))
                        && matrix.slot(matrix.major_of(x, y), matrix.minor_of(x, y)) < matrix.offsets@[g as int] {
                        matrix@[(x, y)]
                    } else {
                        T::spec_zero()
                    },
            decreases count - g,
        {
            let end = matrix.offsets[g + 1];
            let mut k = matrix.offsets[g];
            while k < end
                invariant
                    matrix.wf(),
                    count == matrix.major_count(),
                    rows == matrix.rows,
                    columns == matrix.columns,
                    result.wf(),
                    result.rows == rows,
                    result.columns == columns,
                    g < count,
                    end == matrix.offsets@[g + 1],
                    matrix.offsets@[g as int] <= k <= end,
                    forall|x: int, y: int|
                        0 <= x < rows && 0 <= y < columns ==> #[trigger] result.cell(x, y) == if matrix@.contains_key((x, y))
                            && matrix.slot(matrix.major_of(x, y), matrix.minor_of(x, y)) < k {
                            matrix@[(x, y)]
                        } else {
                            T::spec_zero()
                        },
                decreases end - k,
            {
                assert(matrix.offsets@[g + 1] <= matrix.offsets@[matrix.major_count()]);
                assert(matrix.in_group(g as int, k as int));
                assert(matrix.indices@[k as int] < matrix.minor_count());
                let (i, j) = matrix.variant.denormalize(g, matrix.indices[k]);
                let ghost before = result;
                result.set((i, j), matrix.values[k]);
                proof {
                    lemma_slot(*matrix, g as int, k as int);
                    assert(matrix.position_at(g as int, k as int) == (i as int, j as int));
                    assert forall|x: int, y: int|
                        0 <= x < rows && 0 <= y < columns implies #[trigger] result.cell(x, y) == if matrix@.contains_key((x, y))
                            && matrix.slot(matrix.major_of(x, y), matrix.minor_of(x, y)) < k + 1 {
                            matrix@[(x, y)]
                        } else {
                            T::spec_zero()
                        } by {
                        lemma_cell_index(rows as int, columns as int, x, y);
                        lemma_cell_index(rows as int, columns as int, i as int, j as int);
                        assert(before.cell(x, y) == if matrix@.contains_key((x, y)) && matrix.slot(
                            matrix.major_of(x, y),
                            matrix.minor_of(x, y),
                        ) < k {
                            matrix@[(x, y)]
                        } else {
                            T::spec_zero()
                        });
                        if x != i || y != j {
                            if y * rows + x == j * rows + i {
                                lemma_cell_distinct(rows as int, x, y, i as int, j as int);
                            }
                            if matrix@.contains_key((x, y)) {
                                lemma_stored(*matrix, x, y);
                            }
                        }
                    }
                }
                k += 1;
            }
            g += 1;
        }
        proof {
            assert forall|x: int, y: int|
                0 <= x < rows && 0 <= y < columns implies #[trigger] result.cell(x, y)
                    == matrix.spec_get(x, y) by {
                if matrix@.contains_key((x, y)) {
                    lemma_stored(*matrix, x, y);
                }
            }
        }
        result
    }
}

/// The nonzero elements of a conventional matrix that come before row `i`
/// of column `j` in column-major order.
pub open spec fn prefix_view<T: Element>(matrix: Conventional<T>, j: int, i: int) -> Map<(int, int), T> {
    Map::new(
        |p: (int, int)|
            0 <= p.0 < matrix.rows && 0 <= p.1 < matrix.columns && (p.1 < j || (p.1 == j && p.0
                < i)) && matrix.cell(p.0, p.1) != T::spec_zero(),
        |p: (int, int)| matrix.cell(p.0, p.1),
    )
}

impl<T: Element> Compressed<T> {
    /// Convert a conventional matrix into the compressed-column variant,
    /// storing its nonzero elements.
    pub fn from_conventional(matrix: &Conventional<T>) -> (r: Compressed<T>)
        requires
            matrix.wf(),
        ensures
            r.wf(),
            r.rows == matrix.rows,
            r.columns == matrix.columns,
            r.variant == Variant::Column,
            r@ == matrix.nonzero_view(),
            r.nonzeros == matrix.nonzero_view().dom().len(),
    {
        let rows = matrix.rows;
        let columns = matrix.columns;
        let mut result: Compressed<T> = Compressed::new((rows, 0), Variant::Column);
        let mut j: usize = 0;
        proof {
            assert(result@ =~= prefix_view(*matrix, 0, 0));
        }
        while j < columns
            invariant
                matrix.wf(),
                rows == matrix.rows,
                columns == matrix.columns,
                j <= columns,
                result.wf(),
                result.rows == rows,
                result.columns == j,
                result.variant == Variant::Column,
                result.nonzeros <= j * rows,
                result@ == prefix_view(*matrix, j as int, 0),
            decreases columns - j,
        {
            let ghost before = result;
            result.offsets.push(result.nonzeros);
            result.columns = j + 1;
            proof {
                lemma_push_group(before, result);
                assert(result@ =~= prefix_view(*matrix, j as int, 0));
            }
            let mut i: usize = 0;
            while i < rows
                invariant
                    matrix.wf(),
                    rows == matrix.rows,
                    columns == matrix.columns,
                    j < columns,
                    i <= rows,
                    result.wf(),
                    result.rows == rows,
                    result.columns == j + 1,
                    result.variant == Variant::Column,
                    result.nonzeros <= j * rows + i,
                    result@ == prefix_view(*matrix, j as int, i as int),
                    forall|t: int| result.offsets@[j as int] <= t < result.nonzeros ==> #[trigger] result.indices@[t] < i,
                decreases rows - i,
            {
                proof {
                    lemma_cell_index(rows as int, columns as int, i as int, j as int);
                }
                let value = matrix.values[j * rows + i];
                if !value.is_zero() {
                    let ghost before = result;
                    let k = result.nonzeros;
                    assert(result.offsets@[j + 1] == k);
                    result.values.push(value);
                    result.indices.push(i);
                    result.nonzeros = k + 1;
                    result.offsets.set(j + 1, k + 1);
                    proof {
                        assert(before.values@.insert(k as int, value) =~= result.values@);
                        assert(before.indices@.insert(k as int, i) =~= result.indices@);
                        lemma_insert(before, result, j as int, k as int, i as int, value);
                        assert(position_of(Variant::Column, j as int, i as int) == (i as int, j as int));
                        assert(result@ =~= prefix_view(*matrix, j as int, i + 1));
                    }
                } else {
                    proof {
                        assert(result@ =~= prefix_view(*matrix, j as int, i + 1));
                    }
                }
                i += 1;
            }
            proof {
                assert((j + 1) * rows == j * rows + rows) by (nonlinear_arith);
                assert(result@ =~= prefix_view(*matrix, j + 1, 0));
            }
            j += 1;
        }
        proof {
            assert(result@ =~= matrix.nonzero_view());
            lemma_nonzeros_len(result);
        }
        result
    }

    /// Convert a diagonal matrix into the compressed-column variant, storing
    /// every diagonal element.
    pub fn from_diagonal(matrix: &Diagonal<T>) -> (r: Compressed<T>)
        requires
            matrix.wf(),
            matrix.columns < usize::MAX,
        ensures
            r.wf(),
            r.rows == matrix.rows,
            r.columns == matrix.columns,
            r.variant == Variant::Column,
            r.nonzeros == matrix.values@.len(),
            r.values@ == matrix.values@,
            forall|i: int, j: int| #[trigger] r@.contains_key((i, j)) <==> 0 <= i == j < matrix.values@.len(),
            forall|i: int| 0 <= i < matrix.values@.len() ==> #[trigger] r@[(i, i)] == matrix.values@[i],
    {
        let rows = matrix.rows;
        let columns = matrix.columns;
        let n = matrix.values.len();
        let mut values: Vec<T> = Vec::with_capacity(n);
        let mut indices: Vec<usize> = Vec::with_capacity(n);
        let mut k: usize = 0;
        while k < n
            invariant
                n == matrix.values@.len(),
                k <= n,
                values@ == matrix.values@.subrange(0, k as int),
                indices@.len() == k,
                forall|t: int| 0 <= t < k ==> #[trigger] indices@[t] == t,
            decreases n - k,
        {
            values.push(matrix.values[k]);
            indices.push(k);
            k += 1;
        }
        let mut offsets: Vec<usize> = Vec::with_capacity(columns + 1);
        let mut g: usize = 0;
        while g <= columns
            invariant
                n <= columns,
                columns < usize::MAX,
                g <= columns + 1,
                offsets@.len() == g,
                forall|t: int| 0 <= t < g ==> #[trigger] offsets@[t] == if t < n {
                    t
                } else {
                    n as int
                },
            decreases columns + 1 - g,
        {
            offsets.push(if g < n { g } else { n });
            g += 1;
        }
        assert(values@ =~= matrix.values@);
        let r = Compressed { rows, columns, nonzeros: n, variant: Variant::Column, values, indices, offsets };
        proof {
            assert forall|g: int, t: int| #[trigger] r.in_group(g, t) <==> (0 <= g < n && t == g) by {}
            assert forall|x: int, y: int| 0 <= x <= y <= columns implies #[trigger] r.offsets@[x]
                <= #[trigger] r.offsets@[y] by {}
            assert(r.wf());
            assert forall|i: int, j: int| #[trigger] r@.contains_key((i, j)) <==> 0 <= i == j < n by {
                if 0 <= i == j < n {
                    assert(r.in_group(j, j) && r.indices@[j] == i);
                }
                if r@.contains_key((i, j)) {
                    lemma_stored(r, i, j);
                }
            }
            assert forall|i: int| 0 <= i < n implies #[trigger] r@[(i, i)] == matrix.values@[i] by {
                lemma_slot(r, i, i);
            }
        }
        r
    }
}

impl<T: Element> Conventional<T> {
    /// Convert a diagonal matrix: every element off the diagonal is zero.
    pub fn from_diagonal(matrix: &Diagonal<T>) -> (r: Conventional<T>)
        requires
            matrix.wf(),
            matrix.rows * matrix.columns <= usize::MAX,
        ensures
            r.wf(),
            r.rows == matrix.rows,
            r.columns == matrix.columns,
            forall|i: int, j: int|
                0 <= i < r.rows && 0 <= j < r.columns ==> #[trigger] r.cell(i, j) == if i == j {
                    matrix.values@[i]
                } else {
                    T::spec_zero()
                },
    {
        let rows = matrix.rows;
        let columns = matrix.columns;
        let mut result = Conventional::new((rows, columns));
        let n = matrix.values.len();
        proof {
            assert forall|x: int, y: int|
                0 <= x < rows && 0 <= y < columns implies #[trigger] result.cell(x, y) == T::spec_zero() by {
                lemma_cell_index(rows as int, columns as int, x, y);
            }
        }
        let mut i: usize = 0;
        while i < n
            invariant
                matrix.wf(),
                n == matrix.values@.len(),
                rows == matrix.rows,
                columns == matrix.columns,
                result.wf(),
                result.rows == rows,
                result.columns == columns,
                i <= n,
                forall|x: int, y: int|
                    0 <= x < rows && 0 <= y < columns ==> #[trigger] result.cell(x, y) == if x == y && x < i {
                        matrix.values@[x]
                    } else {
                        T::spec_zero()
                    },
            decreases n - i,
        {
            let ghost before = result;
            result.set((i, i), matrix.values[i]);
            proof {
                assert forall|x: int, y: int|
                    0 <= x < rows && 0 <= y < columns implies #[trigger] result.cell(x, y) == if x == y && x < i + 1 {
                        matrix.values@[x]
                    } else {
                        T::spec_zero()
                    } by {
                    lemma_cell_index(rows as int, columns as int, x, y);
                    lemma_cell_index(rows as int, columns as int, i as int, i as int);
                    assert(before.cell(x, y) == if x == y && x < i {
                        matrix.values@[x]
                    } else {
                        T::spec_zero()
                    });
                    if x != i || y != i {
                        if y * rows + x == i * rows + i {
                            lemma_cell_distinct(rows as int, x, y, i as int, i as int);
                        }
                    }
                }
            }
            i += 1;
        }
        proof {
            assert forall|x: int, y: int|
                0 <= x < rows && 0 <= y < columns implies #[trigger] result.cell(x, y) == if x == y {
                    matrix.values@[x]
                } else {
                    T::spec_zero()
                } by {
                if x == y {
                    assert(x < n);
                }
            }
        }
        result
    }
}

} // verus!
