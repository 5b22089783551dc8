//! Products that involve a compressed matrix.
use vstd::prelude::*;

use crate::element::{Element, Number};
use crate::format::compressed::{lemma_group_unique, lemma_slot, lemma_stored, major_size, Compressed, Variant};
use crate::format::conventional::{lemma_cell_distinct, lemma_cell_index, Conventional};
use crate::format::diagonal::Diagonal;
use crate::operation::{Multiply, MultiplyInto, MultiplySelf, Transpose};

verus! {

/// `init` plus the products `a(i, l) * b(l, c)` over the stored elements
/// `(i, l)` of `a` with `l < j`, added in increasing order of `l`.
pub open spec fn left_sum<T: Number>(
    a: Compressed<T>,
    b: Conventional<T>,
    i: int,
    c: int,
    j: int,
    init: T,
) -> T
    decreases j,
{
    if j <= 0 {
        init
    } else {
        let previous = left_sum(a, b, i, c, j - 1, init);
        if a@.contains_key((i, j - 1)) {
            T::spec_plus(previous, T::spec_times(a@[(i, j - 1)], b.cell(j - 1, c)))
        } else {
            previous
        }
    }
}

/// `init` plus the products `b(l, j) * a(i, l)` over the stored elements
/// `(l, j)` of `b` with `l < bound`, added in increasing order of `l`.
pub open spec fn right_sum<T: Number>(
    a: Conventional<T>,
    b: Compressed<T>,
    i: int,
    j: int,
    bound: int,
    init: T,
) -> T
    decreases bound,
{
    if bound <= 0 {
        init
    } else {
        let previous = right_sum(a, b, i, j, bound - 1, init);
        if b@.contains_key((bound - 1, j)) {
            T::spec_plus(previous, T::spec_times(b@[(bound - 1, j)], a.cell(i, bound - 1)))
        } else {
            previous
        }
    }
}

/// Rows of `b` that store nothing in column `j` add nothing.
pub proof fn lemma_right_sum_skip<T: Number>(
    a: Conventional<T>,
    b: Compressed<T>,
    i: int,
    j: int,
    low: int,
    high: int,
    init: T,
)
    requires
        0 <= low <= high,
        forall|l: int| low <= l < high ==> !#[trigger] b@.contains_key((l, j)),
    ensures
        right_sum(a, b, i, j, high, init) == right_sum(a, b, i, j, low, init),
    decreases high - low,
{
    if low < high {
        lemma_right_sum_skip(a, b, i, j, low, high - 1, init);
    }
}

/// A compressed-column matrix times a conventional one, added into a
/// conventional one, which is not zeroed first.
impl<T: Number> MultiplyInto<Conventional<T>, Conventional<T>> for Compressed<T> {
    open spec fn multiply_into_requires(&self, right: &Conventional<T>, result: &Conventional<T>) -> bool {
        &&& self.wf()
        &&& self.variant == Variant::Column
        &&& right.wf()
        &&& result.wf()
        &&& right.rows == self.columns
        &&& result.rows == self.rows
        &&& result.columns == right.columns
    }

    open spec fn multiply_into_ensures(
        &self,
        right: &Conventional<T>,
        before: &Conventional<T>,
        after: &Conventional<T>,
    ) -> bool {
        &&& after.wf()
        &&& after.rows == before.rows
        &&& after.columns == before.columns
        &&& forall|i: int, c: int|
            0 <= i < self.rows && 0 <= c < right.columns ==> #[trigger] after.cell(i, c)
                == left_sum(*self, *right, i, c, self.columns as int, before.cell(i, c))
    }

    fn multiply_into(&self, right: &Conventional<T>, result: &mut Conventional<T>) {
        multiply_matrix_left(self, right, result);
    }
}

/// Add the product of `a` and column `c` of `b` to column `c` of `result`.
fn multiply_vector_left<T: Number>(
    a: &Compressed<T>,
    b: &Conventional<T>,
    result: &mut Conventional<T>,
    c: usize,
)
    requires
        a.wf(),
        a.variant == Variant::Column,
        b.wf(),
        old(result).wf(),
        b.rows == a.columns,
        old(result).rows == a.rows,
        old(result).columns == b.columns,
        c < b.columns,
    ensures
        final(result).wf(),
        final(result).rows == old(result).rows,
        final(result).columns == old(result).columns,
        forall|x: int, y: int|
            0 <= x < a.rows && 0 <= y < b.columns ==> #[trigger] final(result).cell(x, y) == if y == c {
                left_sum(*a, *b, x, y, a.columns as int, old(result).cell(x, y))
            } else {
                old(result).cell(x, y)
            },
{
    let ghost init = *result;
    let (m, p, n) = (a.rows, a.columns, b.columns);
    let mut j: usize = 0;
    while j < p
        invariant
            a.wf(),
            a.variant == Variant::Column,
            b.wf(),
            init.wf(),
            result.wf(),
            (m, p, n) == (a.rows, a.columns, b.columns),
            b.rows == p,
            init.rows == m && init.columns == n,
            result.rows == m && result.columns == n,
            c < n,
            j <= p,
            forall|x: int, y: int|
                0 <= x < m && 0 <= y < n ==> #[trigger] result.cell(x, y) == if y == c {
                    left_sum(*a, *b, x, y, j as int, init.cell(x, y))
                } else {
                    init.cell(x, y)
                },
        decreases p - j,
    {
        let factor = b.get((j, c));
        let end = a.offsets[j + 1];
        let mut k = a.offsets[j];
        while k < end
            invariant
                a.wf(),
                a.variant == Variant::Column,
                b.wf(),
                init.wf(),
                result.wf(),
                (m, p, n) == (a.rows, a.columns, b.columns),
                b.rows == p,
                init.rows == m && init.columns == n,
                result.rows == m && result.columns == n,
                c < n,
                j < p,
                factor == b.cell(j as int, c as int),
                end == a.offsets@[j + 1],
                a.offsets@[j as int] <= k <= end,
                forall|x: int, y: int|
                    0 <= x < m && 0 <= y < n ==> #[trigger] result.cell(x, y) == if y == c {
                        if a@.contains_key((x, j as int)) && a.slot(j as int, x) < k {
                            T::spec_plus(
                                left_sum(*a, *b, x, y, j as int, init.cell(x, y)),
                                T::spec_times(a@[(x, j as int)], factor),
                            )
                        } else {
                            left_sum(*a, *b, x, y, j as int, init.cell(x, y))
                        }
                    } else {
                        init.cell(x, y)
                    },
            decreases end - k,
        {
            assert(a.offsets@[j + 1] <= a.offsets@[a.major_count()]);
            assert(a.in_group(j as int, k as int));
            let i = a.indices[k];
            assert(i < m);
            let current = result.get((i, c));
            let ghost before = *result;
            result.set((i, c), current.plus(a.values[k].times(factor)));
            proof {
                lemma_slot(*a, j as int, k as int);
                assert(a.position_at(j as int, k as int) == (i as int, j as int));
                assert forall|x: int, y: int|
                    0 <= x < m && 0 <= y < n implies #[trigger] result.cell(x, y) == if y == c {
                        if a@.contains_key((x, j as int)) && a.slot(j as int, x) < k + 1 {
                            T::spec_plus(
                                left_sum(*a, *b, x, y, j as int, init.cell(x, y)),
                                T::spec_times(a@[(x, j as int)], factor),
                            )
                        } else {
                            left_sum(*a, *b, x, y, j as int, init.cell(x, y))
                        }
                    } else {
                        init.cell(x, y)
                    } by {
                    lemma_cell_index(m as int, n as int, x, y);
                    lemma_cell_index(m as int, n as int, i as int, c as int);
                    assert(before.cell(x, y) == if y == c {
                        if a@.contains_key((x, j as int)) && a.slot(j as int, x) < k {
                            T::spec_plus(
                                left_sum(*a, *b, x, y, j as int, init.cell(x, y)),
                                T::spec_times(a@[(x, j as int)], factor),
                            )
                        } else {
                            left_sum(*a, *b, x, y, j as int, init.cell(x, y))
                        }
                    } else {
                        init.cell(x, y)
                    });
                    if x != i || y != c {
                        if y * m + x == c * m + i {
                            lemma_cell_distinct(m as int, x, y, i as int, c as int);
                        }
                        if y == c && a@.contains_key((x, j as int)) {
                            lemma_stored(*a, x, j as int);
                        }
                    }
                }
            }
            k += 1;
        }
        proof {
            assert forall|x: int, y: int|
                0 <= x < m && 0 <= y < n implies #[trigger] result.cell(x, y) == if y == c {
                    left_sum(*a, *b, x, y, j + 1, init.cell(x, y))
                } else {
                    init.cell(x, y)
                } by {
                if y == c && a@.contains_key((x, j as int)) {
                    lemma_stored(*a, x, j as int);
                }
            }
        }
        j += 1;
    }
}

/// Add the product of `a` and `b` to `result`, column by column.
fn multiply_matrix_left<T: Number>(a: &Compressed<T>, b: &Conventional<T>, result: &mut Conventional<T>)
    requires
        a.wf(),
        a.variant == Variant::Column,
        b.wf(),
        old(result).wf(),
        b.rows == a.columns,
        old(result).rows == a.rows,
        old(result).columns == b.columns,
    ensures
        final(result).wf(),
        final(result).rows == old(result).rows,
        final(result).columns == old(result).columns,
        forall|i: int, c: int|
            0 <= i < a.rows && 0 <= c < b.columns ==> #[trigger] final(result).cell(i, c)
                == left_sum(*a, *b, i, c, a.columns as int, old(result).cell(i, c)),
{
    let ghost init = *result;
    let (m, p, n) = (a.rows, a.columns, b.columns);
    let mut c: usize = 0;
    while c < n
        invariant
            a.wf(),
            a.variant == Variant::Column,
            b.wf(),
            init.wf(),
            result.wf(),
            (m, p, n) == (a.rows, a.columns, b.columns),
            b.rows == p,
            init.rows == m && init.columns == n,
            result.rows == m && result.columns == n,
            c <= n,
            forall|x: int, y: int|
                0 <= x < m && 0 <= y < n ==> #[trigger] result.cell(x, y) == if y < c {
                    left_sum(*a, *b, x, y, p as int, init.cell(x, y))
                } else {
                    init.cell(x, y)
                },
        decreases n - c,
    {
        let ghost before = *result;
        multiply_vector_left(a, b, result, c);
        proof {
            assert forall|x: int, y: int|
                0 <= x < m && 0 <= y < n implies #[trigger] result.cell(x, y) == if y < c + 1 {
                    left_sum(*a, *b, x, y, p as int, init.cell(x, y))
                } else {
                    init.cell(x, y)
                } by {
                assert(before.cell(x, y) == if y < c {
                    left_sum(*a, *b, x, y, p as int, init.cell(x, y))
                } else {
                    init.cell(x, y)
                });
            }
        }
        c += 1;
    }
}


/// A conventional matrix times a compressed-column one, added into a
/// conventional one, which is not zeroed first.
impl<T: Number> MultiplyInto<Compressed<T>, Conventional<T>> for Conventional<T> {
    open spec fn multiply_into_requires(&self, right: &Compressed<T>, result: &Conventional<T>) -> bool {
        &&& self.wf()
        &&& right.wf()
        &&& right.variant == Variant::Column
        &&& result.wf()
        &&& right.rows == self.columns
        &&& result.rows == self.rows
        &&& result.columns == right.columns
    }

    open spec fn multiply_into_ensures(
        &self,
        right: &Compressed<T>,
        before: &Conventional<T>,
        after: &Conventional<T>,
    ) -> bool {
        &&& after.wf()
        &&& after.rows == before.rows
        &&& after.columns == before.columns
        &&& forall|i: int, j: int|
            0 <= i < self.rows && 0 <= j < right.columns ==> #[trigger] after.cell(i, j)
                == right_sum(*self, *right, i, j, right.rows as int, before.cell(i, j))
    }

    fn multiply_into(&self, right: &Compressed<T>, result: &mut Conventional<T>) {
        multiply_matrix_right(self, right, result);
    }
}

/// Add the product of `a` and column `j` of `b` to column `j` of `result`.
fn multiply_vector_right<T: Number>(
    a: &Conventional<T>,
    b: &Compressed<T>,
    result: &mut Conventional<T>,
    j: usize,
)
    requires
        a.wf(),
        b.wf(),
        b.variant == Variant::Column,
        old(result).wf(),
        b.rows == a.columns,
        old(result).rows == a.rows,
        old(result).columns == b.columns,
        j < b.columns,
    ensures
        final(result).wf(),
        final(result).rows == old(result).rows,
        final(result).columns == old(result).columns,
        forall|x: int, y: int|
            0 <= x < a.rows && 0 <= y < b.columns ==> #[trigger] final(result).cell(x, y) == if y == j {
                right_sum(*a, *b, x, y, b.rows as int, old(result).cell(x, y))
            } else {
                old(result).cell(x, y)
            },
{
    let ghost init = *result;
    let (m, p, n) = (a.rows, a.columns, b.columns);
    let end = b.offsets[j + 1];
    let mut k = b.offsets[j];
    proof {
        assert forall|x: int| 0 <= x < m implies right_sum(*a, *b, x, j as int, if k < end {
            b.indices@[k as int] as int
        } else {
            p as int
        }, init.cell(x, j as int)) == init.cell(x, j as int) by {
            let high = if k < end {
                b.indices@[k as int] as int
            } else {
                p as int
            };
            assert forall|l: int| 0 <= l < high implies !#[trigger] b@.contains_key(
                (l, j as int),
            ) by {
                if b@.contains_key((l, j as int)) {
                    lemma_stored(*b, l, j as int);
                    let t = b.slot(j as int, l);
                    assert(b.in_group(j as int, k as int) && b.in_group(j as int, t));
                }
            }
            lemma_right_sum_skip(*a, *b, x, j as int, 0, high, init.cell(x, j as int));
        }
    }
    while k < end
        invariant
            a.wf(),
            b.wf(),
            b.variant == Variant::Column,
            init.wf(),
            result.wf(),
            (m, p, n) == (a.rows, a.columns, b.columns),
            b.rows == p,
            init.rows == m && init.columns == n,
            result.rows == m && result.columns == n,
            j < n,
            end == b.offsets@[j + 1],
            b.offsets@[j as int] <= k <= end,
            forall|x: int, y: int|
                0 <= x < m && 0 <= y < n ==> #[trigger] result.cell(x, y) == if y == j {
                    right_sum(*a, *b, x, y, if k < end {
                        b.indices@[k as int] as int
                    } else {
                        p as int
                    }, init.cell(x, y))
                } else {
                    init.cell(x, y)
                },
        decreases end - k,
    {
        assert(b.offsets@[j + 1] <= b.offsets@[b.major_count()]);
        assert(b.in_group(j as int, k as int));
        let l = b.indices[k];
        let value = b.values[k];
        proof {
            lemma_slot(*b, j as int, k as int);
            assert(b.position_at(j as int, k as int) == (l as int, j as int));
        }
        let mut i: usize = 0;
        while i < m
            invariant
                a.wf(),
                b.wf(),
                init.wf(),
                result.wf(),
                (m, p, n) == (a.rows, a.columns, b.columns),
                b.rows == p,
                init.rows == m && init.columns == n,
                result.rows == m && result.columns == n,
                j < n,
                l < p,
                b@.contains_key((l as int, j as int)),
                b@[(l as int, j as int)] == value,
                i <= m,
                forall|x: int, y: int|
                    0 <= x < m && 0 <= y < n ==> #[trigger] result.cell(x, y) == if y == j {
                        if x < i {
                            right_sum(*a, *b, x, y, l + 1, init.cell(x, y))
                        } else {
                            right_sum(*a, *b, x, y, l as int, init.cell(x, y))
                        }
                    } else {
                        init.cell(x, y)
                    },
            decreases m - i,
        {
            let current = result.get((i, j));
            let factor = a.get((i, l));
            let ghost before = *result;
            result.set((i, j), current.plus(value.times(factor)));
            proof {
                assert forall|x: int, y: int|
                    0 <= x < m && 0 <= y < n implies #[trigger] result.cell(x, y) == if y == j {
                        if x < i + 1 {
                            right_sum(*a, *b, x, y, l + 1, init.cell(x, y))
                        } else {
                            right_sum(*a, *b, x, y, l as int, init.cell(x, y))
                        }
                    } else {
                        init.cell(x, y)
                    } by {
                    lemma_cell_index(m as int, n as int, x, y);
                    lemma_cell_index(m as int, n as int, i as int, j as int);
                    assert(before.cell(x, y) == if y == j {
                        if x < i {
                            right_sum(*a, *b, x, y, l + 1, init.cell(x, y))
                        } else {
                            right_sum(*a, *b, x, y, l as int, init.cell(x, y))
                        }
                    } else {
                        init.cell(x, y)
                    });
                    if x != i || y != j {
                        if y * m + x == j * m + i {
                            lemma_cell_distinct(m as int, x, y, i as int, j as int);
                        }
                    }
                }
            }
            i += 1;
        }
        proof {
            let high = if k + 1 < end {
                b.indices@[k + 1] as int
            } else {
                p as int
            };
            if k + 1 < end {
                assert(b.in_group(j as int, k + 1));
                assert(b.indices@[k as int] < b.indices@[k + 1]);
            }
            assert forall|x: int| 0 <= x < m implies right_sum(*a, *b, x, j as int, high, init.cell(x, j as int))
                == right_sum(*a, *b, x, j as int, l + 1, init.cell(x, j as int)) by {
                assert forall|t: int| l + 1 <= t < high implies !#[trigger] b@.contains_key(
                    (t, j as int),
                ) by {
                    if b@.contains_key((t, j as int)) {
                        lemma_stored(*b, t, j as int);
                        let s = b.slot(j as int, t);
                        if s <= k {
                            if s < k {
                                assert(b.in_group(j as int, s) && b.in_group(j as int, k as int));
                            }
                        } else if s > k + 1 {
                            assert(b.in_group(j as int, s) && b.in_group(j as int, k + 1));
                        }
                    }
                }
                lemma_right_sum_skip(*a, *b, x, j as int, l + 1, high, init.cell(x, j as int));
            }
        }
        k += 1;
    }
}

/// Add the product of `a` and `b` to `result`, column by column.
fn multiply_matrix_right<T: Number>(a: &Conventional<T>, b: &Compressed<T>, result: &mut Conventional<T>)
    requires
        a.wf(),
        b.wf(),
        b.variant == Variant::Column,
        old(result).wf(),
        b.rows == a.columns,
        old(result).rows == a.rows,
        old(result).columns == b.columns,
    ensures
        final(result).wf(),
        final(result).rows == old(result).rows,
        final(result).columns == old(result).columns,
        forall|i: int, j: int|
            0 <= i < a.rows && 0 <= j < b.columns ==> #[trigger] final(result).cell(i, j)
                == right_sum(*a, *b, i, j, b.rows as int, old(result).cell(i, j)),
{
    let ghost init = *result;
    let (m, p, n) = (a.rows, a.columns, b.columns);
    let mut j: usize = 0;
    while j < n
        invariant
            a.wf(),
            b.wf(),
            b.variant == Variant::Column,
            init.wf(),
            result.wf(),
            (m, p, n) == (a.rows, a.columns, b.columns),
            b.rows == p,
            init.rows == m && init.columns == n,
            result.rows == m && result.columns == n,
            j <= n,
            forall|x: int, y: int|
                0 <= x < m && 0 <= y < n ==> #[trigger] result.cell(x, y) == if y < j {
                    right_sum(*a, *b, x, y, p as int, init.cell(x, y))
                } else {
                    init.cell(x, y)
                },
        decreases n - j,
    {
        let ghost before = *result;
        multiply_vector_right(a, b, result, j);
        proof {
            assert forall|x: int, y: int|
                0 <= x < m && 0 <= y < n implies #[trigger] result.cell(x, y) == if y < j + 1 {
                    right_sum(*a, *b, x, y, p as int, init.cell(x, y))
                } else {
                    init.cell(x, y)
                } by {
                assert(before.cell(x, y) == if y < j {
                    right_sum(*a, *b, x, y, p as int, init.cell(x, y))
                } else {
                    init.cell(x, y)
                });
            }
        }
        j += 1;
    }
}


/// The transpose of a map from positions: `(i, j)` goes to `(j, i)`.
pub open spec fn transpose_view<T>(m: Map<(int, int), T>) -> Map<(int, int), T> {
    Map::new(|p: (int, int)| m.contains_key((p.1, p.0)), |p: (int, int)| m[(p.1, p.0)])
}

/// The transpose of a compressed matrix, in the same variant.
impl<T: Element> Transpose for Compressed<T> {
    open spec fn transpose_requires(&self) -> bool {
        &&& self.wf()
        &&& major_size(self.variant, self.columns as int, self.rows as int) < usize::MAX
    }

    open spec fn transpose_ensures(&self, r: &Self) -> bool {
        &&& r.wf()
        &&& r.rows == self.columns
        &&& r.columns == self.rows
        &&& r.variant == self.variant
        &&& r.nonzeros == self.nonzeros
        &&& r@ == transpose_view(self@)
    }

    fn transpose(&self) -> (r: Self) {
        let mut matrix = Compressed::with_capacity((self.columns, self.rows), self.variant, self.nonzeros);
        let count: usize = match self.variant {
            Variant::Column => self.columns,
            Variant::Row => self.rows,
        };
        let mut g: usize = 0;
        let mut k: usize = 0;
        while g < count
            invariant
                self.wf(),
                count == self.major_count(),
                matrix.wf(),
                matrix.rows == self.columns,
                matrix.columns == self.rows,
                matrix.variant == self.variant,
                g <= count,
                k == self.offsets@[g as int],
                matrix.nonzeros == k,
                matrix@ == Map::new(
                    |q: (int, int)| self@.contains_key((q.1, q.0)) && self.slot(
                        self.major_of(q.1, q.0),
                        self.minor_of(q.1, q.0),
                    ) < k,
                    |q: (int, int)| self@[(q.1, q.0)],
                ),
            decreases count - g,
        {
            let end = self.offsets[g + 1];
            while k < end
                invariant
                    self.wf(),
                    count == self.major_count(),
                    matrix.wf(),
                    matrix.rows == self.columns,
                    matrix.columns == self.rows,
                    matrix.variant == self.variant,
                    g < count,
                    end == self.offsets@[g + 1],
                    self.offsets@[g as int] <= k <= end,
                    matrix.nonzeros == k,
                    matrix@ == Map::new(
                        |q: (int, int)| self@.contains_key((q.1, q.0)) && self.slot(
                            self.major_of(q.1, q.0),
                            self.minor_of(q.1, q.0),
                        ) < k,
                        |q: (int, int)| self@[(q.1, q.0)],
                    ),
                decreases end - k,
            {
                assert(self.offsets@[g + 1] <= self.offsets@[self.major_count()]);
                assert(self.in_group(g as int, k as int));
                assert(self.indices@[k as int] < self.minor_count());
                let (i, j) = self.variant.denormalize(g, self.indices[k]);
                let ghost before = matrix;
                proof {
                    lemma_slot(*self, g as int, k as int);
                    assert(self.position_at(g as int, k as int) == (i as int, j as int));
                    assert(!before@.contains_key((j as int, i as int)));
                }
                matrix.set((j, i), self.values[k]);
                proof {
                    assert forall|q: (int, int)| #[trigger] matrix@.contains_key(q) implies self@.contains_key((q.1, q.0)) && self.slot(
                        self.major_of(q.1, q.0),
                        self.minor_of(q.1, q.0),
                    ) < k + 1 by {
                        if q != (j as int, i as int) {
                            assert(before@.contains_key(q));
                        }
                    }
                    assert forall|q: (int, int)| self@.contains_key((q.1, q.0)) && self.slot(
                        self.major_of(q.1, q.0),
                        self.minor_of(q.1, q.0),
                    ) < k + 1 implies #[trigger] matrix@.contains_key(q) by {
                        if q != (j as int, i as int) {
                            lemma_stored(*self, q.1, q.0);
                            if self.slot(self.major_of(q.1, q.0), self.minor_of(q.1, q.0)) == k {
                                lemma_group_unique(*self, g as int, self.major_of(q.1, q.0), k as int);
                            }
                            assert(before@.contains_key(q));
                        }
                    }
                    assert(matrix@ =~= Map::new(
                        |q: (int, int)| self@.contains_key((q.1, q.0)) && self.slot(
                            self.major_of(q.1, q.0),
                            self.minor_of(q.1, q.0),
                        ) < k + 1,
                        |q: (int, int)| self@[(q.1, q.0)],
                    ));
                }
                k += 1;
            }
            g += 1;
        }
        proof {
            assert forall|q: (int, int)| #[trigger] matrix@.contains_key(q) == transpose_view(self@).contains_key(q) by {
                if self@.contains_key((q.1, q.0)) {
                    lemma_stored(*self, q.1, q.0);
                    assert(self.offsets@[self.major_of(q.1, q.0) + 1] <= self.offsets@[self.major_count()]);
                }
            }
            assert(matrix@ =~= transpose_view(self@));
        }
        matrix
    }
}

/// A compressed matrix times a diagonal one, in place: the matrix is first
/// resized to the columns of the diagonal matrix, and then each stored
/// element of column `j` is multiplied by the `j`th diagonal element.
impl<T: Number> MultiplySelf<Diagonal<T>> for Compressed<T> {
    open spec fn multiply_self_requires(&self, right: &Diagonal<T>) -> bool {
        &&& self.wf()
        &&& right.wf()
        &&& self.columns == right.rows
        &&& major_size(self.variant, self.rows as int, right.columns as int) < usize::MAX
    }

    open spec fn multiply_self_ensures(before: &Self, right: &Diagonal<T>, after: &Self) -> bool {
        &&& after.wf()
        &&& after.rows == before.rows
        &&& after.columns == right.columns
        &&& after.variant == before.variant
        &&& forall|p: (int, int)| #[trigger] after@.contains_key(p) <==> before@.contains_key(p) && p.1 < right.columns
        &&& forall|p: (int, int)| #[trigger] after@.contains_key(p) ==> after@[p] == T::spec_times(before@[p], right.values@[p.1])
    }

    fn multiply_self(&mut self, right: &Diagonal<T>) {
        let ghost a = *self;
        let rows = self.rows;
        self.resize((rows, right.columns));
        let ghost b = *self;
        proof {
            assert forall|p: (int, int)| #[trigger] b@.contains_key(p) implies p.1 < right.rows by {
                lemma_stored(a, p.0, p.1);
            }
        }
        let count: usize = match self.variant {
            Variant::Column => self.columns,
            Variant::Row => self.rows,
        };
        let mut g: usize = 0;
        let mut k: usize = 0;
        while g < count
            invariant
                b.wf(),
                right.wf(),
                count == b.major_count(),
                b.columns == right.columns,
                forall|p: (int, int)| #[trigger] b@.contains_key(p) ==> p.1 < right.rows,
                self.rows == b.rows,
                self.columns == b.columns,
                self.variant == b.variant,
                self.nonzeros == b.nonzeros,
                self.indices == b.indices,
                self.offsets == b.offsets,
                self.values@.len() == b.values@.len(),
                g <= count,
                k == b.offsets@[g as int],
                forall|h: int, t: int| #![trigger b.in_group(h, t)]
                    b.in_group(h, t) ==> self.values@[t] == if t < k {
                        T::spec_times(b.values@[t], right.values@[b.position_at(h, t).1])
                    } else {
                        b.values@[t]
                    },
            decreases count - g,
        {
            let end = self.offsets[g + 1];
            while k < end
                invariant
                    b.wf(),
                    right.wf(),
                    count == b.major_count(),
                    b.columns == right.columns,
                    forall|p: (int, int)| #[trigger] b@.contains_key(p) ==> p.1 < right.rows,
                    self.rows == b.rows,
                    self.columns == b.columns,
                    self.variant == b.variant,
                    self.nonzeros == b.nonzeros,
                    self.indices == b.indices,
                    self.offsets == b.offsets,
                    self.values@.len() == b.values@.len(),
                    g < count,
                    end == b.offsets@[g + 1],
                    b.offsets@[g as int] <= k <= end,
                    forall|h: int, t: int| #![trigger b.in_group(h, t)]
                        b.in_group(h, t) ==> self.values@[t] == if t < k {
                            T::spec_times(b.values@[t], right.values@[b.position_at(h, t).1])
                        } else {
                            b.values@[t]
                        },
                decreases end - k,
            {
                assert(b.offsets@[g + 1] <= b.offsets@[b.major_count()]);
                assert(b.in_group(g as int, k as int));
                assert(b.indices@[k as int] < b.minor_count());
                let (_, j) = self.variant.denormalize(g, self.indices[k]);
                assert(j == b.position_at(g as int, k as int).1);
                proof {
                    lemma_slot(b, g as int, k as int);
                }
                let ghost before = self.values@;
                let scaled = self.values[k].times(right.values[j]);
                self.values.set(k, scaled);
                proof {
                    assert forall|h: int, t: int| #![trigger b.in_group(h, t)]
                        b.in_group(h, t) implies self.values@[t] == if t < k + 1 {
                            T::spec_times(b.values@[t], right.values@[b.position_at(h, t).1])
                        } else {
                            b.values@[t]
                        } by {
                        if t == k {
                            lemma_group_unique(b, h, g as int, t);
                        }
                    }
                }
                k += 1;
            }
            g += 1;
        }
        proof {
            assert forall|h: int, t: int| #[trigger] self.in_group(h, t) == b.in_group(h, t) by {}
            assert(self.wf());
            assert forall|h: int, mm: int| #[trigger] self.has(h, mm) == b.has(h, mm) by {
                if b.has(h, mm) {
                    let t = b.slot(h, mm);
                    assert(self.in_group(h, t) && self.indices@[t] == mm);
                }
                if self.has(h, mm) {
                    let t = self.slot(h, mm);
                    assert(b.in_group(h, t) && b.indices@[t] == mm);
                }
            }
            assert forall|p: (int, int)| #[trigger] self@.contains_key(p) <==> a@.contains_key(p) && p.1 < right.columns by {
                assert(self@.contains_key(p) == b@.contains_key(p));
                if a@.contains_key(p) {
                    lemma_stored(a, p.0, p.1);
                }
            }
            assert forall|p: (int, int)| #[trigger] self@.contains_key(p) implies self@[p] == T::spec_times(a@[p], right.values@[p.1]) by {
                lemma_stored(b, p.0, p.1);
                let h = b.major_of(p.0, p.1);
                let t = b.slot(h, b.minor_of(p.0, p.1));
                lemma_slot(*self, h, t);
            }
        }
    }
}

/// A copy of a vector.
fn copy_vec<V: Copy>(v: &Vec<V>) -> (r: Vec<V>)
    ensures
        r@ == v@,
{
    let mut r: Vec<V> = Vec::with_capacity(v.len());
    let mut k: usize = 0;
    while k < v.len()
        invariant
            k <= v@.len(),
            r@ == v@.subrange(0, k as int),
        decreases v@.len() - k,
    {
        r.push(v[k]);
        k += 1;
    }
    assert(r@ =~= v@);
    r
}

impl<T: Element> Compressed<T> {
    /// A copy of the matrix.
    fn duplicate(&self) -> (r: Self)
        requires
            self.wf(),
        ensures
            r.rows == self.rows,
            r.columns == self.columns,
            r.nonzeros == self.nonzeros,
            r.variant == self.variant,
            r.values@ == self.values@,
            r.indices@ == self.indices@,
            r.offsets@ == self.offsets@,
            r.wf(),
            r@ == self@,
    {
        let r = Compressed {
            rows: self.rows,
            columns: self.columns,
            nonzeros: self.nonzeros,
            variant: self.variant,
            values: copy_vec(&self.values),
            indices: copy_vec(&self.indices),
            offsets: copy_vec(&self.offsets),
        };
        proof {
            assert forall|g: int, k: int| #[trigger] r.in_group(g, k) == self.in_group(g, k) by {}
            assert forall|g: int, m: int| #[trigger] r.has(g, m) == self.has(g, m) by {
                if self.has(g, m) {
                    let k = self.slot(g, m);
                    assert(r.in_group(g, k) && r.indices@[k] == m);
                }
                if r.has(g, m) {
                    let k = r.slot(g, m);
                    assert(self.in_group(g, k) && self.indices@[k] == m);
                }
            }
            assert(r.wf());
            assert forall|p: (int, int)| #[trigger] r@.contains_key(p) implies r@[p] == self@[p] by {
                lemma_stored(*self, p.0, p.1);
                let g = self.major_of(p.0, p.1);
                let k = self.slot(g, self.minor_of(p.0, p.1));
                lemma_slot(r, g, k);
            }
            assert(r@ =~= self@);
        }
        r
    }
}

/// A compressed matrix times a diagonal one, into a new compressed matrix.
impl<T: Number> Multiply<Diagonal<T>, Compressed<T>> for Compressed<T> {
    open spec fn multiply_requires(&self, right: &Diagonal<T>) -> bool {
        self.multiply_self_requires(right)
    }

    open spec fn multiply_ensures(&self, right: &Diagonal<T>, r: &Compressed<T>) -> bool {
        Self::multiply_self_ensures(self, right, r)
    }

    fn multiply(&self, right: &Diagonal<T>) -> (r: Compressed<T>) {
        let mut result = self.duplicate();
        result.multiply_self(right);
        result
    }
}

/// A conventional matrix times a diagonal one, in place: the matrix is first
/// resized to the columns of the diagonal matrix, and then each element of
/// column `j` is multiplied by the `j`th diagonal element.
impl<T: Number> MultiplySelf<Diagonal<T>> for Conventional<T> {
    open spec fn multiply_self_requires(&self, right: &Diagonal<T>) -> bool {
        &&& self.wf()
        &&& right.wf()
        &&& self.columns == right.rows
        &&& right.rows <= right.columns
        &&& self.rows * right.columns <= usize::MAX
    }

    open spec fn multiply_self_ensures(before: &Self, right: &Diagonal<T>, after: &Self) -> bool {
        &&& after.wf()
        &&& after.rows == before.rows
        &&& after.columns == right.columns
        &&& forall|i: int, j: int|
            0 <= i < after.rows && 0 <= j < after.columns ==> #[trigger] after.cell(i, j) == if j
                < right.rows {
                T::spec_times(right.values@[j], before.cell(i, j))
            } else {
                T::spec_zero()
            }
    }

    fn multiply_self(&mut self, right: &Diagonal<T>) {
        let ghost a = *self;
        let (rows, insides, columns) = (self.rows, self.columns, right.columns);
        self.resize((rows, columns));
        let mut j: usize = 0;
        while j < insides
            invariant
                a.wf(),
                right.wf(),
                a.rows == rows,
                a.columns == insides,
                insides == right.rows,
                insides <= columns,
                columns == right.columns,
                self.wf(),
                self.rows == rows,
                self.columns == columns,
                j <= insides,
                forall|x: int, y: int|
                    0 <= x < rows && 0 <= y < columns ==> #[trigger] self.cell(x, y) == if y < insides {
                        if y < j {
                            T::spec_times(right.values@[y], a.cell(x, y))
                        } else {
                            a.cell(x, y)
                        }
                    } else {
                        T::spec_zero()
                    },
            decreases insides - j,
        {
            let factor = right.values[j];
            let mut i: usize = 0;
            while i < rows
                invariant
                    a.wf(),
                    right.wf(),
                    a.rows == rows,
                    a.columns == insides,
                    insides == right.rows,
                    insides <= columns,
                    columns == right.columns,
                    self.wf(),
                    self.rows == rows,
                    self.columns == columns,
                    j < insides,
                    i <= rows,
                    factor == right.values@[j as int],
                    forall|x: int, y: int|
                        0 <= x < rows && 0 <= y < columns ==> #[trigger] self.cell(x, y) == if y < insides {
                            if y < j || (y == j && x < i) {
                                T::spec_times(right.values@[y], a.cell(x, y))
                            } else {
                                a.cell(x, y)
                            }
                        } else {
                            T::spec_zero()
                        },
                decreases rows - i,
            {
                let value = self.get((i, j));
                let ghost before = *self;
                self.set((i, j), factor.times(value));
                proof {
                    assert forall|x: int, y: int|
                        0 <= x < rows && 0 <= y < columns implies #[trigger] self.cell(x, y) == if y < insides {
                            if y < j || (y == j && x < i + 1) {
                                T::spec_times(right.values@[y], a.cell(x, y))
                            } else {
                                a.cell(x, y)
                            }
                        } else {
                            T::spec_zero()
                        } by {
                        lemma_cell_index(rows as int, columns as int, x, y);
                        lemma_cell_index(rows as int, columns as int, i as int, j as int);
                        assert(before.cell(x, y) == if y < insides {
                            if y < j || (y == j && x < i) {
                                T::spec_times(right.values@[y], a.cell(x, y))
                            } else {
                                a.cell(x, y)
                            }
                        } else {
                            T::spec_zero()
                        });
                        if x != i || y != j {
                            if y * rows + x == j * rows + i {
                                lemma_cell_distinct(rows as int, x, y, i as int, j as int);
                            }
                        }
                    }
                }
                i += 1;
            }
            j += 1;
        }
    }
}

} // verus!
