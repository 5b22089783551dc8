//! The packed format.
//!
//! The format is suitable for symmetric, Hermitian and triangular matrices:
//! only the lower or the upper triangle is stored, column by column.
use vstd::prelude::*;

use crate::element::{count_nonzero, Element};
use crate::format::conventional::{lemma_cell_distinct, lemma_cell_index, Conventional};
use crate::operation::Transpose;
use crate::size::Size;

verus! {

/// A variant of a packed matrix.
#[derive(Clone, Copy, Debug, PartialEq, Eq, Structural)]
pub enum Variant {
    /// The lower-triangular variant.
    Lower,
    /// The upper-triangular variant.
    Upper,
}

impl Variant {
    /// Return the other variant.
    pub fn flip(&self) -> (r: Variant)
        ensures
            r != *self,
    {
        match *self {
            Variant::Lower => Variant::Upper,
            Variant::Upper => Variant::Lower,
        }
    }
}

/// A packed matrix.
#[derive(Clone, Debug, PartialEq)]
pub struct Packed<T: Element> {
    /// The number of rows and of columns.
    pub size: usize,
    /// The format variant.
    pub variant: Variant,
    /// The values of the lower triangle when `variant = Lower` or of the
    /// upper triangle when `variant = Upper`, column by column.
    pub values: Vec<T>,
}

/// Where column `j` of the upper triangle starts: `j (j + 1) / 2`.
pub open spec fn upper_offset(j: int) -> int
    decreases j,
{
    if j <= 0 {
        0
    } else {
        upper_offset(j - 1) + j
    }
}

/// Where column `j` of the lower triangle of an `n × n` matrix starts.
pub open spec fn lower_offset(n: int, j: int) -> int
    decreases j,
{
    if j <= 0 {
        0
    } else {
        lower_offset(n, j - 1) + (n - (j - 1))
    }
}

/// Twice the start of column `j` of the upper triangle is `j (j + 1)`.
pub proof fn lemma_upper_offset(j: int)
    requires
        0 <= j,
    ensures
        2 * upper_offset(j) == j * (j + 1),
        upper_offset(j) >= 0,
    decreases j,
{
    if j > 0 {
        lemma_upper_offset(j - 1);
        assert((j - 1) * j + 2 * j == j * (j + 1)) by (nonlinear_arith);
    }
}

/// The lower triangle takes as much room as the upper one, and its columns
/// start in order.
pub proof fn lemma_lower_offset(n: int, j: int)
    requires
        0 <= j <= n,
    ensures
        lower_offset(n, j) + upper_offset(n - j) == upper_offset(n),
        0 <= lower_offset(n, j) <= upper_offset(n),
    decreases j,
{
    lemma_upper_offset(n - j);
    if j > 0 {
        lemma_lower_offset(n, j - 1);
    }
}

/// The start of an upper column grows with the column.
pub proof fn lemma_upper_offset_grows(a: int, b: int)
    requires
        0 <= a <= b,
    ensures
        upper_offset(a) + a <= upper_offset(b) || a == b,
        upper_offset(a) <= upper_offset(b),
    decreases b - a,
{
    if a < b {
        lemma_upper_offset_grows(a, b - 1);
    }
}

/// The number of elements of the stored triangle: `n (n + 1) / 2`.
fn storage(n: usize) -> (r: usize)
    requires
        n * (n + 1) <= usize::MAX,
    ensures
        r == upper_offset(n as int),
{
    proof {
        lemma_upper_offset(n as int);
        assert(n < usize::MAX) by (nonlinear_arith)
            requires
                n * (n + 1) <= usize::MAX,
        ;
    }
    n * (n + 1) / 2
}

impl<T: Element> Packed<T> {
    /// The storage holds the triangle.
    pub open spec fn wf(&self) -> bool {
        &&& self.values@.len() == upper_offset(self.size as int)
        &&& self.size * (self.size + 1) <= usize::MAX
    }

    /// Position `(i, j)` lies in the stored triangle.
    pub open spec fn stored(&self, i: int, j: int) -> bool {
        &&& 0 <= i < self.size
        &&& 0 <= j < self.size
        &&& match self.variant {
            Variant::Lower => i >= j,
            Variant::Upper => i <= j,
        }
    }

    /// The place of a position of the stored triangle.
    pub open spec fn index(&self, i: int, j: int) -> int {
        match self.variant {
            Variant::Lower => lower_offset(self.size as int, j) + (i - j),
            Variant::Upper => upper_offset(j) + i,
        }
    }

    /// The element in row `i` and column `j`: zero outside the triangle.
    pub open spec fn cell(&self, i: int, j: int) -> T {
        if self.stored(i, j) {
            self.values@[self.index(i, j)]
        } else {
            T::spec_zero()
        }
    }

    /// Create a zero matrix.
    pub fn new<S: Size>(size: S, variant: Variant) -> (r: Self)
        requires
            size.spec_rows() == size.spec_columns(),
            size.spec_rows() * (size.spec_rows() + 1) <= usize::MAX,
        ensures
            r.wf(),
            r.size == size.spec_rows(),
            r.variant == variant,
            forall|k: int| 0 <= k < r.values@.len() ==> #[trigger] r.values@[k] == T::spec_zero(),
    {
        let (rows, _columns) = size.dimensions();
        let n = storage(rows);
        let mut values: Vec<T> = Vec::with_capacity(n);
        let mut k: usize = 0;
        while k < n
            invariant
                k <= n,
                values@.len() == k,
                forall|t: int| 0 <= t < k ==> #[trigger] values@[t] == T::spec_zero(),
            decreases n - k,
        {
            values.push(T::zero());
            k += 1;
        }
        Packed { size: rows, variant, values }
    }

    /// Count the stored elements that are not zero.
    pub fn nonzeros(&self) -> (r: usize)
        ensures
            r == count_nonzero(self.values@),
    {
        let mut count: usize = 0;
        let mut k: usize = 0;
        while k < self.values.len()
            invariant
                k <= self.values@.len(),
                count == count_nonzero(self.values@.subrange(0, k as int)),
                count <= k,
            decreases self.values@.len() - k,
        {
            proof {
                let s = self.values@.subrange(0, k + 1);
                assert(s.drop_last() =~= self.values@.subrange(0, k as int));
            }
            if !self.values[k].is_zero() {
                count += 1;
            }
            k += 1;
        }
        assert(self.values@.subrange(0, k as int) =~= self.values@);
        count
    }
}

/// The place of `(i, j)` in the lower triangle, for `j <= i`, comes from
/// the order in which the lower triangle is walked.
proof fn lemma_lower_index(n: int, i: int, j: int)
    requires
        0 <= j <= i < n,
    ensures
        0 <= lower_offset(n, j) + (i - j) < upper_offset(n),
        lower_offset(n, j) + (i - j) < lower_offset(n, j + 1),
        lower_offset(n, j) <= lower_offset(n, j) + (i - j),
{
    lemma_lower_offset(n, j + 1);
    lemma_lower_offset(n, j);
}

/// The place of `(i, j)` in the upper triangle, for `i <= j`.
proof fn lemma_upper_index(n: int, i: int, j: int)
    requires
        0 <= i <= j < n,
    ensures
        0 <= upper_offset(j) + i < upper_offset(n),
        upper_offset(j) + i < upper_offset(j + 1),
{
    lemma_upper_offset_grows(j + 1, n);
    lemma_upper_offset(j);
}

impl<T: Element> Conventional<T> {
    /// Convert a packed matrix: every element outside the triangle is zero.
    pub fn from_packed(matrix: &Packed<T>) -> (r: Conventional<T>)
        requires
            matrix.wf(),
            matrix.size * matrix.size <= usize::MAX,
        ensures
            r.wf(),
            r.rows == matrix.size,
            r.columns == matrix.size,
            forall|i: int, j: int|
                0 <= i < r.rows && 0 <= j < r.columns ==> #[trigger] r.cell(i, j) == matrix.cell(i, j),
    {
        let n = matrix.size;
        let lower = matrix.variant == Variant::Lower;
        let mut result = Conventional::new((n, n));
        proof {
            assert forall|x: int, y: int|
                0 <= x < n && 0 <= y < n implies #[trigger] result.cell(x, y) == T::spec_zero() by {
                lemma_cell_index(n as int, n as int, x, y);
            }
        }
        let mut k: usize = 0;
        let mut j: usize = 0;
        while j < n
            invariant
                matrix.wf(),
                n == matrix.size,
                lower == (matrix.variant == Variant::Lower),
                result.wf(),
                result.rows == n,
                result.columns == n,
                j <= n,
                k == if lower { lower_offset(n as int, j as int) } else { upper_offset(j as int) },
                forall|x: int, y: int|
                    0 <= x < n && 0 <= y < n ==> #[trigger] result.cell(x, y) == if y < j {
                        matrix.cell(x, y)
                    } else {
                        T::spec_zero()
                    },
            decreases n - j,
        {
            let mut i: usize = if lower { j } else { 0 };
            let finish: usize = if lower { n } else { j + 1 };
            while i < finish
                invariant
                    matrix.wf(),
                    n == matrix.size,
                    lower == (matrix.variant == Variant::Lower),
                    result.wf(),
                    result.rows == n,
                    result.columns == n,
                    j < n,
                    finish == if lower { n as int } else { j + 1 },
                    (if lower { j as int } else { 0 }) <= i <= finish,
                    k == if lower {
                        lower_offset(n as int, j as int) + (i - j)
                    } else {
                        upper_offset(j as int) + i
                    },
                    forall|x: int, y: int|
                        0 <= x < n && 0 <= y < n ==> #[trigger] result.cell(x, y) == if y < j || (y
                            == j && x < i && matrix.stored(x, y)) {
                            matrix.cell(x, y)
                        } else {
                            T::spec_zero()
                        },
                decreases finish - i,
            {
                proof {
                    if lower {
                        lemma_lower_index(n as int, i as int, j as int);
                    } else {
                        lemma_upper_index(n as int, i as int, j as int);
                    }
                }
                proof {
                    lemma_upper_offset(n as int);
                }
                let ghost before = result;
                result.set((i, j), matrix.values[k]);
                proof {
                    assert forall|x: int, y: int|
                        0 <= x < n && 0 <= y < n implies #[trigger] result.cell(x, y) == if y < j || (y
                            == j && x < i + 1 && matrix.stored(x, y)) {
                            matrix.cell(x, y)
                        } else {
                            T::spec_zero()
                        } by {
                        lemma_cell_index(n as int, n as int, x, y);
                        lemma_cell_index(n as int, n as int, i as int, j as int);
                        assert(before.cell(x, y) == if y < j || (y == j && x < i && matrix.stored(x, y)) {
                            matrix.cell(x, y)
                        } else {
                            T::spec_zero()
                        });
                        if x != i || y != j {
                            if y * n + x == j * n + i {
                                lemma_cell_distinct(n as int, x, y, i as int, j as int);
                            }
                        }
                    }
                }
                i += 1;
                k += 1;
            }
            proof {
                if lower {
                    lemma_lower_offset(n as int, j + 1);
                }
                assert forall|x: int, y: int|
                    0 <= x < n && 0 <= y < n implies #[trigger] result.cell(x, y) == if y < j + 1 {
                        matrix.cell(x, y)
                    } else {
                        T::spec_zero()
                    } by {
                    if y == j && !matrix.stored(x, y) {
                    }
                }
            }
            j += 1;
        }
        result
    }
}

/// The transpose of a packed matrix: the stored triangle changes sides.
impl<T: Element> Transpose for Packed<T> {
    open spec fn transpose_requires(&self) -> bool {
        self.wf()
    }

    open spec fn transpose_ensures(&self, r: &Self) -> bool {
        &&& r.wf()
        &&& r.size == self.size
        &&& r.variant != self.variant
        &&& forall|i: int, j: int|
            0 <= i < self.size && 0 <= j < self.size ==> #[trigger] r.cell(j, i) == self.cell(i, j)
    }

    fn transpose(&self) -> (r: Self) {
        let n = self.size;
        let lower = self.variant == Variant::Lower;
        let mut matrix = Packed::new(n, self.variant.flip());
        proof {
            lemma_upper_offset(n as int);
            assert forall|x: int, y: int| 0 <= y <= x < n implies 0 <= #[trigger] transposed_place(n as int, lower, x, y) < upper_offset(n as int) by {
                lemma_lower_index(n as int, x, y);
                lemma_upper_index(n as int, y, x);
            }
        }
        let mut k: usize = 0;
        let mut j: usize = 0;
        while j < n
            invariant
                self.wf(),
                n == self.size,
                lower == (self.variant == Variant::Lower),
                matrix.wf(),
                matrix.size == n,
                matrix.variant != self.variant,
                j <= n,
                k == lower_offset(n as int, j as int),
                forall|x: int, y: int|
                    0 <= y <= x < n ==> matrix.values@[#[trigger] transposed_place(n as int, lower, x, y)] == if y < j {
                        if lower {
                            self.values@[lower_offset(n as int, y) + (x - y)]
                        } else {
                            self.values@[upper_offset(x) + y]
                        }
                    } else {
                        T::spec_zero()
                    },
            decreases n - j,
        {
            let mut i = j;
            while i < n
                invariant
                    self.wf(),
                    n == self.size,
                    lower == (self.variant == Variant::Lower),
                    matrix.wf(),
                    matrix.size == n,
                    matrix.variant != self.variant,
                    j < n,
                    j <= i <= n,
                    k == lower_offset(n as int, j as int) + (i - j),
                    forall|x: int, y: int|
                        0 <= y <= x < n ==> matrix.values@[#[trigger] transposed_place(n as int, lower, x, y)] == if y < j || (y == j && x < i) {
                            if lower {
                                self.values@[lower_offset(n as int, y) + (x - y)]
                            } else {
                                self.values@[upper_offset(x) + y]
                            }
                        } else {
                            T::spec_zero()
                        },
                decreases n - i,
            {
                proof {
                    lemma_lower_index(n as int, i as int, j as int);
                    lemma_upper_index(n as int, j as int, i as int);
                    lemma_upper_offset(i as int);
                    lemma_upper_offset(n as int);
                    assert(i * (i + 1) <= n * (n + 1)) by (nonlinear_arith)
                        requires
                            0 <= i < n,
                    ;
                }
                let upper = i * (i + 1) / 2 + j;
                let ghost before = matrix.values@;
                if lower {
                    matrix.values.set(upper, self.values[k]);
                } else {
                    matrix.values.set(k, self.values[upper]);
                }
                proof {
                    assert forall|x: int, y: int|
                        0 <= y <= x < n implies matrix.values@[#[trigger] transposed_place(n as int, lower, x, y)] == if y < j || (y == j && x < i + 1) {
                            if lower {
                                self.values@[lower_offset(n as int, y) + (x - y)]
                            } else {
                                self.values@[upper_offset(x) + y]
                            }
                        } else {
                            T::spec_zero()
                        } by {
                        lemma_lower_index(n as int, x, y);
                        lemma_upper_index(n as int, y, x);
                        let place = transposed_place(n as int, lower, x, y);
                        assert(before[place] == if y < j || (y == j && x < i) {
                            if lower {
                                self.values@[lower_offset(n as int, y) + (x - y)]
                            } else {
                                self.values@[upper_offset(x) + y]
                            }
                        } else {
                            T::spec_zero()
                        });
                        if x != i || y != j {
                            if lower {
                                if x < i {
                                    lemma_upper_offset_grows(x + 1, i as int);
                                } else if x > i {
                                    lemma_upper_offset_grows(i + 1, x);
                                }
                            } else {
                                if y < j {
                                    lemma_lower_offset(n as int, y + 1);
                                    lemma_lower_offset_grows(n as int, y + 1, j as int);
                                } else if y > j {
                                    lemma_lower_offset(n as int, j + 1);
                                    lemma_lower_offset_grows(n as int, j + 1, y);
                                }
                            }
                        }
                    }
                }
                i += 1;
                k += 1;
            }
            proof {
                lemma_lower_offset(n as int, j + 1);
            }
            j += 1;
        }
        proof {
            assert forall|i: int, j: int|
                0 <= i < n && 0 <= j < n implies #[trigger] matrix.cell(j, i) == self.cell(i, j) by {
                if self.stored(i, j) {
                    if lower {
                        assert(matrix.values@[transposed_place(n as int, lower, i, j)] == self.values@[lower_offset(n as int, j) + (i - j)]);
                    } else {
                        assert(matrix.values@[transposed_place(n as int, lower, j, i)] == self.values@[upper_offset(j) + i]);
                    }
                }
            }
        }
        matrix
    }
}

/// Where the transpose puts the element `(x, y)`, for `y <= x`, of the
/// lower triangle (when `lower`) or the element `(y, x)` of the upper one.
pub open spec fn transposed_place(n: int, lower: bool, x: int, y: int) -> int {
    if lower {
        upper_offset(x) + y
    } else {
        lower_offset(n, y) + (x - y)
    }
}

/// The start of a lower column grows with the column.
proof fn lemma_lower_offset_grows(n: int, a: int, b: int)
    requires
        0 <= a <= b <= n,
    ensures
        lower_offset(n, a) <= lower_offset(n, b),
    decreases b - a,
{
    if a < b {
        lemma_lower_offset_grows(n, a, b - 1);
    }
}

/// The size of a packed matrix: it is square.
impl<T: Element> Size for Packed<T> {
    open spec fn spec_rows(&self) -> usize {
        self.size
    }

    open spec fn spec_columns(&self) -> usize {
        self.size
    }

    fn rows(&self) -> (r: usize) {
        self.size
    }

    fn columns(&self) -> (r: usize) {
        self.size
    }
}

} // verus!
