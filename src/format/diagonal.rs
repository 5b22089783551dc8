//! The diagonal format.
//!
//! The format is suitable for diagonal matrices: only the elements of the
//! main diagonal are stored.
use vstd::prelude::*;

use crate::element::{count_nonzero, Element};
use crate::size::Size;

verus! {

/// A diagonal matrix.
#[derive(Clone, Debug, PartialEq)]
pub struct Diagonal<T: Element> {
    /// The number of rows.
    pub rows: usize,
    /// The number of columns.
    pub columns: usize,
    /// The values of the diagonal elements.
    pub values: Vec<T>,
}

/// The smaller of two numbers.
pub open spec fn spec_min(a: int, b: int) -> int {
    if a < b {
        a
    } else {
        b
    }
}

impl<T: Element> Diagonal<T> {
    /// The storage holds one value per diagonal element.
    pub open spec fn wf(&self) -> bool {
        self.values@.len() == spec_min(self.rows as int, self.columns as int)
    }

    /// Create a zero matrix.
    pub fn new<S: Size>(size: S) -> (r: Self)
        ensures
            r.wf(),
            r.rows == size.spec_rows(),
            r.columns == size.spec_columns(),
            forall|k: int| 0 <= k < r.values@.len() ==> #[trigger] r.values@[k] == T::spec_zero(),
    {
        let (rows, columns) = size.dimensions();
        let n = if rows < columns { rows } else { columns };
        let mut values: Vec<T> = Vec::with_capacity(n);
        let mut k: usize = 0;
        while k < n
            invariant
                k <= n,
                values@.len() == k,
                forall|t: int| 0 <= t < k ==> #[trigger] values@[t] == T::spec_zero(),
            decreases n - k,
        {
            values.push(T::zero());
            k += 1;
        }
        Diagonal { rows, columns, values }
    }

    /// Create a matrix from a slice of diagonal values.
    pub fn from_slice<S: Size>(size: S, values: &[T]) -> (r: Self)
        requires
            values@.len() == spec_min(size.spec_rows() as int, size.spec_columns() as int),
        ensures
            r.wf(),
            r.rows == size.spec_rows(),
            r.columns == size.spec_columns(),
            r.values@ == values@,
    {
        let (rows, columns) = size.dimensions();
        let mut copy: Vec<T> = Vec::with_capacity(values.len());
        let mut k: usize = 0;
        while k < values.len()
            invariant
                k <= values@.len(),
                copy@ == values@.subrange(0, k as int),
            decreases values@.len() - k,
        {
            copy.push(values[k]);
            k += 1;
        }
        assert(copy@ =~= values@);
        Diagonal { rows, columns, values: copy }
    }

    /// Create a matrix from a vector of diagonal values.
    pub fn from_vec<S: Size>(size: S, values: Vec<T>) -> (r: Self)
        requires
            values@.len() == spec_min(size.spec_rows() as int, size.spec_columns() as int),
        ensures
            r.wf(),
            r.rows == size.spec_rows(),
            r.columns == size.spec_columns(),
            r.values@ == values@,
    {
        let (rows, columns) = size.dimensions();
        Diagonal { rows, columns, values }
    }
    /// Count the diagonal elements that are not zero.
    pub fn nonzeros(&self) -> (r: usize)
        ensures
            r == count_nonzero(self.values@),
    {
        let mut count: usize = 0;
        let mut k: usize = 0;
        while k < self.values.len()
            invariant
                k <= self.values@.len(),
                count == count_nonzero(self.values@.subrange(0, k as int)),
                count <= k,
            decreases self.values@.len() - k,
        {
            proof {
                let s = self.values@.subrange(0, k + 1);
                assert(s.drop_last() =~= self.values@.subrange(0, k as int));
            }
            if !self.values[k].is_zero() {
                count += 1;
            }
            k += 1;
        }
        assert(self.values@.subrange(0, k as int) =~= self.values@);
        count
    }
}

/// The size of a diagonal matrix.
impl<T: Element> Size for Diagonal<T> {
    open spec fn spec_rows(&self) -> usize {
        self.rows
    }

    open spec fn spec_columns(&self) -> usize {
        self.columns
    }

    fn rows(&self) -> (r: usize) {
        self.rows
    }

    fn columns(&self) -> (r: usize) {
        self.columns
    }
}

} // verus!
