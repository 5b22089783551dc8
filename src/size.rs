use vstd::prelude::*;

verus! {

/// A size: a number of rows and a number of columns.
pub trait Size {
    /// The number of rows, as a mathematical value.
    spec fn spec_rows(&self) -> usize;

    /// The number of columns, as a mathematical value.
    spec fn spec_columns(&self) -> usize;

    /// Return the number of rows.
    fn rows(&self) -> (r: usize)
        ensures
            r == self.spec_rows(),
    ;

    /// Return the number of columns.
    fn columns(&self) -> (r: usize)
        ensures
            r == self.spec_columns(),
    ;

    /// Return the number of rows and columns.
    fn dimensions(&self) -> (r: (usize, usize))
        ensures
            r == (self.spec_rows(), self.spec_columns()),
    {
        (self.rows(), self.columns())
    }
}

/// A position: a row and a column.
pub trait Position {
    /// The row, as a mathematical value.
    spec fn spec_row(&self) -> usize;

    /// The column, as a mathematical value.
    spec fn spec_column(&self) -> usize;

    /// Return the row.
    fn row(&self) -> (r: usize)
        ensures
            r == self.spec_row(),
    ;

    /// Return the column.
    fn column(&self) -> (r: usize)
        ensures
            r == self.spec_column(),
    ;

    /// Return the row and column.
    fn coordinates(&self) -> (r: (usize, usize))
        ensures
            r == (self.spec_row(), self.spec_column()),
    {
        (self.row(), self.column())
    }
}

impl Size for (usize, usize) {
    open spec fn spec_rows(&self) -> usize {
        self.0
    }

    open spec fn spec_columns(&self) -> usize {
        self.1
    }

    fn rows(&self) -> (r: usize) {
        self.0
    }

    fn columns(&self) -> (r: usize) {
        self.1
    }
}

/// A single number stands for a square size.
impl Size for usize {
    open spec fn spec_rows(&self) -> usize {
        *self
    }

    open spec fn spec_columns(&self) -> usize {
        *self
    }

    fn rows(&self) -> (r: usize) {
        *self
    }

    fn columns(&self) -> (r: usize) {
        *self
    }
}

impl Position for (usize, usize) {
    open spec fn spec_row(&self) -> usize {
        self.0
    }

    open spec fn spec_column(&self) -> usize {
        self.1
    }

    fn row(&self) -> (r: usize) {
        self.0
    }

    fn column(&self) -> (r: usize) {
        self.1
    }
}

/// A single number stands for a position on the main diagonal.
impl Position for usize {
    open spec fn spec_row(&self) -> usize {
        *self
    }

    open spec fn spec_column(&self) -> usize {
        *self
    }

    fn row(&self) -> (r: usize) {
        *self
    }

    fn column(&self) -> (r: usize) {
        *self
    }
}

} // verus!
