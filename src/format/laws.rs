//! Laws that relate the operations of the compressed format.
use vstd::prelude::*;

use crate::element::Element;
use crate::format::compressed::{lemma_stored, Compressed};
use crate::format::conventional::Conventional;

verus! {

/// Converting a conventional matrix into the compressed format and back
/// reproduces every value exactly: `sparse` is what `from_conventional`
/// gives for `dense`, and `back` what `from_compressed` gives for `sparse`.
pub proof fn lemma_round_trip<T: Element>(
    dense: Conventional<T>,
    sparse: Compressed<T>,
    back: Conventional<T>,
)
    requires
        dense.wf(),
        sparse.wf(),
        sparse.rows == dense.rows,
        sparse.columns == dense.columns,
        sparse@ == dense.nonzero_view(),
        back.wf(),
        back.rows == sparse.rows,
        back.columns == sparse.columns,
        forall|i: int, j: int|
            0 <= i < back.rows && 0 <= j < back.columns ==> #[trigger] back.cell(i, j)
                == sparse.spec_get(i, j),
    ensures
        back.values@ == dense.values@,
{
    let rows = dense.rows as int;
    let columns = dense.columns as int;
    assert forall|k: int| 0 <= k < dense.values@.len() implies #[trigger] back.values@[k]
        == dense.values@[k] by {
        let j = k / rows;
        let i = k % rows;
        assert(dense.values@.len() == rows * columns);
        assert(rows > 0) by (nonlinear_arith)
            requires
                0 <= k < rows * columns,
                0 <= rows,
                0 <= columns,
        ;
        assert(k == j * rows + i && 0 <= i < rows) by (nonlinear_arith)
            requires
                rows > 0,
                j == k / rows,
                i == k % rows,
        ;
        assert(0 <= j < columns) by (nonlinear_arith)
            requires
                rows > 0,
                0 <= k < rows * columns,
                j == k / rows,
        ;
        assert(back.cell(i, j) == sparse.spec_get(i, j));
    }
    assert(back.values@ =~= dense.values@);
}

/// Writing a value and reading the same position gives the value back:
/// `after` is what `set` leaves of `before` at `(i, j)` with `value`.
pub proof fn lemma_write_read<T: Element>(
    before: Compressed<T>,
    after: Compressed<T>,
    i: int,
    j: int,
    value: T,
)
    requires
        before.wf(),
        after@ == before@.insert((i, j), value),
    ensures
        after.spec_get(i, j) == value,
{
}

/// Writing twice at one position stores it once: `first` is what `set`
/// leaves of `start`, and `second` what `set` then leaves of `first`, both at
/// `(i, j)`.
pub proof fn lemma_overwrite<T: Element>(
    start: Compressed<T>,
    first: Compressed<T>,
    second: Compressed<T>,
    i: int,
    j: int,
    v: T,
    w: T,
)
    requires
        start.wf(),
        first@ == start@.insert((i, j), v),
        first.nonzeros == start.nonzeros + if start@.contains_key((i, j)) {
            0int
        } else {
            1int
        },
        second@ == first@.insert((i, j), w),
        second.nonzeros == first.nonzeros + if first@.contains_key((i, j)) {
            0int
        } else {
            1int
        },
    ensures
        second.nonzeros == first.nonzeros,
        second@ == start@.insert((i, j), w),
{
    assert(second@ =~= start@.insert((i, j), w));
}

/// Growing a matrix keeps the value of every position that was inside it:
/// `after` is what `resize` leaves of `before` for `rows × columns`.
pub proof fn lemma_resize_grow<T: Element>(
    before: Compressed<T>,
    after: Compressed<T>,
    rows: int,
    columns: int,
)
    requires
        before.wf(),
        rows >= before.rows,
        columns >= before.columns,
        after@ == before@.restrict(Set::new(|p: (int, int)| p.0 < rows && p.1 < columns)),
    ensures
        after@ == before@,
        forall|i: int, j: int|
            0 <= i < before.rows && 0 <= j < before.columns ==> #[trigger] after.spec_get(i, j)
                == before.spec_get(i, j),
{
    assert forall|p: (int, int)| #[trigger] before@.contains_key(p) implies p.0 < rows && p.1
        < columns by {
        lemma_stored(before, p.0, p.1);
    }
    assert(after@ =~= before@);
}

} // verus!
