//! The compressed format.
//!
//! The format is suitable for generic sparse matrices. It has two variants:
//! compressed columns and compressed rows. The stored entries are grouped by
//! the major dimension (columns or rows, respectively); within a group they
//! are sorted by their strictly increasing index in the minor dimension.
use vstd::prelude::*;
use vstd::relations::injective_on;
use vstd::set_lib::{lemma_int_range, lemma_map_size, set_int_range};

use crate::element::{count_nonzero, Element};
use crate::size::{Position, Size};

verus! {

/// A variant of a compressed matrix.
#[derive(Clone, Copy, Debug, PartialEq, Eq, Structural)]
pub enum Variant {
    /// The compressed-column variant.
    Column,
    /// The compressed-row variant.
    Row,
}

impl Variant {
    /// The (major, minor) coordinates of the element in row `row` and column
    /// `column`.
    pub fn normalize(&self, row: usize, column: usize) -> (r: (usize, usize))
        ensures
            position_of(*self, r.0 as int, r.1 as int) == (row as int, column as int),
            r == match *self {
                Variant::Column => (column, row),
                Variant::Row => (row, column),
            },
    {
        match *self {
            Variant::Column => (column, row),
            Variant::Row => (row, column),
        }
    }

    /// The (row, column) position of the element with major coordinate
    /// `major` and minor coordinate `minor`.
    pub fn denormalize(&self, major: usize, minor: usize) -> (r: (usize, usize))
        ensures
            (r.0 as int, r.1 as int) == position_of(*self, major as int, minor as int),
    {
        match *self {
            Variant::Column => (minor, major),
            Variant::Row => (major, minor),
        }
    }

    /// Return the other variant.
    pub fn flip(&self) -> (r: Variant)
        ensures
            r != *self,
    {
        match *self {
            Variant::Column => Variant::Row,
            Variant::Row => Variant::Column,
        }
    }
}

/// A compressed matrix.
#[derive(Clone, Debug, PartialEq)]
pub struct Compressed<T: Element> {
    /// The number of rows.
    pub rows: usize,
    /// The number of columns.
    pub columns: usize,
    /// The number of stored elements.
    pub nonzeros: usize,
    /// The format variant.
    pub variant: Variant,
    /// The values of the stored elements.
    pub values: Vec<T>,
    /// The indices of rows when `variant = Column` or of columns when
    /// `variant = Row` of the stored elements.
    pub indices: Vec<usize>,
    /// The offsets of columns when `variant = Column` or of rows when
    /// `variant = Row`: the elements of the `i`th group are stored from
    /// `offsets[i]` up to `offsets[i + 1]`. The last offset is `nonzeros`.
    pub offsets: Vec<usize>,
}

/// The number of groups for a variant and a size.
pub open spec fn major_size(variant: Variant, rows: int, columns: int) -> int {
    match variant {
        Variant::Column => columns,
        Variant::Row => rows,
    }
}

/// The (row, column) position of the element with the given major and minor
/// coordinates.
pub open spec fn position_of(variant: Variant, major: int, minor: int) -> (int, int) {
    match variant {
        Variant::Column => (minor, major),
        Variant::Row => (major, minor),
    }
}

impl<T: Element> Compressed<T> {
    /// The number of groups.
    pub open spec fn major_count(&self) -> int {
        major_size(self.variant, self.rows as int, self.columns as int)
    }

    /// The extent of the minor dimension.
    pub open spec fn minor_count(&self) -> int {
        match self.variant {
            Variant::Column => self.rows as int,
            Variant::Row => self.columns as int,
        }
    }

    /// The major coordinate of a position.
    pub open spec fn major_of(&self, row: int, column: int) -> int {
        match self.variant {
            Variant::Column => column,
            Variant::Row => row,
        }
    }

    /// The minor coordinate of a position.
    pub open spec fn minor_of(&self, row: int, column: int) -> int {
        match self.variant {
            Variant::Column => row,
            Variant::Row => column,
        }
    }

    /// Slot `k` of the storage belongs to group `g`.
    pub open spec fn in_group(&self, g: int, k: int) -> bool {
        &&& 0 <= g < self.major_count()
        &&& self.offsets@[g] <= k < self.offsets@[g + 1]
    }

    /// The storage is consistent: lengths agree, offsets are prefix sums,
    /// and each group holds strictly increasing minor indices in range.
    pub open spec fn wf(&self) -> bool {
        &&& self.values@.len() == self.nonzeros
        &&& self.indices@.len() == self.nonzeros
        &&& self.offsets@.len() == self.major_count() + 1
        &&& self.offsets@[0] == 0
        &&& self.offsets@[self.major_count()] == self.nonzeros
        &&& forall|a: int, b: int|
            0 <= a <= b <= self.major_count() ==> #[trigger] self.offsets@[a]
                <= #[trigger] self.offsets@[b]
        &&& forall|g: int, k1: int, k2: int|
            #![trigger self.in_group(g, k1), self.in_group(g, k2)]
            self.in_group(g, k1) && self.in_group(g, k2) && k1 < k2 ==> self.indices@[k1]
                < self.indices@[k2]
        &&& forall|k: int| 0 <= k < self.nonzeros ==> #[trigger] self.indices@[k] < self.minor_count()
    }

    /// Group `g` stores an element with minor index `m`.
    pub open spec fn has(&self, g: int, m: int) -> bool {
        exists|k: int| self.in_group(g, k) && self.indices@[k] == m
    }

    /// The slot of the element with minor index `m` in group `g`.
    pub open spec fn slot(&self, g: int, m: int) -> int {
        choose|k: int| self.in_group(g, k) && self.indices@[k] == m
    }

    /// The stored elements by (row, column).
    pub open spec fn view(&self) -> Map<(int, int), T> {
        Map::new(
            |p: (int, int)| self.has(self.major_of(p.0, p.1), self.minor_of(p.0, p.1)),
            |p: (int, int)| self.values@[self.slot(self.major_of(p.0, p.1), self.minor_of(p.0, p.1))],
        )
    }

    /// The value at a position: the stored one, or zero.
    pub open spec fn spec_get(&self, row: int, column: int) -> T {
        if self@.contains_key((row, column)) {
            self@[(row, column)]
        } else {
            T::spec_zero()
        }
    }

    /// The position of the element in slot `k` of group `g`.
    pub open spec fn position_at(&self, g: int, k: int) -> (int, int) {
        position_of(self.variant, g, self.indices@[k] as int)
    }
}

/// A slot belongs to one group at most.
pub proof fn lemma_group_unique<T: Element>(a: Compressed<T>, g1: int, g2: int, k: int)
    requires
        a.wf(),
        a.in_group(g1, k),
        a.in_group(g2, k),
    ensures
        g1 == g2,
{
    if g1 < g2 {
        assert(a.offsets@[g1 + 1] <= a.offsets@[g2]);
    } else if g2 < g1 {
        assert(a.offsets@[g2 + 1] <= a.offsets@[g1]);
    }
}

/// The element in slot `k` is the one that its group stores at its index.
pub proof fn lemma_slot<T: Element>(a: Compressed<T>, g: int, k: int)
    requires
        a.wf(),
        a.in_group(g, k),
    ensures
        a.has(g, a.indices@[k] as int),
        a.slot(g, a.indices@[k] as int) == k,
        a@.contains_key(a.position_at(g, k)),
        a@[a.position_at(g, k)] == a.values@[k],
{
    let m = a.indices@[k] as int;
    assert(a.in_group(g, k) && a.indices@[k] == m);
    let j = a.slot(g, m);
    assert(a.in_group(g, j) && a.indices@[j] == m);
    if j < k {
        assert(a.indices@[j] < a.indices@[k]);
    } else if k < j {
        assert(a.indices@[k] < a.indices@[j]);
    }
    let p = a.position_at(g, k);
    assert(a.major_of(p.0, p.1) == g && a.minor_of(p.0, p.1) == m);
}

/// A stored position lies in a group at some slot.
pub proof fn lemma_stored<T: Element>(a: Compressed<T>, row: int, column: int)
    requires
        a.wf(),
        a@.contains_key((row, column)),
    ensures
        ({
            let g = a.major_of(row, column);
            let k = a.slot(g, a.minor_of(row, column));
            &&& a.in_group(g, k)
            &&& a.indices@[k] == a.minor_of(row, column)
            &&& a.position_at(g, k) == (row, column)
            &&& a@[(row, column)] == a.values@[k]
        }),
{
}


/// Inserting the element `(m, v)` at slot `k` of group `g`, where the
/// indices before `k` are smaller and those from `k` on are larger, and
/// shifting the later offsets by one, stores one more element.
#[verifier::rlimit(60)]
pub proof fn lemma_insert<T: Element>(a: Compressed<T>, b: Compressed<T>, g: int, k: int, m: int, v: T)
    requires
        a.wf(),
        0 <= g < a.major_count(),
        0 <= m < a.minor_count(),
        a.offsets@[g] <= k <= a.offsets@[g + 1],
        forall|t: int| a.offsets@[g] <= t < k ==> #[trigger] a.indices@[t] < m,
        forall|t: int| k <= t < a.offsets@[g + 1] ==> #[trigger] a.indices@[t] > m,
        b.rows == a.rows,
        b.columns == a.columns,
        b.variant == a.variant,
        b.nonzeros == a.nonzeros + 1,
        b.values@ == a.values@.insert(k, v),
        b.indices@ == a.indices@.insert(k, m as usize),
        b.offsets@.len() == a.offsets@.len(),
        forall|h: int| 0 <= h <= g ==> #[trigger] b.offsets@[h] == a.offsets@[h],
        forall|h: int| g < h <= a.major_count() ==> #[trigger] b.offsets@[h] == a.offsets@[h] + 1,
    ensures
        b.wf(),
        !a@.contains_key(position_of(a.variant, g, m)),
        b@ == a@.insert(position_of(a.variant, g, m), v),
{
    let n = a.major_count();
    assert forall|x: int, y: int| 0 <= x <= y <= n implies #[trigger] b.offsets@[x]
        <= #[trigger] b.offsets@[y] by {
        assert(a.offsets@[x] <= a.offsets@[y]);
        if x > g {
        } else if y <= g {
        } else {
        }
    }
    assert forall|h: int, k1: int, k2: int|
        #![trigger b.in_group(h, k1), b.in_group(h, k2)]
        b.in_group(h, k1) && b.in_group(h, k2) && k1 < k2 implies b.indices@[k1]
            < b.indices@[k2] by {
        let u1 = if k1 < k { k1 } else if k1 == k { -1 } else { k1 - 1 };
        let u2 = if k2 < k { k2 } else if k2 == k { -1 } else { k2 - 1 };
        if h < g {
            assert(a.offsets@[h + 1] <= a.offsets@[g]);
            assert(a.in_group(h, k1) && a.in_group(h, k2));
        } else if h > g {
            assert(a.offsets@[g + 1] <= a.offsets@[h]);
            assert(a.in_group(h, k1 - 1) && a.in_group(h, k2 - 1));
        } else {
            if k1 != k && k2 != k {
                assert(a.in_group(h, u1) && a.in_group(h, u2));
            }
        }
    }
    assert forall|t: int| 0 <= t < b.nonzeros implies #[trigger] b.indices@[t] < b.minor_count() by {
        if t < k {
            assert(a.indices@[t] < a.minor_count());
        } else if t > k {
            assert(a.indices@[t - 1] < a.minor_count());
        }
    }
    assert(b.wf());
    // The new element is not stored before the insertion.
    let p = position_of(a.variant, g, m);
    assert(a.major_of(p.0, p.1) == g && a.minor_of(p.0, p.1) == m);
    if a@.contains_key(p) {
        let t = a.slot(g, m);
        assert(a.in_group(g, t) && a.indices@[t] == m);
    }
    // Every other position keeps its element.
    assert forall|q: (int, int)| #[trigger] b@.contains_key(q) <==> a@.insert(p, v).contains_key(q) by {
        let h = a.major_of(q.0, q.1);
        let mm = a.minor_of(q.0, q.1);
        if q == p {
            assert(b.in_group(g, k) && b.indices@[k] == m);
        } else {
            if a@.contains_key(q) {
                let t = a.slot(h, mm);
                let t2 = if t < k { t } else { t + 1 };
                if h < g {
                    assert(a.offsets@[h + 1] <= a.offsets@[g]);
                } else if h > g {
                    assert(a.offsets@[g + 1] <= a.offsets@[h]);
                }
                assert(b.in_group(h, t2) && b.indices@[t2] == mm);
            }
            if b@.contains_key(q) {
                let t2 = b.slot(h, mm);
                assert(b.in_group(h, t2) && b.indices@[t2] == mm);
                assert(b.in_group(g, k));
                if t2 == k {
                    lemma_group_unique(b, g, h, k);
                    assert(position_of(a.variant, h, mm) == q);
                }
                let t = if t2 < k { t2 } else { t2 - 1 };
                if h < g {
                    assert(b.offsets@[h + 1] <= b.offsets@[g]);
                } else if h > g {
                    assert(b.offsets@[g + 1] <= b.offsets@[h]);
                }
                assert(a.in_group(h, t) && a.indices@[t] == mm);
            }
        }
    }
    assert forall|q: (int, int)| #[trigger] b@.contains_key(q) implies b@[q] == a@.insert(p, v)[q] by {
        let h = a.major_of(q.0, q.1);
        let mm = a.minor_of(q.0, q.1);
        if q == p {
            lemma_slot(b, g, k);
        } else {
            lemma_stored(a, q.0, q.1);
            let t = a.slot(h, mm);
            let t2 = if t < k { t } else { t + 1 };
            if h < g {
                assert(a.offsets@[h + 1] <= a.offsets@[g]);
            } else if h > g {
                assert(a.offsets@[g + 1] <= a.offsets@[h]);
            }
            assert(b.in_group(h, t2));
            lemma_slot(b, h, t2);
            assert(b.position_at(h, t2) == q);
        }
    }
    assert(b@ =~= a@.insert(p, v));
}

/// Every slot of the storage belongs to some group.
pub proof fn lemma_find_group<T: Element>(a: Compressed<T>, t: int, g: int) -> (h: int)
    requires
        a.wf(),
        0 <= g < a.major_count(),
        a.offsets@[g] <= t < a.nonzeros,
    ensures
        g <= h,
        a.in_group(h, t),
    decreases a.major_count() - g,
{
    if t < a.offsets@[g + 1] {
        g
    } else {
        lemma_find_group(a, t, g + 1)
    }
}

/// Removing slot `k` of group `g`, and shifting the later offsets back by
/// one, drops exactly the element at that slot.
#[verifier::rlimit(60)]
pub proof fn lemma_remove<T: Element>(a: Compressed<T>, b: Compressed<T>, g: int, k: int)
    requires
        a.wf(),
        a.in_group(g, k),
        b.rows == a.rows,
        b.columns == a.columns,
        b.variant == a.variant,
        b.nonzeros == a.nonzeros - 1,
        b.values@ == a.values@.remove(k),
        b.indices@ == a.indices@.remove(k),
        b.offsets@.len() == a.offsets@.len(),
        forall|h: int| 0 <= h <= g ==> #[trigger] b.offsets@[h] == a.offsets@[h],
        forall|h: int| g < h <= a.major_count() ==> #[trigger] b.offsets@[h] == a.offsets@[h] - 1,
    ensures
        b.wf(),
        b@ == a@.remove(a.position_at(g, k)),
{
    let n = a.major_count();
    assert forall|x: int, y: int| 0 <= x <= y <= n implies #[trigger] b.offsets@[x]
        <= #[trigger] b.offsets@[y] by {
        assert(a.offsets@[x] <= a.offsets@[y]);
        if x <= g && y > g {
            assert(a.offsets@[x] <= a.offsets@[g] && a.offsets@[g + 1] <= a.offsets@[y]);
        }
    }
    assert forall|h: int, k1: int, k2: int|
        #![trigger b.in_group(h, k1), b.in_group(h, k2)]
        b.in_group(h, k1) && b.in_group(h, k2) && k1 < k2 implies b.indices@[k1]
            < b.indices@[k2] by {
        let u1 = if k1 < k { k1 } else { k1 + 1 };
        let u2 = if k2 < k { k2 } else { k2 + 1 };
        if h < g {
            assert(a.offsets@[h + 1] <= a.offsets@[g]);
        } else if h > g {
            assert(a.offsets@[g + 1] <= a.offsets@[h]);
        }
        assert(a.in_group(h, u1) && a.in_group(h, u2));
    }
    assert forall|t: int| 0 <= t < b.nonzeros implies #[trigger] b.indices@[t] < b.minor_count() by {
        if t < k {
            assert(a.indices@[t] < a.minor_count());
        } else {
            assert(a.indices@[t + 1] < a.minor_count());
        }
    }
    assert(b.wf());
    let p = a.position_at(g, k);
    lemma_slot(a, g, k);
    assert forall|q: (int, int)| #[trigger] b@.contains_key(q) <==> a@.remove(p).contains_key(q) by {
        let h = a.major_of(q.0, q.1);
        let mm = a.minor_of(q.0, q.1);
        if a@.remove(p).contains_key(q) {
            let t = a.slot(h, mm);
            assert(a.in_group(h, t) && a.indices@[t] == mm);
            if t == k {
                lemma_group_unique(a, g, h, k);
                assert(position_of(a.variant, h, mm) == q);
            }
            let t2 = if t < k { t } else { t - 1 };
            if h < g {
                assert(a.offsets@[h + 1] <= a.offsets@[g]);
            } else if h > g {
                assert(a.offsets@[g + 1] <= a.offsets@[h]);
            }
            assert(b.in_group(h, t2) && b.indices@[t2] == mm);
        }
        if b@.contains_key(q) {
            let t2 = b.slot(h, mm);
            assert(b.in_group(h, t2) && b.indices@[t2] == mm);
            let t = if t2 < k { t2 } else { t2 + 1 };
            if h < g {
                assert(a.offsets@[h + 1] <= a.offsets@[g]);
            } else if h > g {
                assert(a.offsets@[g + 1] <= a.offsets@[h]);
            }
            assert(a.in_group(h, t) && a.indices@[t] == mm);
            if q == p {
                assert(position_of(a.variant, h, mm) == q);
                if t != k {
                    lemma_slot(a, h, t);
                    lemma_group_unique(a, g, h, k);
                }
            }
        }
    }
    assert forall|q: (int, int)| #[trigger] b@.contains_key(q) implies b@[q] == a@.remove(p)[q] by {
        let h = a.major_of(q.0, q.1);
        let mm = a.minor_of(q.0, q.1);
        lemma_stored(a, q.0, q.1);
        let t = a.slot(h, mm);
        if t == k {
            lemma_group_unique(a, g, h, k);
        }
        let t2 = if t < k { t } else { t - 1 };
        if h < g {
            assert(a.offsets@[h + 1] <= a.offsets@[g]);
        } else if h > g {
            assert(a.offsets@[g + 1] <= a.offsets@[h]);
        }
        assert(b.in_group(h, t2));
        lemma_slot(b, h, t2);
        assert(b.position_at(h, t2) == q);
    }
    assert(b@ =~= a@.remove(p));
}

/// Appending an empty group keeps the stored elements.
pub proof fn lemma_push_group<T: Element>(a: Compressed<T>, b: Compressed<T>)
    requires
        a.wf(),
        b.variant == a.variant,
        b.major_count() == a.major_count() + 1,
        b.minor_count() == a.minor_count(),
        b.nonzeros == a.nonzeros,
        b.values@ == a.values@,
        b.indices@ == a.indices@,
        b.offsets@ == a.offsets@.push(a.nonzeros),
    ensures
        b.wf(),
        b@ == a@,
{
    let n = a.major_count();
    assert forall|x: int, y: int| 0 <= x <= y <= n + 1 implies #[trigger] b.offsets@[x]
        <= #[trigger] b.offsets@[y] by {
        if y <= n {
            assert(a.offsets@[x] <= a.offsets@[y]);
        } else if x <= n {
            assert(a.offsets@[x] <= a.offsets@[n]);
        }
    }
    assert forall|g: int, t: int| #[trigger] b.in_group(g, t) == a.in_group(g, t) by {}
    assert(b.wf());
    assert forall|g: int, m: int| #[trigger] b.has(g, m) == a.has(g, m) by {
        if a.has(g, m) {
            let t = a.slot(g, m);
            assert(b.in_group(g, t) && b.indices@[t] == m);
        }
        if b.has(g, m) {
            let t = b.slot(g, m);
            assert(a.in_group(g, t) && a.indices@[t] == m);
        }
    }
    assert forall|p: (int, int)| #[trigger] b@.contains_key(p) implies b@[p] == a@[p] by {
        lemma_stored(a, p.0, p.1);
        let g = a.major_of(p.0, p.1);
        let t = a.slot(g, a.minor_of(p.0, p.1));
        lemma_slot(b, g, t);
    }
    assert(b@ =~= a@);
}

/// The group that slot `k` belongs to.
pub open spec fn group_of<T: Element>(a: Compressed<T>, k: int) -> int {
    choose|g: int| a.in_group(g, k)
}

/// The number of stored elements is the number of positions in the view.
pub proof fn lemma_nonzeros_len<T: Element>(a: Compressed<T>)
    requires
        a.wf(),
    ensures
        a@.dom().finite(),
        a@.dom().len() == a.nonzeros,
{
    let n = a.nonzeros as int;
    let slots = set_int_range(0, n);
    let f = |k: int| a.position_at(group_of(a, k), k);
    lemma_int_range(0, n);
    assert forall|k: int| 0 <= k < n implies a.in_group(group_of(a, k), k) by {
        assert(a.offsets@[0] <= a.offsets@[a.major_count()]);
        if a.major_count() <= 0 {
            assert(a.offsets@[0] == a.nonzeros);
        }
        let h = lemma_find_group(a, k, 0);
    }
    assert forall|p: (int, int)| #[trigger] slots.map(f).contains(p) <==> a@.dom().contains(p) by {
        if slots.map(f).contains(p) {
            let k = choose|k: int| slots.contains(k) && f(k) == p;
            lemma_slot(a, group_of(a, k), k);
        }
        if a@.dom().contains(p) {
            lemma_stored(a, p.0, p.1);
            let g = a.major_of(p.0, p.1);
            let k = a.slot(g, a.minor_of(p.0, p.1));
            lemma_group_unique(a, g, group_of(a, k), k);
            assert(slots.contains(k) && f(k) == p);
        }
    }
    assert(slots.map(f) =~= a@.dom());
    assert forall|k1: int, k2: int| slots.contains(k1) && slots.contains(k2) && #[trigger] f(k1) == #[trigger] f(k2) implies k1 == k2 by {
        let g1 = group_of(a, k1);
        let g2 = group_of(a, k2);
        lemma_slot(a, g1, k1);
        lemma_slot(a, g2, k2);
        let p = f(k1);
        assert(a.major_of(p.0, p.1) == g1 && a.major_of(p.0, p.1) == g2);
    }
    assert(injective_on(f, slots));
    lemma_map_size(slots, a@.dom(), f);
}

impl<T: Element> Compressed<T> {
    /// Create a zero matrix.
    pub fn new<S: Size>(size: S, variant: Variant) -> (r: Self)
        requires
            major_size(variant, size.spec_rows() as int, size.spec_columns() as int) < usize::MAX,
        ensures
            r.wf(),
            r.rows == size.spec_rows(),
            r.columns == size.spec_columns(),
            r.variant == variant,
            r.nonzeros == 0,
            r@ == Map::<(int, int), T>::empty(),
    {
        Compressed::with_capacity(size, variant, 0)
    }

    /// Create a zero matrix with room for `capacity` elements.
    pub fn with_capacity<S: Size>(size: S, variant: Variant, capacity: usize) -> (r: Self)
        requires
            major_size(variant, size.spec_rows() as int, size.spec_columns() as int) < usize::MAX,
        ensures
            r.wf(),
            r.rows == size.spec_rows(),
            r.columns == size.spec_columns(),
            r.variant == variant,
            r.nonzeros == 0,
            r@ == Map::<(int, int), T>::empty(),
    {
        let (rows, columns) = size.dimensions();
        let count: usize = match variant {
            Variant::Column => columns,
            Variant::Row => rows,
        };
        let mut offsets: Vec<usize> = Vec::with_capacity(count + 1);
        let mut g: usize = 0;
        while g <= count
            invariant
                g <= count + 1,
                count < usize::MAX,
                offsets@.len() == g,
                forall|h: int| 0 <= h < g ==> #[trigger] offsets@[h] == 0,
            decreases count + 1 - g,
        {
            offsets.push(0);
            g += 1;
        }
        let r = Compressed {
            rows,
            columns,
            nonzeros: 0,
            variant,
            values: Vec::with_capacity(capacity),
            indices: Vec::with_capacity(capacity),
            offsets,
        };
        assert(r@ =~= Map::<(int, int), T>::empty());
        r
    }

    /// Read an element.
    pub fn get<P: Position>(&self, position: P) -> (r: T)
        requires
            self.wf(),
            position.spec_row() < self.rows,
            position.spec_column() < self.columns,
        ensures
            r == self.spec_get(position.spec_row() as int, position.spec_column() as int),
    {
        let (i, j) = position.coordinates();
        let (major, minor) = self.variant.normalize(i, j);
        let ghost p = (i as int, j as int);
        let end = self.offsets[major + 1];
        let mut k = self.offsets[major];
        while k < end
            invariant
                self.wf(),
                p == (position.spec_row() as int, position.spec_column() as int),
                major < self.major_count(),
                minor < self.minor_count(),
                self.major_of(p.0, p.1) == major,
                self.minor_of(p.0, p.1) == minor,
                self.offsets@[major as int] <= k <= end,
                end == self.offsets@[major + 1],
                forall|t: int| self.offsets@[major as int] <= t < k ==> #[trigger] self.indices@[t] < minor,
            ensures
                self.offsets@[major as int] <= k <= end,
                forall|t: int| self.offsets@[major as int] <= t < k ==> #[trigger] self.indices@[t] < minor,
                k < end ==> self.indices@[k as int] > minor,
            decreases end - k,
        {
            assert(self.offsets@[major + 1] <= self.offsets@[self.major_count()]);
            if self.indices[k] == minor {
                proof {
                    lemma_slot(*self, major as int, k as int);
                    assert(self.position_at(major as int, k as int) == p);
                    assert(self@.contains_key(p));
                    assert(self@[p] == self.values@[k as int]);
                }
                let v = self.values[k];
                assert(v == self.spec_get(p.0, p.1));
                return v;
            }
            if self.indices[k] > minor {
                break;
            }
            k += 1;
        }
        proof {
            if self@.contains_key(p) {
                lemma_stored(*self, p.0, p.1);
                let t = self.slot(major as int, minor as int);
                if t > k {
                    assert(self.in_group(major as int, k as int) && self.in_group(major as int, t));
                }
            }
        }
        T::zero()
    }

    /// Assign a value to an element.
    ///
    /// Zero is treated as any other value: it is stored.
    pub fn set<P: Position>(&mut self, position: P, value: T)
        requires
            old(self).wf(),
            position.spec_row() < old(self).rows,
            position.spec_column() < old(self).columns,
            old(self).nonzeros < usize::MAX,
        ensures
            final(self).wf(),
            final(self).rows == old(self).rows,
            final(self).columns == old(self).columns,
            final(self).variant == old(self).variant,
            final(self)@ == old(self)@.insert(
                (position.spec_row() as int, position.spec_column() as int),
                value,
            ),
            final(self).nonzeros == old(self).nonzeros + if old(self)@.contains_key(
                (position.spec_row() as int, position.spec_column() as int),
            ) {
                0int
            } else {
                1int
            },
    {
        let (i, j) = position.coordinates();
        let (major, minor) = self.variant.normalize(i, j);
        let ghost p = (i as int, j as int);
        let ghost a = *self;
        let end = self.offsets[major + 1];
        let mut k = self.offsets[major];
        while k < end
            invariant
                *self == a,
                *old(self) == a,
                self.wf(),
                p == (position.spec_row() as int, position.spec_column() as int),
                major < self.major_count(),
                minor < self.minor_count(),
                self.major_of(p.0, p.1) == major,
                self.minor_of(p.0, p.1) == minor,
                position_of(self.variant, major as int, minor as int) == p,
                self.offsets@[major as int] <= k <= end,
                end == self.offsets@[major + 1],
                forall|t: int| self.offsets@[major as int] <= t < k ==> #[trigger] self.indices@[t] < minor,
            ensures
                self.offsets@[major as int] <= k <= end,
                forall|t: int| self.offsets@[major as int] <= t < k ==> #[trigger] self.indices@[t] < minor,
                k < end ==> self.indices@[k as int] > minor,
            decreases end - k,
        {
            assert(self.offsets@[major + 1] <= self.offsets@[self.major_count()]);
            if self.indices[k] == minor {
                proof {
                    lemma_slot(*self, major as int, k as int);
                }
                self.values.set(k, value);
                proof {
                    assert(self.offsets@ == a.offsets@ && self.indices@ == a.indices@);
                    assert(self.rows == a.rows && self.columns == a.columns && self.variant == a.variant);
                    assert forall|g: int, t: int| #[trigger] self.in_group(g, t) == a.in_group(g, t) by {}
                    assert(self.wf());
                    assert forall|g: int, mm: int| self.has(g, mm) == a.has(g, mm) by {
                        if a.has(g, mm) {
                            let t = a.slot(g, mm);
                            assert(self.in_group(g, t) && self.indices@[t] == mm);
                        }
                        if self.has(g, mm) {
                            let t = self.slot(g, mm);
                            assert(a.in_group(g, t) && a.indices@[t] == mm);
                        }
                    }
                    assert forall|q: (int, int)| #[trigger] self@.contains_key(q) implies self@[q]
                        == a@.insert(p, value)[q] by {
                        lemma_stored(a, q.0, q.1);
                        let h = a.major_of(q.0, q.1);
                        let t = a.slot(h, a.minor_of(q.0, q.1));
                        lemma_slot(*self, h, t);
                        if t == k {
                            lemma_group_unique(a, h, major as int, t);
                        }
                    }
                    assert(self@ =~= a@.insert(p, value));
                }
                return;
            }
            if self.indices[k] > minor {
                break;
            }
            k += 1;
        }
        proof {
            assert forall|t: int| k <= t < a.offsets@[major + 1] implies #[trigger] a.indices@[t] > minor by {
                if k < t {
                    assert(a.in_group(major as int, k as int) && a.in_group(major as int, t));
                }
            }
        }
        self.nonzeros += 1;
        self.values.insert(k, value);
        self.indices.insert(k, minor);
        let count = self.offsets.len();
        let mut h = major + 1;
        while h < count
            invariant
                major < h <= count,
                count == a.offsets@.len(),
                a.wf(),
                self.offsets@.len() == count,
                forall|x: int| 0 <= x < h ==> #[trigger] self.offsets@[x] == if x <= major {
                    a.offsets@[x] as int
                } else {
                    a.offsets@[x] + 1
                },
                forall|x: int| h <= x < count ==> #[trigger] self.offsets@[x] == a.offsets@[x],
                a.nonzeros < usize::MAX,
                self.rows == a.rows,
                self.columns == a.columns,
                self.variant == a.variant,
                self.nonzeros == a.nonzeros + 1,
                k <= a.values@.len(),
                self.values@ == a.values@.insert(k as int, value),
                self.indices@ == a.indices@.insert(k as int, minor),
            decreases count - h,
        {
            assert(a.offsets@[h as int] <= a.offsets@[a.major_count()]);
            let o = self.offsets[h];
            self.offsets.set(h, o + 1);
            h += 1;
        }
        proof {
            lemma_insert(a, *self, major as int, k as int, minor as int, value);
        }
    }
    /// Retain the elements that satisfy a condition and discard the rest.
    ///
    /// The condition is called once on each stored element, with its row,
    /// its column and its value, in the order of storage.
    #[verifier::rlimit(60)]
    pub fn retain<F: Fn(usize, usize, &T) -> bool>(&mut self, condition: F)
        requires
            old(self).wf(),
            forall|i: usize, j: usize, v: &T| #[trigger] condition.requires((i, j, v)),
        ensures
            final(self).wf(),
            final(self).rows == old(self).rows,
            final(self).columns == old(self).columns,
            final(self).variant == old(self).variant,
            final(self).nonzeros <= old(self).nonzeros,
            final(self)@.dom().len() == final(self).nonzeros,
            forall|p: (int, int)| #[trigger] final(self)@.contains_key(p) ==> {
                &&& old(self)@.contains_key(p)
                &&& final(self)@[p] == old(self)@[p]
                &&& condition.ensures((p.0 as usize, p.1 as usize, &old(self)@[p]), true)
            },
            forall|p: (int, int)| #[trigger] old(self)@.contains_key(p) && !final(self)@.contains_key(p)
                ==> condition.ensures((p.0 as usize, p.1 as usize, &old(self)@[p]), false),
    {
        let ghost a = *self;
        let ghost mut removed: Set<(int, int)> = Set::empty();
        let mut k: usize = 0;
        let mut major: usize = 0;
        while k < self.indices.len()
            invariant
                *old(self) == a,
                a.wf(),
                self.wf(),
                forall|i: usize, j: usize, v: &T| #[trigger] condition.requires((i, j, v)),
                self.rows == a.rows,
                self.columns == a.columns,
                self.variant == a.variant,
                self.nonzeros <= a.nonzeros,
                k <= self.nonzeros,
                major < self.major_count() || k == self.nonzeros,
                major <= self.major_count(),
                self.offsets@[major as int] <= k,
                self@ == a@.remove_keys(removed),
                removed.subset_of(a@.dom()),
                forall|p: (int, int)| #[trigger] removed.contains(p) ==> condition.ensures(
                    (p.0 as usize, p.1 as usize, &a@[p]),
                    false,
                ),
                forall|g: int, t: int| #![trigger self.in_group(g, t)]
                    0 <= t < k && self.in_group(g, t) ==> condition.ensures(
                        (
                            self.position_at(g, t).0 as usize,
                            self.position_at(g, t).1 as usize,
                            &self.values@[t],
                        ),
                        true,
                    ),
            decreases self.nonzeros - k,
        {
            while self.offsets[major + 1] <= k
                invariant
                    self.wf(),
                    k < self.nonzeros,
                    major < self.major_count(),
                    self.offsets@[major as int] <= k,
                decreases self.major_count() - major,
            {
                major += 1;
            }
            let ghost cur = *self;
            let ghost p = self.position_at(major as int, k as int);
            proof {
                lemma_slot(cur, major as int, k as int);
            }
            let (i, j) = self.variant.denormalize(major, self.indices[k]);
            let keep = condition(i, j, &self.values[k]);
            if keep {
                proof {
                    assert forall|g: int, t: int| #![trigger self.in_group(g, t)]
                        0 <= t < k + 1 && self.in_group(g, t) implies condition.ensures(
                            (
                                self.position_at(g, t).0 as usize,
                                self.position_at(g, t).1 as usize,
                                &self.values@[t],
                            ),
                            true,
                        ) by {
                        if t == k {
                            lemma_group_unique(*self, g, major as int, t);
                        }
                    }
                }
                k += 1;
            } else {
                self.nonzeros -= 1;
                self.values.remove(k);
                self.indices.remove(k);
                let count = self.offsets.len();
                let mut h = major + 1;
                while h < count
                    invariant
                        major < h <= count,
                        count == cur.offsets@.len(),
                        cur.wf(),
                        cur.in_group(major as int, k as int),
                        self.offsets@.len() == count,
                        forall|x: int| 0 <= x < h ==> #[trigger] self.offsets@[x] == if x <= major {
                            cur.offsets@[x] as int
                        } else {
                            cur.offsets@[x] - 1
                        },
                        forall|x: int| h <= x < count ==> #[trigger] self.offsets@[x] == cur.offsets@[x],
                        self.rows == cur.rows,
                        self.columns == cur.columns,
                        self.variant == cur.variant,
                        self.nonzeros == cur.nonzeros - 1,
                        self.values@ == cur.values@.remove(k as int),
                        self.indices@ == cur.indices@.remove(k as int),
                    decreases count - h,
                {
                    assert(cur.offsets@[major + 1] <= cur.offsets@[h as int]);
                    let o = self.offsets[h];
                    self.offsets.set(h, o - 1);
                    h += 1;
                }
                proof {
                    lemma_remove(cur, *self, major as int, k as int);
                    assert(removed.insert(p).subset_of(a@.dom()));
                    assert(self@ =~= a@.remove_keys(removed.insert(p)));
                    removed = removed.insert(p);
                    assert forall|g: int, t: int| #![trigger self.in_group(g, t)]
                        0 <= t < k && self.in_group(g, t) implies condition.ensures(
                            (
                                self.position_at(g, t).0 as usize,
                                self.position_at(g, t).1 as usize,
                                &self.values@[t],
                            ),
                            true,
                        ) by {
                        if g < major {
                            assert(cur.offsets@[g + 1] <= cur.offsets@[major as int]);
                        } else if g > major {
                            assert(cur.offsets@[major + 1] <= cur.offsets@[g]);
                        }
                        assert(cur.in_group(g, t));
                    }
                }
            }
        }
        proof {
            assert forall|q: (int, int)| #[trigger] self@.contains_key(q) implies condition.ensures(
                (q.0 as usize, q.1 as usize, &a@[q]),
                true,
            ) by {
                lemma_stored(*self, q.0, q.1);
            }
            lemma_nonzeros_len(*self);
        }
    }

    /// Resize the matrix, dropping the elements that fall outside.
    #[verifier::rlimit(60)]
    pub fn resize<S: Size>(&mut self, size: S)
        requires
            old(self).wf(),
            major_size(old(self).variant, size.spec_rows() as int, size.spec_columns() as int)
                < usize::MAX,
        ensures
            final(self).wf(),
            final(self).rows == size.spec_rows(),
            final(self).columns == size.spec_columns(),
            final(self).variant == old(self).variant,
            final(self).nonzeros <= old(self).nonzeros,
            final(self)@.dom().len() == final(self).nonzeros,
            final(self)@ == old(self)@.restrict(
                Set::new(
                    |p: (int, int)| p.0 < size.spec_rows() && p.1 < size.spec_columns(),
                ),
            ),
    {
        let (rows, columns) = size.dimensions();
        let ghost a = *self;
        let ghost inside = Set::new(|p: (int, int)| p.0 < rows && p.1 < columns);
        if rows < self.rows || columns < self.columns {
            let within = |i: usize, j: usize, v: &T| -> (r: bool)
                ensures
                    r == (rows > i && columns > j),
                {
                    rows > i && columns > j
                };
            self.retain(within);
        }
        proof {
            assert forall|p: (int, int)| #[trigger] self@.contains_key(p) <==> a@.restrict(
                inside,
            ).contains_key(p) by {
                if a@.contains_key(p) {
                    lemma_stored(a, p.0, p.1);
                }
            }
            assert(self@ =~= a@.restrict(inside));
        }
        let (from, into) = match self.variant {
            Variant::Column => (self.columns, columns),
            Variant::Row => (self.rows, rows),
        };
        let ghost b = *self;
        if from > into {
            proof {
                if b.offsets@[into as int] < b.nonzeros {
                    let h = lemma_find_group(b, b.offsets@[into as int] as int, into as int);
                    lemma_slot(b, h, b.offsets@[into as int] as int);
                    assert(inside.contains(b.position_at(h, b.offsets@[into as int] as int)));
                }
                assert(b.offsets@[into as int] <= b.offsets@[from as int]);
                assert(b.offsets@[into as int] == b.nonzeros);
            }
            self.offsets.truncate(into + 1);
        } else if from < into {
            let mut g = from;
            while g < into
                invariant
                    from <= g <= into,
                    into < usize::MAX,
                    self.offsets@.len() == g + 1,
                    forall|x: int| 0 <= x <= from ==> #[trigger] self.offsets@[x] == b.offsets@[x],
                    forall|x: int| from < x <= g ==> #[trigger] self.offsets@[x] == b.nonzeros,
                    b.offsets@.len() == from + 1,
                    b.offsets@[from as int] == b.nonzeros,
                    self.nonzeros == b.nonzeros,
                    self.values == b.values,
                    self.indices == b.indices,
                    self.rows == b.rows,
                    self.columns == b.columns,
                    self.variant == b.variant,
                decreases into - g,
            {
                self.offsets.push(self.nonzeros);
                g += 1;
            }
        }
        self.columns = columns;
        self.rows = rows;
        proof {
            let n = self.major_count();
            assert(self.values == b.values && self.indices == b.indices);
            assert forall|x: int| 0 <= x <= n implies #[trigger] self.offsets@[x] == if x <= from {
                b.offsets@[x] as int
            } else {
                b.nonzeros as int
            } by {}
            assert forall|x: int, y: int| 0 <= x <= y <= n implies #[trigger] self.offsets@[x]
                <= #[trigger] self.offsets@[y] by {
                if y <= from {
                    assert(b.offsets@[x] <= b.offsets@[y]);
                } else if x <= from {
                    assert(b.offsets@[x] <= b.offsets@[from as int]);
                }
            }
            assert forall|g: int, t: int| #[trigger] self.in_group(g, t) == (b.in_group(g, t)
                && g < n) by {
                if g >= n && b.in_group(g, t) {
                    assert(b.offsets@[n] <= b.offsets@[g]);
                }
                if g < n && g >= from {
                }
            }
            assert forall|t: int| 0 <= t < self.nonzeros implies #[trigger] self.indices@[t]
                < self.minor_count() by {
                let h = lemma_find_group(b, t, 0);
                lemma_slot(b, h, t);
            }
            assert(self.wf());
            assert forall|g: int, m: int| #[trigger] self.has(g, m) == (b.has(g, m) && g < n) by {
                if b.has(g, m) && g < n {
                    let t = b.slot(g, m);
                    assert(self.in_group(g, t) && self.indices@[t] == m);
                }
                if self.has(g, m) {
                    let t = self.slot(g, m);
                    assert(b.in_group(g, t) && b.indices@[t] == m);
                }
            }
            assert forall|p: (int, int)| #[trigger] self@.contains_key(p) <==> b@.contains_key(p) by {
                if b@.contains_key(p) {
                    lemma_stored(b, p.0, p.1);
                }
            }
            assert forall|p: (int, int)| #[trigger] self@.contains_key(p) implies self@[p] == b@[p] by {
                lemma_stored(b, p.0, p.1);
                let g = b.major_of(p.0, p.1);
                let t = b.slot(g, b.minor_of(p.0, p.1));
                lemma_slot(*self, g, t);
            }
            assert(self@ =~= b@);
            lemma_nonzeros_len(*self);
        }
    }
}

/// A sparse iterator over the stored elements, in the order of storage.
pub struct Iterator<'l, T: Element> {
    matrix: &'l Compressed<T>,
    taken: usize,
    major: usize,
}

impl<'l, T: Element> Iterator<'l, T> {
    /// The matrix iterated over.
    pub closed spec fn matrix(&self) -> Compressed<T> {
        *self.matrix
    }

    /// The number of elements already yielded.
    pub closed spec fn taken(&self) -> int {
        self.taken as int
    }

    /// The iterator stands on a group that holds its next slot.
    pub closed spec fn wf(&self) -> bool {
        &&& self.matrix.wf()
        &&& self.taken <= self.matrix.nonzeros
        &&& self.major <= self.matrix.major_count()
        &&& (self.taken < self.matrix.nonzeros ==> self.major < self.matrix.major_count())
        &&& self.matrix.offsets@[self.major as int] <= self.taken
    }

    /// Return the next stored element as its row, its column and its value.
    pub fn next(&mut self) -> (r: Option<(usize, usize, &'l T)>)
        requires
            old(self).wf(),
        ensures
            final(self).wf(),
            final(self).matrix() == old(self).matrix(),
            old(self).taken() < old(self).matrix().nonzeros ==> {
                let m = old(self).matrix();
                let k = old(self).taken();
                &&& final(self).taken() == k + 1
                &&& exists|g: int|
                    #![trigger m.in_group(g, k)]
                    m.in_group(g, k) && r == Some(
                        (
                            m.position_at(g, k).0 as usize,
                            m.position_at(g, k).1 as usize,
                            &m.values@[k],
                        ),
                    )
            },
            old(self).taken() >= old(self).matrix().nonzeros ==> r.is_none() && final(self).taken()
                == old(self).taken(),
    {
        let k = self.taken;
        if k == self.matrix.nonzeros {
            return None;
        }
        self.taken = k + 1;
        while self.matrix.offsets[self.major + 1] <= k
            invariant
                self.matrix == old(self).matrix,
                k == old(self).taken,
                self.matrix.wf(),
                k < self.matrix.nonzeros,
                self.taken == k + 1,
                self.major < self.matrix.major_count(),
                self.matrix.offsets@[self.major as int] <= k,
            decreases self.matrix.major_count() - self.major,
        {
            self.major = self.major + 1;
        }
        let g = self.major;
        assert(self.matrix.in_group(g as int, k as int));
        assert(self.matrix.indices@[k as int] < self.matrix.minor_count());
        let value = &self.matrix.values[k];
        let (i, j) = self.matrix.variant.denormalize(g, self.matrix.indices[k]);
        Some((i, j, value))
    }
}

impl<T: Element> Compressed<T> {
    /// Return a sparse iterator.
    pub fn iter(&self) -> (r: Iterator<'_, T>)
        requires
            self.wf(),
        ensures
            r.wf(),
            r.matrix() == *self,
            r.taken() == 0,
    {
        Iterator { matrix: self, taken: 0, major: 0 }
    }

    /// Count the stored elements that are not zero.
    pub fn nonzeros(&self) -> (r: usize)
        ensures
            r == count_nonzero(self.values@),
    {
        let mut count: usize = 0;
        let mut k: usize = 0;
        while k < self.values.len()
            invariant
                k <= self.values@.len(),
                count == count_nonzero(self.values@.subrange(0, k as int)),
                count <= k,
            decreases self.values@.len() - k,
        {
            proof {
                let s = self.values@.subrange(0, k + 1);
                assert(s.drop_last() =~= self.values@.subrange(0, k as int));
            }
            if !self.values[k].is_zero() {
                count += 1;
            }
            k += 1;
        }
        assert(self.values@.subrange(0, k as int) =~= self.values@);
        count
    }
}

/// The size of a compressed matrix.
impl<T: Element> Size for Compressed<T> {
    open spec fn spec_rows(&self) -> usize {
        self.rows
    }

    open spec fn spec_columns(&self) -> usize {
        self.columns
    }

    fn rows(&self) -> (r: usize) {
        self.rows
    }

    fn columns(&self) -> (r: usize) {
        self.columns
    }
}

} // verus!
