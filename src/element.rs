use vstd::prelude::*;

verus! {

/// An element of a matrix: a copyable value with a distinguished zero.
pub trait Element: Copy + Sized {
    /// The zero element, as a mathematical value.
    spec fn spec_zero() -> Self;

    /// Return the zero element.
    fn zero() -> (r: Self)
        ensures
            r == Self::spec_zero(),
    ;

    /// Check if the element is zero.
    fn is_zero(&self) -> (r: bool)
        ensures
            r == (*self == Self::spec_zero()),
    ;
}

/// A number: an element with addition and multiplication.
///
/// For the integer types both operations wrap around on overflow, so that
/// they are total and form a ring.
pub trait Number: Element {
    /// The sum of two numbers.
    spec fn spec_plus(a: Self, b: Self) -> Self;

    /// The product of two numbers.
    spec fn spec_times(a: Self, b: Self) -> Self;

    /// Add two numbers.
    fn plus(self, other: Self) -> (r: Self)
        ensures
            r == Self::spec_plus(self, other),
    ;

    /// Multiply two numbers.
    fn times(self, other: Self) -> (r: Self)
        ensures
            r == Self::spec_times(self, other),
    ;
}

/// The number of nonzero elements of a sequence.
pub open spec fn count_nonzero<T: Element>(s: Seq<T>) -> nat
    decreases s.len(),
{
    if s.len() == 0 {
        0
    } else {
        count_nonzero(s.drop_last()) + if s.last() == T::spec_zero() {
            0nat
        } else {
            1nat
        }
    }
}

impl Element for bool {
    open spec fn spec_zero() -> Self {
        false
    }

    fn zero() -> (r: Self) {
        false
    }

    fn is_zero(&self) -> (r: bool) {
        !*self
    }
}

impl Element for u8 {
    open spec fn spec_zero() -> Self {
        0
    }

    fn zero() -> (r: Self) {
        0
    }

    fn is_zero(&self) -> (r: bool) {
        *self == 0
    }
}

impl Number for u8 {
    open spec fn spec_plus(a: Self, b: Self) -> Self {
        a.wrapping_add(b)
    }

    open spec fn spec_times(a: Self, b: Self) -> Self {
        a.wrapping_mul(b)
    }

    fn plus(self, other: Self) -> (r: Self) {
        self.wrapping_add(other)
    }

    fn times(self, other: Self) -> (r: Self) {
        self.wrapping_mul(other)
    }
}

impl Element for u16 {
    open spec fn spec_zero() -> Self {
        0
    }

    fn zero() -> (r: Self) {
        0
    }

    fn is_zero(&self) -> (r: bool) {
        *self == 0
    }
}

impl Number for u16 {
    open spec fn spec_plus(a: Self, b: Self) -> Self {
        a.wrapping_add(b)
    }

    open spec fn spec_times(a: Self, b: Self) -> Self {
        a.wrapping_mul(b)
    }

    fn plus(self, other: Self) -> (r: Self) {
        self.wrapping_add(other)
    }

    fn times(self, other: Self) -> (r: Self) {
        self.wrapping_mul(other)
    }
}

impl Element for u32 {
    open spec fn spec_zero() -> Self {
        0
    }

    fn zero() -> (r: Self) {
        0
    }

    fn is_zero(&self) -> (r: bool) {
        *self == 0
    }
}

impl Number for u32 {
    open spec fn spec_plus(a: Self, b: Self) -> Self {
        a.wrapping_add(b)
    }

    open spec fn spec_times(a: Self, b: Self) -> Self {
        a.wrapping_mul(b)
    }

    fn plus(self, other: Self) -> (r: Self) {
        self.wrapping_add(other)
    }

    fn times(self, other: Self) -> (r: Self) {
        self.wrapping_mul(other)
    }
}

impl Element for u64 {
    open spec fn spec_zero() -> Self {
        0
    }

    fn zero() -> (r: Self) {
        0
    }

    fn is_zero(&self) -> (r: bool) {
        *self == 0
    }
}

impl Number for u64 {
    open spec fn spec_plus(a: Self, b: Self) -> Self {
        a.wrapping_add(b)
    }

    open spec fn spec_times(a: Self, b: Self) -> Self {
        a.wrapping_mul(b)
    }

    fn plus(self, other: Self) -> (r: Self) {
        self.wrapping_add(other)
    }

    fn times(self, other: Self) -> (r: Self) {
        self.wrapping_mul(other)
    }
}

impl Element for usize {
    open spec fn spec_zero() -> Self {
        0
    }

    fn zero() -> (r: Self) {
        0
    }

    fn is_zero(&self) -> (r: bool) {
        *self == 0
    }
}

impl Number for usize {
    open spec fn spec_plus(a: Self, b: Self) -> Self {
        a.wrapping_add(b)
    }

    open spec fn spec_times(a: Self, b: Self) -> Self {
        a.wrapping_mul(b)
    }

    fn plus(self, other: Self) -> (r: Self) {
        self.wrapping_add(other)
    }

    fn times(self, other: Self) -> (r: Self) {
        self.wrapping_mul(other)
    }
}

impl Element for i8 {
    open spec fn spec_zero() -> Self {
        0
    }

    fn zero() -> (r: Self) {
        0
    }

    fn is_zero(&self) -> (r: bool) {
        *self == 0
    }
}

impl Number for i8 {
    open spec fn spec_plus(a: Self, b: Self) -> Self {
        a.wrapping_add(b)
    }

    open spec fn spec_times(a: Self, b: Self) -> Self {
        a.wrapping_mul(b)
    }

    fn plus(self, other: Self) -> (r: Self) {
        self.wrapping_add(other)
    }

    fn times(self, other: Self) -> (r: Self) {
        self.wrapping_mul(other)
    }
}

impl Element for i16 {
    open spec fn spec_zero() -> Self {
        0
    }

    fn zero() -> (r: Self) {
        0
    }

    fn is_zero(&self) -> (r: bool) {
        *self == 0
    }
}

impl Number for i16 {
    open spec fn spec_plus(a: Self, b: Self) -> Self {
        a.wrapping_add(b)
    }

    open spec fn spec_times(a: Self, b: Self) -> Self {
        a.wrapping_mul(b)
    }

    fn plus(self, other: Self) -> (r: Self) {
        self.wrapping_add(other)
    }

    fn times(self, other: Self) -> (r: Self) {
        self.wrapping_mul(other)
    }
}

impl Element for i32 {
    open spec fn spec_zero() -> Self {
        0
    }

    fn zero() -> (r: Self) {
        0
    }

    fn is_zero(&self) -> (r: bool) {
        *self == 0
    }
}

impl Number for i32 {
    open spec fn spec_plus(a: Self, b: Self) -> Self {
        a.wrapping_add(b)
    }

    open spec fn spec_times(a: Self, b: Self) -> Self {
        a.wrapping_mul(b)
    }

    fn plus(self, other: Self) -> (r: Self) {
        self.wrapping_add(other)
    }

    fn times(self, other: Self) -> (r: Self) {
        self.wrapping_mul(other)
    }
}

impl Element for i64 {
    open spec fn spec_zero() -> Self {
        0
    }

    fn zero() -> (r: Self) {
        0
    }

    fn is_zero(&self) -> (r: bool) {
        *self == 0
    }
}

impl Number for i64 {
    open spec fn spec_plus(a: Self, b: Self) -> Self {
        a.wrapping_add(b)
    }

    open spec fn spec_times(a: Self, b: Self) -> Self {
        a.wrapping_mul(b)
    }

    fn plus(self, other: Self) -> (r: Self) {
        self.wrapping_add(other)
    }

    fn times(self, other: Self) -> (r: Self) {
        self.wrapping_mul(other)
    }
}

impl Element for isize {
    open spec fn spec_zero() -> Self {
        0
    }

    fn zero() -> (r: Self) {
        0
    }

    fn is_zero(&self) -> (r: bool) {
        *self == 0
    }
}

impl Number for isize {
    open spec fn spec_plus(a: Self, b: Self) -> Self {
        a.wrapping_add(b)
    }

    open spec fn spec_times(a: Self, b: Self) -> Self {
        a.wrapping_mul(b)
    }

    fn plus(self, other: Self) -> (r: Self) {
        self.wrapping_add(other)
    }

    fn times(self, other: Self) -> (r: Self) {
        self.wrapping_mul(other)
    }
}

} // verus!
