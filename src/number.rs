//! The numeric domain that the evaluator computes over.
use vstd::prelude::*;

verus! {

/// What the evaluator needs of its numbers: the four arithmetic operators,
/// negation and the three comparisons from which the others are derived
/// (`a > b` is `b < a`, `a >= b` is `b <= a`, `a != b` is `!(a == b)`).
///
/// An operation may refuse its operands (`None`), which the evaluator reports
/// as an arithmetic fault. A domain of IEEE-754 doubles never refuses: division
/// by zero there is an ordinary value.
pub trait Number: Copy + Sized {
    spec fn spec_plus(self, rhs: Self) -> Option<Self>;

    spec fn spec_minus(self, rhs: Self) -> Option<Self>;

    spec fn spec_times(self, rhs: Self) -> Option<Self>;

    spec fn spec_over(self, rhs: Self) -> Option<Self>;

    spec fn spec_negate(self) -> Option<Self>;

    spec fn spec_equals(self, rhs: Self) -> bool;

    spec fn spec_less(self, rhs: Self) -> bool;

    spec fn spec_less_eq(self, rhs: Self) -> bool;

    fn plus(self, rhs: Self) -> (r: Option<Self>)
        ensures
            r == self.spec_plus(rhs),
    ;

    fn minus(self, rhs: Self) -> (r: Option<Self>)
        ensures
            r == self.spec_minus(rhs),
    ;

    fn times(self, rhs: Self) -> (r: Option<Self>)
        ensures
            r == self.spec_times(rhs),
    ;

    fn over(self, rhs: Self) -> (r: Option<Self>)
        ensures
            r == self.spec_over(rhs),
    ;

    fn negate(self) -> (r: Option<Self>)
        ensures
            r == self.spec_negate(),
    ;

    fn equals(self, rhs: Self) -> (r: bool)
        ensures
            r == self.spec_equals(rhs),
    ;

    fn less(self, rhs: Self) -> (r: bool)
        ensures
            r == self.spec_less(rhs),
    ;

    fn less_eq(self, rhs: Self) -> (r: bool)
        ensures
            r == self.spec_less_eq(rhs),
    ;
}

/// Exact 64-bit integers: an operation whose true result does not fit, and
/// division by zero, are refused.
impl Number for i64 {
    open spec fn spec_plus(self, rhs: i64) -> Option<i64> {
        let r = self + rhs;
        if i64::MIN <= r <= i64::MAX {
            Some(r as i64)
        } else {
            None
        }
    }

    open spec fn spec_minus(self, rhs: i64) -> Option<i64> {
        let r = self - rhs;
        if i64::MIN <= r <= i64::MAX {
            Some(r as i64)
        } else {
            None
        }
    }

    open spec fn spec_times(self, rhs: i64) -> Option<i64> {
        let r = self * rhs;
        if i64::MIN <= r <= i64::MAX {
            Some(r as i64)
        } else {
            None
        }
    }

    open spec fn spec_over(self, rhs: i64) -> Option<i64> {
        self.checked_div(rhs)
    }

    open spec fn spec_negate(self) -> Option<i64> {
        if self == i64::MIN {
            None
        } else {
            Some((-self) as i64)
        }
    }

    open spec fn spec_equals(self, rhs: i64) -> bool {
        self == rhs
    }

    open spec fn spec_less(self, rhs: i64) -> bool {
        self < rhs
    }

    open spec fn spec_less_eq(self, rhs: i64) -> bool {
        self <= rhs
    }

    fn plus(self, rhs: i64) -> (r: Option<i64>) {
        self.checked_add(rhs)
    }

    fn minus(self, rhs: i64) -> (r: Option<i64>) {
        self.checked_sub(rhs)
    }

    fn times(self, rhs: i64) -> (r: Option<i64>) {
        self.checked_mul(rhs)
    }

    fn over(self, rhs: i64) -> (r: Option<i64>) {
        self.checked_div(rhs)
    }

    fn negate(self) -> (r: Option<i64>) {
        if self == i64::MIN {
            None
        } else {
            Some(-self)
        }
    }

    fn equals(self, rhs: i64) -> (r: bool) {
        self == rhs
    }

    fn less(self, rhs: i64) -> (r: bool) {
        self < rhs
    }

    fn less_eq(self, rhs: i64) -> (r: bool) {
        self <= rhs
    }
}

} // verus!
