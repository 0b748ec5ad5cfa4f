//! The element type of every matrix, as a trait.
//!
//! Each executable operation is paired with a specification function that
//! names its result, so the matrix and graph layers can state exact contracts
//! without fixing one numeric semantics. The crate ships an implementation
//! for `i64` whose arithmetic wraps; callers outside the verified world may
//! implement the trait for their own element types.

use vstd::prelude::*;

verus! {

/// A matrix element.
///
/// The `*_s` specification functions define what the executable methods
/// return; every method's `ensures` ties it to its name. Nothing further is
/// assumed of the operations: laws such as commutativity appear only as
/// hypotheses of the proof functions that need them.
pub trait Scalar: Sized + Copy {
    /// The additive unit, used for empty accumulators and tile padding.
    ///
    /// Every specification function here carries a default body standing
    /// for an unspecified value, so an implementation outside the verified
    /// world only supplies the executable operations; a verified
    /// implementation overrides the specification functions as well.
    open spec fn zero_s() -> Self {
        vstd::pervasive::arbitrary()
    }

    /// The seed value of an unseeded backward pass.
    open spec fn one_s() -> Self {
        vstd::pervasive::arbitrary()
    }

    /// The scalar that negates through multiplication.
    open spec fn neg_one_s() -> Self {
        vstd::pervasive::arbitrary()
    }

    open spec fn add_s(a: Self, b: Self) -> Self {
        vstd::pervasive::arbitrary()
    }

    open spec fn sub_s(a: Self, b: Self) -> Self {
        vstd::pervasive::arbitrary()
    }

    open spec fn mul_s(a: Self, b: Self) -> Self {
        vstd::pervasive::arbitrary()
    }

    /// Division by a positive cell count, used by the mean kernel.
    open spec fn divn_s(a: Self, n: int) -> Self {
        vstd::pervasive::arbitrary()
    }

    /// The scalar standing for a small non-negative integer, used by the
    /// power kernel's derivative factor.
    open spec fn from_n_s(n: int) -> Self {
        vstd::pervasive::arbitrary()
    }

    /// The logistic function, or whatever stands in for it.
    open spec fn sigmoid_s(a: Self) -> Self {
        vstd::pervasive::arbitrary()
    }

    /// Whether the value is strictly positive; decides the relu kernels.
    open spec fn is_pos_s(a: Self) -> bool {
        vstd::pervasive::arbitrary()
    }

    /// Whether the value is strictly negative; decides the leaky-relu kernel.
    open spec fn is_neg_s(a: Self) -> bool {
        vstd::pervasive::arbitrary()
    }

    fn zero() -> (r: Self)
        ensures
            r == Self::zero_s(),
    ;

    fn one() -> (r: Self)
        ensures
            r == Self::one_s(),
    ;

    fn neg_one() -> (r: Self)
        ensures
            r == Self::neg_one_s(),
    ;

    fn add(self, b: Self) -> (r: Self)
        ensures
            r == Self::add_s(self, b),
    ;

    fn sub(self, b: Self) -> (r: Self)
        ensures
            r == Self::sub_s(self, b),
    ;

    fn mul(self, b: Self) -> (r: Self)
        ensures
            r == Self::mul_s(self, b),
    ;

    fn divn(self, n: usize) -> (r: Self)
        requires
            1 <= n,
        ensures
            r == Self::divn_s(self, n as int),
    ;

    fn from_n(n: usize) -> (r: Self)
        ensures
            r == Self::from_n_s(n as int),
    ;

    fn sigmoid(self) -> (r: Self)
        ensures
            r == Self::sigmoid_s(self),
    ;

    fn is_pos(self) -> (r: bool)
        ensures
            r == Self::is_pos_s(self),
    ;

    fn is_neg(self) -> (r: bool)
        ensures
            r == Self::is_neg_s(self),
    ;
}

impl Scalar for i64 {
    open spec fn zero_s() -> i64 {
        0
    }

    open spec fn one_s() -> i64 {
        1
    }

    open spec fn neg_one_s() -> i64 {
        -1i64
    }

    open spec fn add_s(a: i64, b: i64) -> i64 {
        vstd::wrapping::i64_specs::wrapping_add(a, b)
    }

    open spec fn sub_s(a: i64, b: i64) -> i64 {
        vstd::wrapping::i64_specs::wrapping_sub(a, b)
    }

    open spec fn mul_s(a: i64, b: i64) -> i64 {
        vstd::wrapping::i64_specs::wrapping_mul(a, b)
    }

    /// Truncating division by the cell count, clamped to the largest divisor
    /// an `i64` can hold; counts beyond that cannot come from an allocated
    /// matrix of `i64` cells.
    open spec fn divn_s(a: i64, n: int) -> i64 {
        let d = if n <= i64::MAX as int {
            n
        } else {
            i64::MAX as int
        };
        if a >= 0 {
            (a as int / d) as i64
        } else {
            (-((-(a as int)) / d)) as i64
        }
    }

    /// Counts beyond `i64::MAX` saturate; they cannot come from an exponent
    /// or an allocated cell count of `i64` cells.
    open spec fn from_n_s(n: int) -> i64 {
        if n <= i64::MAX as int {
            n as i64
        } else {
            i64::MAX
        }
    }

    /// Integer scalars use the hard threshold in place of the logistic curve.
    open spec fn sigmoid_s(a: i64) -> i64 {
        if a > 0 {
            1
        } else {
            0
        }
    }

    open spec fn is_pos_s(a: i64) -> bool {
        a > 0
    }

    open spec fn is_neg_s(a: i64) -> bool {
        a < 0
    }

    fn zero() -> (r: i64) {
        0
    }

    fn one() -> (r: i64) {
        1
    }

    fn neg_one() -> (r: i64) {
        -1
    }

    fn add(self, b: i64) -> (r: i64) {
        self.wrapping_add(b)
    }

    fn sub(self, b: i64) -> (r: i64) {
        self.wrapping_sub(b)
    }

    fn mul(self, b: i64) -> (r: i64) {
        self.wrapping_mul(b)
    }

    fn divn(self, n: usize) -> (r: i64) {
        let d: i64 = if (n as u64) <= (i64::MAX as u64) {
            n as i64
        } else {
            i64::MAX
        };
        proof {
            assert(d >= 1);
            let x = self as int;
            assert(x >= 0 ==> 0 <= x / (d as int) <= x) by (nonlinear_arith)
                requires
                    d >= 1,
            ;
            assert(x < 0 ==> 0 <= (-x) / (d as int) <= -x) by (nonlinear_arith)
                requires
                    d >= 1,
            ;
        }
        match self.checked_div(d) {
            Some(q) => q,
            // unreachable: the divisor is positive, so the quotient is in range
            None => 0,
        }
    }

    fn from_n(n: usize) -> (r: i64) {
        if (n as u64) <= (i64::MAX as u64) {
            n as i64
        } else {
            i64::MAX
        }
    }

    fn sigmoid(self) -> (r: i64) {
        if self > 0 {
            1
        } else {
            0
        }
    }

    fn is_pos(self) -> (r: bool) {
        self > 0
    }

    fn is_neg(self) -> (r: bool) {
        self < 0
    }
}

} // verus!
