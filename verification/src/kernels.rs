//! Matrix-level forward/backward kernel pairs, usable outside the graph:
//! each `run` is a forward kernel and each `grad` the matching
//! vector-Jacobian product.

use vstd::prelude::*;

use crate::graph::{madd, mrelu};
use crate::matrix::{cols, is_grid, rows, Matrix};
use crate::scalar::Scalar;

verus! {

/// The elementwise-addition kernel: forward adds the operands, backward
/// hands the incoming delta to both.
pub struct AddRunner;

impl AddRunner {
    pub fn run<S: Scalar>(&self, input_left: &Matrix<S>, input_right: &Matrix<S>) -> (r: Matrix<
        S,
    >)
        requires
            input_left.wf(),
            input_right.wf(),
            rows(input_left@) == rows(input_right@),
            cols(input_left@) == cols(input_right@),
        ensures
            r.wf(),
            r@ == madd(input_left@, input_right@),
    {
        let r = input_left.binary_operation(
            input_right,
            |a: S, b: S| -> (o: S) ensures o == S::add_s(a, b) { a.add(b) },
        );
        proof {
            input_left.lemma_grid();
            assert(r@ =~~= madd(input_left@, input_right@));
        }
        r
    }

    pub fn grad<S: Scalar>(&self, delta: &Matrix<S>) -> (r: (Matrix<S>, Matrix<S>))
        requires
            delta.wf(),
        ensures
            r.0.wf(),
            r.1.wf(),
            r.0@ == delta@,
            r.1@ == delta@,
    {
        (delta.duplicate(), delta.duplicate())
    }
}

/// The rectifier kernel: forward keeps positive cells and zeroes the rest,
/// backward passes the delta through exactly where the input was positive.
pub struct OpUnaryRelu;

impl OpUnaryRelu {
    pub fn run<S: Scalar>(&self, input: &Matrix<S>) -> (r: Matrix<S>)
        requires
            input.wf(),
        ensures
            r.wf(),
            r@ == mrelu(input@),
    {
        let r = input.unary_operation(
            |v: S| -> (o: S) ensures o == (if S::is_pos_s(v) { v } else { S::zero_s() }) { if v.is_pos() { v } else { S::zero() } },
        );
        proof {
            input.lemma_grid();
            assert(r@ =~~= mrelu(input@));
        }
        r
    }

    pub fn grad<S: Scalar>(&self, input: &Matrix<S>, delta: &Matrix<S>) -> (r: Matrix<S>)
        requires
            input.wf(),
            delta.wf(),
            rows(input@) == rows(delta@),
            cols(input@) == cols(delta@),
        ensures
            r.wf(),
            is_grid(r@, rows(input@), cols(input@)),
            forall|y: int, x: int|
                0 <= y < rows(input@) && 0 <= x < cols(input@) ==> #[trigger] r@[y][x] == (
                if S::is_pos_s(input@[y][x]) {
                    delta@[y][x]
                } else {
                    S::zero_s()
                }),
    {
        input.binary_operation(
            delta,
            |a: S, b: S| -> (o: S) ensures o == (if S::is_pos_s(a) { b } else { S::zero_s() }) { if a.is_pos() { b } else { S::zero() } },
        )
    }
}

} // verus!
