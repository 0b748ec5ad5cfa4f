//! Leaf-node conveniences: placeholders that feed data into a static graph,
//! and turning a matrix into a trainable variable.

use vstd::prelude::*;

use crate::graph::{mfill, Graph, Op, OperationRef};
use crate::matrix::{cols, rows, Matrix};
use crate::scalar::Scalar;

verus! {

/// Constructors for placeholder leaves: nodes holding a matrix that can be
/// swapped between forward passes, feeding mini-batch samples through an
/// otherwise static graph.
pub struct InputPlaceholder;

impl InputPlaceholder {
    /// A placeholder initially holding a one-by-one zero matrix.
    pub fn new<S: Scalar>(g: &mut Graph<S>) -> (n: OperationRef)
        requires
            old(g).wf(),
            old(g).len() < usize::MAX as int,
        ensures
            final(g).wf(),
            final(g).len() == old(g).len() + 1,
            n.id() == old(g).len(),
            final(g).op_at(n.id()) == Op::<S>::Placeholder,
            final(g).out_at(n.id()) == mfill(1, 1, S::zero_s()),
            crate::graph::unchanged_prefix(*old(g), *final(g), old(g).len()),
    {
        let m = Matrix::new_zero(1, 1);
        proof {
            assert(m@ =~~= mfill(1, 1, S::zero_s()));
        }
        g.placeholder(m)
    }

    /// A placeholder holding the given matrix.
    pub fn with_value<S: Scalar>(g: &mut Graph<S>, value: Matrix<S>) -> (n: OperationRef)
        requires
            old(g).wf(),
            value.wf(),
            old(g).len() < usize::MAX as int,
        ensures
            final(g).wf(),
            final(g).len() == old(g).len() + 1,
            n.id() == old(g).len(),
            final(g).op_at(n.id()) == Op::<S>::Placeholder,
            final(g).out_at(n.id()) == value@,
            crate::graph::unchanged_prefix(*old(g), *final(g), old(g).len()),
    {
        g.placeholder(value)
    }
}

impl<S: Scalar> Matrix<S> {
    /// Hands the matrix to the graph as a trainable variable, returning its
    /// handle.
    pub fn as_variable(self, g: &mut Graph<S>) -> (n: OperationRef)
        requires
            old(g).wf(),
            self.wf(),
            old(g).len() < usize::MAX as int,
        ensures
            final(g).wf(),
            final(g).len() == old(g).len() + 1,
            n.id() == old(g).len(),
            final(g).op_at(n.id()) == Op::<S>::Variable,
            final(g).out_at(n.id()) == self@,
            final(g).grad_at(n.id()) == mfill(rows(self@), cols(self@), S::zero_s()),
            crate::graph::unchanged_prefix(*old(g), *final(g), old(g).len()),
    {
        g.variable(self)
    }
}

} // verus!
