//! Grouping the trainable variables a model creates, so an optimizer can
//! register them in one call.

use vstd::prelude::*;

use crate::graph::{mfill, unchanged_prefix, Graph, Op, OperationRef};
use crate::matrix::{cols, rows, Matrix};
use crate::scalar::Scalar;

verus! {

broadcast use crate::graph::lemma_len_nonneg;

/// The variable handles a model has created, in creation order.
pub struct VariableGroup {
    variables: Vec<OperationRef>,
}

impl VariableGroup {
    /// The recorded handles.
    pub closed spec fn handles(&self) -> Seq<OperationRef> {
        self.variables@
    }

    /// Every recorded handle names a variable node of `g`.
    pub open spec fn valid_for<S: Scalar>(&self, g: &Graph<S>) -> bool {
        forall|k: int|
            0 <= k < self.handles().len() ==> 0 <= (#[trigger] self.handles()[k]).id() < g.len()
                && g.is_var(self.handles()[k].id())
    }

    pub fn new() -> (r: Self)
        ensures
            r.handles().len() == 0,
    {
        VariableGroup { variables: Vec::new() }
    }

    /// Creates a variable over the initial value and records its handle.
    pub fn add<S: Scalar>(&mut self, g: &mut Graph<S>, initial_value: Matrix<S>) -> (n:
        OperationRef)
        requires
            old(self).valid_for(old(g)),
            old(g).wf(),
            initial_value.wf(),
            old(g).len() < usize::MAX as int,
        ensures
            final(g).wf(),
            final(g).len() == old(g).len() + 1,
            n.id() == old(g).len(),
            final(g).op_at(n.id()) == Op::<S>::Variable,
            final(g).out_at(n.id()) == initial_value@,
            final(g).grad_at(n.id()) == mfill(
                rows(initial_value@),
                cols(initial_value@),
                S::zero_s(),
            ),
            unchanged_prefix(*old(g), *final(g), old(g).len()),
            final(self).handles() == old(self).handles().push(n),
            final(self).valid_for(final(g)),
    {
        let n = g.variable(initial_value);
        self.variables.push(n);
        proof {
            assert(self.handles() == old(self).handles().push(n));
            assert forall|k: int|
                0 <= k < self.handles().len() implies 0 <= (#[trigger] self.handles()[k]).id()
                < g.len() && g.is_var(self.handles()[k].id()) by {
                if k < old(self).handles().len() {
                    assert(self.handles()[k] == old(self).handles()[k]);
                    let h = old(self).handles()[k];
                    assert(0 <= h.id() < old(g).len() && old(g).is_var(h.id()));
                    assert(g.op_at(h.id()) == old(g).op_at(h.id()));
                    assert(0 <= self.handles()[k].id() < g.len());
                    assert(g.is_var(self.handles()[k].id()));
                } else {
                    assert(self.handles()[k] == n);
                    assert(g.op_at(n.id()) == Op::<S>::Variable);
                    assert(0 <= self.handles()[k].id() < g.len());
                    assert(g.is_var(self.handles()[k].id()));
                }
            }
        }
        n
    }

    /// The recorded handles, for registration with an optimizer.
    pub fn all(&self) -> (r: &Vec<OperationRef>)
        ensures
            r@ == self.handles(),
    {
        &self.variables
    }

    /// Recorded handles stay valid when the graph only grows above them.
    pub proof fn lemma_valid_grow<S: Scalar>(&self, g0: &Graph<S>, g1: &Graph<S>)
        requires
            self.valid_for(g0),
            g0.len() <= g1.len(),
            unchanged_prefix(*g0, *g1, g0.len()),
        ensures
            self.valid_for(g1),
    {
    }
}

} // verus!
