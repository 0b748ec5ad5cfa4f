//! The optimizer: a deduplicated set of registered variable handles and an
//! update rule applied cell by cell.
//!
//! [`Optimizer::step`] rewrites every registered variable's value through
//! the rule and clears its gradient accumulator to zero; every other node of
//! the graph is left alone. The plain stochastic-gradient rule lives in
//! [`OptimFuncSGD`]; any other rule can be substituted by implementing
//! [`OptimFunc`] without touching the graph.

use vstd::prelude::*;

use crate::graph::{grid_of, mfill, Graph, OperationRef};
use crate::matrix::{cols, rows};
use crate::scalar::Scalar;

verus! {

/// A per-cell update rule, its result named by `update_s`.
pub trait OptimFunc<S: Scalar>: Sized {
    /// What the rule turns a value cell with its gradient cell into.
    spec fn update_s(&self, value: S, grad: S) -> S;

    fn update(&self, value: S, grad: S) -> (r: S)
        ensures
            r == self.update_s(value, grad),
    ;
}

/// Plain stochastic gradient descent: the gradient scaled by the learning
/// rate is subtracted from the value.
pub struct OptimFuncSGD<S: Scalar> {
    lr: S,
}

impl<S: Scalar> OptimFuncSGD<S> {
    /// The learning rate the rule was built with.
    pub closed spec fn lr_s(&self) -> S {
        self.lr
    }

    pub fn new(lr: S) -> (r: Self)
        ensures
            r.lr_s() == lr,
    {
        OptimFuncSGD { lr }
    }
}

impl<S: Scalar> OptimFunc<S> for OptimFuncSGD<S> {
    closed spec fn update_s(&self, value: S, grad: S) -> S {
        S::sub_s(value, S::mul_s(self.lr, grad))
    }

    fn update(&self, value: S, grad: S) -> (r: S) {
        value.sub(self.lr.mul(grad))
    }
}

/// What the stochastic-gradient rule computes, spelled out.
pub proof fn lemma_sgd_rule<S: Scalar>(f: OptimFuncSGD<S>, value: S, grad: S)
    ensures
        f.update_s(value, grad) == S::sub_s(value, S::mul_s(f.lr_s(), grad)),
{
}

/// A whole value grid pushed through an update rule against its gradient
/// grid, cell by cell.
pub open spec fn mupdate<S: Scalar, F: OptimFunc<S>>(
    f: F,
    v: Seq<Seq<S>>,
    g: Seq<Seq<S>>,
) -> Seq<Seq<S>> {
    grid_of(rows(v), cols(v), |y: int, x: int| f.update_s(v[y][x], g[y][x]))
}

/// The update rule paired with the variables it trains.
pub struct Optimizer<S: Scalar, F: OptimFunc<S>> {
    variables: Vec<OperationRef>,
    func: F,
    scalar: core::marker::PhantomData<S>,
}

impl<S: Scalar, F: OptimFunc<S>> Optimizer<S, F> {
    /// The registered variable handles, in registration order.
    pub closed spec fn vars(&self) -> Seq<OperationRef> {
        self.variables@
    }

    /// The update rule.
    pub closed spec fn func_s(&self) -> F {
        self.func
    }

    /// Registration is deduplicated: no handle appears twice.
    pub open spec fn wf(&self) -> bool {
        forall|k1: int, k2: int|
            0 <= k1 < k2 < self.vars().len() ==> (#[trigger] self.vars()[k1]) != (
            #[trigger] self.vars()[k2])
    }

    /// Every registered handle names a variable node of `g`.
    pub open spec fn valid_for(&self, g: &Graph<S>) -> bool {
        forall|k: int|
            0 <= k < self.vars().len() ==> 0 <= (#[trigger] self.vars()[k]).id() < g.len()
                && g.is_var(self.vars()[k].id())
    }

    /// Whether some registered handle names node `j`.
    pub open spec fn registers(&self, j: int) -> bool {
        contains_id(self.vars(), j)
    }

    pub fn new(func: F) -> (r: Self)
        ensures
            r.wf(),
            r.vars().len() == 0,
            r.func_s() == func,
    {
        Optimizer { variables: Vec::new(), func, scalar: core::marker::PhantomData }
    }

    /// Registers every variable among the given handles, skipping the other
    /// node kinds and any handle already registered, so registration by
    /// node identity is idempotent.
    pub fn add_variables(&mut self, g: &Graph<S>, nodes: &Vec<OperationRef>)
        requires
            old(self).wf(),
            old(self).valid_for(g),
            g.wf(),
            forall|k: int| 0 <= k < nodes@.len() ==> 0 <= (#[trigger] nodes@[k]).id() < g.len(),
        ensures
            final(self).wf(),
            final(self).valid_for(g),
            final(self).func_s() == old(self).func_s(),
            forall|k: int|
                0 <= k < nodes@.len() && g.is_var(nodes@[k].id()) ==> final(self).vars().contains(
                    #[trigger] nodes@[k],
                ),
            forall|v: OperationRef|
                final(self).vars().contains(v) ==> old(self).vars().contains(v)
                    || nodes@.contains(v),
            forall|v: OperationRef|
                old(self).vars().contains(v) ==> final(self).vars().contains(v),
    {
        let count = nodes.len();
        let mut k: usize = 0;
        while k < count
            invariant
                self.wf(),
                self.valid_for(g),
                self.func_s() == old(self).func_s(),
                g.wf(),
                k <= count,
                count == nodes@.len(),
                forall|t: int| 0 <= t < nodes@.len() ==> 0 <= (#[trigger] nodes@[t]).id() < g.len(),
                forall|t: int|
                    0 <= t < k as int && g.is_var(nodes@[t].id()) ==> self.vars().contains(
                        #[trigger] nodes@[t],
                    ),
                forall|v: OperationRef|
                    self.vars().contains(v) ==> old(self).vars().contains(v) || nodes@.contains(v),
                forall|v: OperationRef|
                    old(self).vars().contains(v) ==> self.vars().contains(v),
            decreases count - k,
        {
            let node = nodes[k];
            let ghost prev = self.vars();
            if g.is_variable(node) && !has_handle(&self.variables, node) {
                self.variables.push(node);
                proof {
                    assert(self.vars() =~= prev.push(node));
                    assert(nodes@[k as int] == node);
                    assert(nodes@.contains(node));
                    assert forall|v: OperationRef| #[trigger]
                        self.vars().contains(v) implies prev.contains(v) || v == node by {
                        let t = choose|t: int|
                            0 <= t < self.vars().len() && self.vars()[t] == v;
                        if t < prev.len() {
                            assert(prev[t] == v);
                        }
                    }
                    assert forall|v: OperationRef| #[trigger]
                        prev.contains(v) implies self.vars().contains(v) by {
                        let t = choose|t: int| 0 <= t < prev.len() && prev[t] == v;
                        assert(self.vars()[t] == v);
                    }
                    assert forall|t: int|
                        0 <= t < (k + 1) as int && g.is_var(nodes@[t].id()) implies
                        self.vars().contains(#[trigger] nodes@[t]) by {
                        if t < k as int {
                            assert(prev.contains(nodes@[t]));
                        } else {
                            assert(self.vars()[prev.len() as int] == node);
                        }
                    }
                }
            } else {
                proof {
                    if g.is_var(node.id()) {
                        assert(self.vars().contains(node));
                    }
                    assert forall|t: int|
                        0 <= t < (k + 1) as int && g.is_var(nodes@[t].id()) implies
                        self.vars().contains(#[trigger] nodes@[t]) by {
                        if t == k as int {
                            assert(nodes@[t] == node);
                        }
                    }
                }
            }
            k += 1;
        }
    }

    /// One optimizer step: every registered variable's value is rewritten
    /// cell by cell through the rule against its accumulated gradient, and
    /// the accumulator is cleared to zero; a repeated step therefore sees a
    /// zero gradient. No other node of the graph changes.
    pub fn step(&self, g: &mut Graph<S>)
        requires
            old(g).wf(),
            self.wf(),
            self.valid_for(old(g)),
        ensures
            final(g).wf(),
            final(g).len() == old(g).len(),
            forall|j: int|
                0 <= j < old(g).len() ==> (#[trigger] final(g).op_at(j)) == old(g).op_at(j),
            forall|k: int|
                0 <= k < self.vars().len() ==> (#[trigger] final(g).out_at(self.vars()[k].id()))
                    == mupdate(
                    self.func_s(),
                    old(g).out_at(self.vars()[k].id()),
                    old(g).grad_at(self.vars()[k].id()),
                ),
            forall|k: int|
                0 <= k < self.vars().len() ==> (#[trigger] final(g).grad_at(self.vars()[k].id()))
                    == mfill(
                    rows(old(g).out_at(self.vars()[k].id())),
                    cols(old(g).out_at(self.vars()[k].id())),
                    S::zero_s(),
                ),
            forall|j: int|
                0 <= j < old(g).len() && !self.registers(j) ==> (#[trigger] final(g).out_at(j))
                    == old(g).out_at(j) && final(g).grad_at(j) == old(g).grad_at(j),
    {
        let count = self.variables.len();
        let mut k: usize = 0;
        while k < count
            invariant
                g.wf(),
                g.len() == old(g).len(),
                self.wf(),
                self.valid_for(old(g)),
                k <= count,
                count == self.vars().len(),
                forall|j: int|
                    0 <= j < old(g).len() ==> (#[trigger] g.op_at(j)) == old(g).op_at(j),
                forall|t: int|
                    0 <= t < k as int ==> (#[trigger] g.out_at(self.vars()[t].id())) == mupdate(
                        self.func_s(),
                        old(g).out_at(self.vars()[t].id()),
                        old(g).grad_at(self.vars()[t].id()),
                    ),
                forall|t: int|
                    0 <= t < k as int ==> (#[trigger] g.grad_at(self.vars()[t].id())) == mfill(
                        rows(old(g).out_at(self.vars()[t].id())),
                        cols(old(g).out_at(self.vars()[t].id())),
                        S::zero_s(),
                    ),
                forall|j: int|
                    0 <= j < old(g).len() && !contains_id(self.vars().take(k as int), j) ==> (
                    #[trigger] g.out_at(j)) == old(g).out_at(j) && g.grad_at(j) == old(g).grad_at(
                        j,
                    ),
            decreases count - k,
        {
            let v = self.variables[k];
            proof {
                assert(self.vars()[k as int] == v);
                assert(0 <= v.id() < old(g).len() && old(g).is_var(v.id()));
                assert(!(exists|t: int|
                    0 <= t < k as int && (#[trigger] self.vars()[t]).id() == v.id())) by {
                    if exists|t: int|
                        0 <= t < k as int && (#[trigger] self.vars()[t]).id() == v.id() {
                        let t = choose|t: int|
                            0 <= t < k as int && (#[trigger] self.vars()[t]).id() == v.id();
                        assert(self.vars()[t] != v);
                        self.vars()[t].lemma_id_injective(v);
                    }
                }
                g.lemma_node(v.id());
            }
            let val = g.get_value(v);
            let gr = g.get_grad(v);
            let f = &self.func;
            let newval = val.binary_operation(
                &gr,
                |a: S, b: S| -> (o: S) ensures o == f.update_s(a, b) { f.update(a, b) },
            );
            proof {
                assert(newval@ =~~= mupdate(self.func_s(), g.out_at(v.id()), g.grad_at(v.id())));
            }
            let ghost gpre = *g;
            g.update_variable(v, newval);
            proof {
                let ghost taken = self.vars().take((k + 1) as int);
                assert forall|j: int|
                    0 <= j < old(g).len() && !contains_id(taken, j) implies (
                #[trigger] g.out_at(j)) == old(g).out_at(j) && g.grad_at(j) == old(g).grad_at(
                    j,
                ) by {
                    assert(j != v.id()) by {
                        if j == v.id() {
                            assert(taken[k as int].id() == j);
                        }
                    }
                    assert(!contains_id(self.vars().take(k as int), j)) by {
                        if contains_id(self.vars().take(k as int), j) {
                            let t = choose|t: int|
                                0 <= t < k as int && (#[trigger] self.vars().take(
                                    k as int,
                                )[t]).id() == j;
                            assert(taken[t].id() == j);
                        }
                    }
                    assert(g.out_at(j) == gpre.out_at(j));
                    assert(g.grad_at(j) == gpre.grad_at(j));
                }
                assert forall|t: int|
                    0 <= t < (k + 1) as int implies (#[trigger] g.out_at(self.vars()[t].id()))
                    == mupdate(
                    self.func_s(),
                    old(g).out_at(self.vars()[t].id()),
                    old(g).grad_at(self.vars()[t].id()),
                ) && (#[trigger] g.grad_at(self.vars()[t].id())) == mfill(
                    rows(old(g).out_at(self.vars()[t].id())),
                    cols(old(g).out_at(self.vars()[t].id())),
                    S::zero_s(),
                ) by {
                    if t < k as int {
                        assert(self.vars()[t] != self.vars()[k as int]);
                        assert(self.vars()[t].id() != v.id()) by {
                            if self.vars()[t].id() == v.id() {
                                self.vars()[t].lemma_id_injective(v);
                            }
                        }
                        assert(g.out_at(self.vars()[t].id()) == gpre.out_at(self.vars()[t].id()));
                        assert(g.grad_at(self.vars()[t].id()) == gpre.grad_at(
                            self.vars()[t].id(),
                        ));
                    }
                }
            }
            k += 1;
        }
        proof {
            assert(self.vars().take(count as int) =~= self.vars());
        }
    }
}

/// Whether some handle in the sequence names node `j`.
pub open spec fn contains_id(s: Seq<OperationRef>, j: int) -> bool {
    exists|t: int| 0 <= t < s.len() && (#[trigger] s[t]).id() == j
}

/// Whether the handle is already among the registered ones.
fn has_handle(v: &Vec<OperationRef>, n: OperationRef) -> (r: bool)
    ensures
        r == v@.contains(n),
{
    let count = v.len();
    let mut k: usize = 0;
    while k < count
        invariant
            k <= count,
            count == v@.len(),
            forall|t: int| 0 <= t < k as int ==> (#[trigger] v@[t]) != n,
        decreases count - k,
    {
        if v[k] == n {
            proof {
                assert(v@[k as int] == n);
            }
            return true;
        }
        k += 1;
    }
    false
}

} // verus!
