//! The computation-graph runtime.
//!
//! Operation records live in an arena owned by a [`Graph`]; a node is
//! addressed by a stable [`OperationRef`] handle, and every record's inputs
//! have smaller indices, so the arena order is a topological order. Forward
//! evaluation ([`Graph::run`]) walks the records bottom-up and refreshes each
//! cached output. The backward sweep ([`Graph::back_delta`]) walks them
//! top-down, accumulating pending deltas at the arena level, so gradient
//! contributions that reach a node along several paths are summed, never
//! overwritten; a delta arriving at a variable is added into its persistent
//! gradient accumulator.
//!
//! The specification functions [`fwd_val`] and [`back_sweep`] name the exact
//! forward value and backward state transition, and the contracts of `run`
//! and `back_delta` are stated in terms of them.

use vstd::prelude::*;

use crate::matrix::{
    block_dot, ceil_chunks, cols, fold_add, is_grid, mtrans, reduce_seq, rows, Matrix,
};
use crate::scalar::Scalar;

verus! {

/// A handle to one node of a [`Graph`]: a stable index into its arena.
#[derive(Clone, Copy, PartialEq, Eq, Structural)]
pub struct OperationRef {
    idx: usize,
}

impl OperationRef {
    /// The arena index this handle stands for.
    pub closed spec fn id(&self) -> int {
        self.idx as int
    }

    /// Handles are nothing but their indices: equal index, equal handle.
    pub proof fn lemma_id_injective(self, other: OperationRef)
        requires
            self.id() == other.id(),
        ensures
            self == other,
    {
    }
}

/// The operation a node performs, with the handles of its inputs. The three
/// leaf kinds hold no inputs: a `Constant` keeps a fixed matrix, a
/// `Placeholder` a swappable one, and a `Variable` a trainable one with a
/// gradient accumulator.
#[derive(Clone, Copy)]
pub enum Op<S: Scalar> {
    Constant,
    Placeholder,
    Variable,
    Add(usize, usize),
    Mul(usize, usize),
    MatMul(usize, usize),
    Times(usize, S),
    Pow(usize, u32),
    Sum(usize),
    Mean(usize),
    Transpose(usize),
    Sigmoid(usize),
    Relu(usize),
    LeakyRelu(usize, S),
}

struct NodeRec<S: Scalar> {
    op: Op<S>,
    out: Matrix<S>,
    grad: Option<Matrix<S>>,
}

/// The arena of operation records.
pub struct Graph<S: Scalar> {
    nodes: Vec<NodeRec<S>>,
}

/// An arena never holds a negative number of nodes.
pub broadcast proof fn lemma_len_nonneg<S: Scalar>(g: Graph<S>)
    ensures
        #[trigger] g.len() >= 0,
{
}

/// A grid built from a cell formula.
pub open spec fn grid_of<S>(h: int, w: int, f: spec_fn(int, int) -> S) -> Seq<Seq<S>> {
    Seq::new(h as nat, |y: int| Seq::new(w as nat, |x: int| f(y, x)))
}

/// Elementwise sum of two grids.
pub open spec fn madd<S: Scalar>(a: Seq<Seq<S>>, b: Seq<Seq<S>>) -> Seq<Seq<S>> {
    grid_of(rows(a), cols(a), |y: int, x: int| S::add_s(a[y][x], b[y][x]))
}

/// Elementwise product of two grids.
pub open spec fn mmul<S: Scalar>(a: Seq<Seq<S>>, b: Seq<Seq<S>>) -> Seq<Seq<S>> {
    grid_of(rows(a), cols(a), |y: int, x: int| S::mul_s(a[y][x], b[y][x]))
}

/// The blocked matrix product of two grids, cell by cell.
pub open spec fn mmatmul<S: Scalar>(a: Seq<Seq<S>>, b: Seq<Seq<S>>) -> Seq<Seq<S>> {
    grid_of(rows(a), cols(b), |y: int, x: int| block_dot(a, b, y, x, ceil_chunks(cols(a)) as nat))
}

/// Every cell scaled from the left by `k`.
pub open spec fn mscale<S: Scalar>(k: S, a: Seq<Seq<S>>) -> Seq<Seq<S>> {
    grid_of(rows(a), cols(a), |y: int, x: int| S::mul_s(k, a[y][x]))
}

/// A scalar raised to a natural power by repeated multiplication from one.
pub open spec fn pow_s<S: Scalar>(v: S, p: nat) -> S
    decreases p,
{
    if p == 0 {
        S::one_s()
    } else {
        S::mul_s(pow_s(v, (p - 1) as nat), v)
    }
}

/// Every cell raised to the power `p`.
pub open spec fn mpow<S: Scalar>(a: Seq<Seq<S>>, p: nat) -> Seq<Seq<S>> {
    grid_of(rows(a), cols(a), |y: int, x: int| pow_s(a[y][x], p))
}

/// The sigmoid of every cell.
pub open spec fn msigmoid<S: Scalar>(a: Seq<Seq<S>>) -> Seq<Seq<S>> {
    grid_of(rows(a), cols(a), |y: int, x: int| S::sigmoid_s(a[y][x]))
}

/// Relu: a positive cell passes, any other becomes zero.
pub open spec fn mrelu<S: Scalar>(a: Seq<Seq<S>>) -> Seq<Seq<S>> {
    grid_of(
        rows(a),
        cols(a),
        |y: int, x: int|
            if S::is_pos_s(a[y][x]) {
                a[y][x]
            } else {
                S::zero_s()
            },
    )
}

/// Leaky relu: a negative cell is scaled by `slope`, any other passes.
pub open spec fn mleaky<S: Scalar>(a: Seq<Seq<S>>, slope: S) -> Seq<Seq<S>> {
    grid_of(
        rows(a),
        cols(a),
        |y: int, x: int|
            if S::is_neg_s(a[y][x]) {
                S::mul_s(a[y][x], slope)
            } else {
                a[y][x]
            },
    )
}

/// The one-by-one grid holding the reduction of all cells.
pub open spec fn msum<S: Scalar>(a: Seq<Seq<S>>) -> Seq<Seq<S>> {
    grid_of(1, 1, |y: int, x: int| fold_add(reduce_seq(a, rows(a), cols(a))))
}

/// The one-by-one grid holding the reduction divided by the cell count.
pub open spec fn mmean<S: Scalar>(a: Seq<Seq<S>>) -> Seq<Seq<S>> {
    grid_of(
        1,
        1,
        |y: int, x: int| S::divn_s(fold_add(reduce_seq(a, rows(a), cols(a))), rows(a) * cols(a)),
    )
}

/// A grid of `h` by `w` copies of one value.
pub open spec fn mfill<S: Scalar>(h: int, w: int, v: S) -> Seq<Seq<S>> {
    grid_of(h, w, |y: int, x: int| v)
}

impl<S: Scalar> Graph<S> {
    /// Number of nodes in the arena.
    pub closed spec fn len(&self) -> int {
        self.nodes@.len() as int
    }

    /// The operation of node `i`.
    pub closed spec fn op_at(&self, i: int) -> Op<S> {
        self.nodes@[i].op
    }

    /// The cached forward output of node `i`; for a leaf, its held matrix.
    pub closed spec fn out_at(&self, i: int) -> Seq<Seq<S>> {
        self.nodes@[i].out@
    }

    /// The gradient accumulator of a variable node; the empty grid for any
    /// other node.
    pub closed spec fn grad_at(&self, i: int) -> Seq<Seq<S>> {
        match self.nodes@[i].grad {
            Some(m) => m@,
            None => Seq::empty(),
        }
    }

    /// Whether node `i` is a variable.
    pub open spec fn is_var(&self, i: int) -> bool {
        self.op_at(i) matches Op::Variable
    }

    /// The shape discipline of node `i`: inputs strictly below it in the
    /// arena, operand shapes compatible, and the cached output of the shape
    /// the operation produces.
    pub open spec fn node_ok(&self, i: int) -> bool {
        match self.op_at(i) {
            Op::Constant => true,
            Op::Placeholder => true,
            Op::Variable => true,
            Op::Add(l, r) => {
                &&& 0 <= l < i
                &&& 0 <= r < i
                &&& rows(self.out_at(l as int)) == rows(self.out_at(r as int))
                &&& cols(self.out_at(l as int)) == cols(self.out_at(r as int))
                &&& rows(self.out_at(i)) == rows(self.out_at(l as int))
                &&& cols(self.out_at(i)) == cols(self.out_at(l as int))
            },
            Op::Mul(l, r) => {
                &&& 0 <= l < i
                &&& 0 <= r < i
                &&& rows(self.out_at(l as int)) == rows(self.out_at(r as int))
                &&& cols(self.out_at(l as int)) == cols(self.out_at(r as int))
                &&& rows(self.out_at(i)) == rows(self.out_at(l as int))
                &&& cols(self.out_at(i)) == cols(self.out_at(l as int))
            },
            Op::MatMul(l, r) => {
                &&& 0 <= l < i
                &&& 0 <= r < i
                &&& cols(self.out_at(l as int)) == rows(self.out_at(r as int))
                &&& rows(self.out_at(i)) == rows(self.out_at(l as int))
                &&& cols(self.out_at(i)) == cols(self.out_at(r as int))
                &&& rows(self.out_at(l as int)) * cols(self.out_at(r as int)) <= usize::MAX as int
            },
            Op::Times(j, k) => {
                &&& 0 <= j < i
                &&& rows(self.out_at(i)) == rows(self.out_at(j as int))
                &&& cols(self.out_at(i)) == cols(self.out_at(j as int))
            },
            Op::Pow(j, p) => {
                &&& 0 <= j < i
                &&& rows(self.out_at(i)) == rows(self.out_at(j as int))
                &&& cols(self.out_at(i)) == cols(self.out_at(j as int))
            },
            Op::Sum(j) => {
                &&& 0 <= j < i
                &&& rows(self.out_at(i)) == 1
                &&& cols(self.out_at(i)) == 1
            },
            Op::Mean(j) => {
                &&& 0 <= j < i
                &&& rows(self.out_at(i)) == 1
                &&& cols(self.out_at(i)) == 1
            },
            Op::Transpose(j) => {
                &&& 0 <= j < i
                &&& rows(self.out_at(i)) == cols(self.out_at(j as int))
                &&& cols(self.out_at(i)) == rows(self.out_at(j as int))
            },
            Op::Sigmoid(j) => {
                &&& 0 <= j < i
                &&& rows(self.out_at(i)) == rows(self.out_at(j as int))
                &&& cols(self.out_at(i)) == cols(self.out_at(j as int))
            },
            Op::Relu(j) => {
                &&& 0 <= j < i
                &&& rows(self.out_at(i)) == rows(self.out_at(j as int))
                &&& cols(self.out_at(i)) == cols(self.out_at(j as int))
            },
            Op::LeakyRelu(j, slope) => {
                &&& 0 <= j < i
                &&& rows(self.out_at(i)) == rows(self.out_at(j as int))
                &&& cols(self.out_at(i)) == cols(self.out_at(j as int))
            },
        }
    }

    /// Well-formedness of the whole arena: every record holds a well-formed
    /// output matrix, respects the shape discipline, and exactly the
    /// variables carry a gradient accumulator of their own shape.
    pub closed spec fn wf(&self) -> bool {
        forall|i: int|
            0 <= i < self.len() ==> {
                &&& (#[trigger] self.nodes@[i]).out.wf()
                &&& self.node_ok(i)
                &&& match self.nodes@[i].op {
                    Op::Variable => {
                        &&& self.nodes@[i].grad is Some
                        &&& self.nodes@[i].grad.unwrap().wf()
                        &&& rows(self.grad_at(i)) == rows(self.out_at(i))
                        &&& cols(self.grad_at(i)) == cols(self.out_at(i))
                    },
                    _ => self.nodes@[i].grad is None,
                }
            }
    }

    /// Facts a caller may use about one well-formed node.
    pub proof fn lemma_node(&self, i: int)
        requires
            self.wf(),
            0 <= i < self.len(),
        ensures
            self.node_ok(i),
            is_grid(self.out_at(i), rows(self.out_at(i)), cols(self.out_at(i))),
            1 <= rows(self.out_at(i)),
            1 <= cols(self.out_at(i)),
            rows(self.out_at(i)) * cols(self.out_at(i)) <= usize::MAX as int,
            self.is_var(i) ==> {
                &&& is_grid(self.grad_at(i), rows(self.out_at(i)), cols(self.out_at(i)))
            },
    {
        self.nodes@[i].out.lemma_grid();
        if self.is_var(i) {
            self.nodes@[i].grad.unwrap().lemma_grid();
        }
    }

    /// An empty graph.
    pub fn new() -> (g: Graph<S>)
        ensures
            g.wf(),
            g.len() == 0,
    {
        Graph { nodes: Vec::new() }
    }

    /// Whether the handle names a variable node.
    pub fn is_variable(&self, n: OperationRef) -> (r: bool)
        requires
            0 <= n.id() < self.len(),
        ensures
            r == self.is_var(n.id()),
    {
        match self.nodes[n.idx].op {
            Op::Variable => true,
            _ => false,
        }
    }

    /// A copy of the node's cached output.
    pub fn get_value(&self, n: OperationRef) -> (r: Matrix<S>)
        requires
            self.wf(),
            0 <= n.id() < self.len(),
        ensures
            r.wf(),
            r@ == self.out_at(n.id()),
    {
        self.nodes[n.idx].out.duplicate()
    }

    /// A copy of a variable's gradient accumulator.
    pub fn get_grad(&self, n: OperationRef) -> (r: Matrix<S>)
        requires
            self.wf(),
            0 <= n.id() < self.len(),
            self.is_var(n.id()),
        ensures
            r.wf(),
            r@ == self.grad_at(n.id()),
    {
        match &self.nodes[n.idx].grad {
            Some(m) => m.duplicate(),
            None => {
                proof {
                    // a well-formed variable always carries an accumulator
                    assert(false);
                }
                self.nodes[n.idx].out.duplicate()
            },
        }
    }

    /// Adds a constant leaf: a fixed matrix through which no gradient
    /// flows.
    pub fn constant(&mut self, value: Matrix<S>) -> (n: OperationRef)
        requires
            old(self).wf(),
            value.wf(),
            old(self).len() < usize::MAX as int,
        ensures
            final(self).wf(),
            final(self).len() == old(self).len() + 1,
            n.id() == old(self).len(),
            final(self).op_at(n.id()) == Op::<S>::Constant,
            final(self).out_at(n.id()) == value@,
            unchanged_prefix(*old(self), *final(self), old(self).len()),
    {
        let idx = self.nodes.len();
        self.nodes.push(NodeRec { op: Op::Constant, out: value, grad: None });
        OperationRef { idx }
    }

    /// Adds a placeholder leaf: like a constant, but its matrix can be
    /// swapped between forward passes.
    pub fn placeholder(&mut self, value: Matrix<S>) -> (n: OperationRef)
        requires
            old(self).wf(),
            value.wf(),
            old(self).len() < usize::MAX as int,
        ensures
            final(self).wf(),
            final(self).len() == old(self).len() + 1,
            n.id() == old(self).len(),
            final(self).op_at(n.id()) == Op::<S>::Placeholder,
            final(self).out_at(n.id()) == value@,
            unchanged_prefix(*old(self), *final(self), old(self).len()),
    {
        let idx = self.nodes.len();
        self.nodes.push(NodeRec { op: Op::Placeholder, out: value, grad: None });
        OperationRef { idx }
    }

    /// Adds a variable leaf: a trainable matrix with a gradient accumulator
    /// that starts at zero.
    pub fn variable(&mut self, value: Matrix<S>) -> (n: OperationRef)
        requires
            old(self).wf(),
            value.wf(),
            old(self).len() < usize::MAX as int,
        ensures
            final(self).wf(),
            final(self).len() == old(self).len() + 1,
            n.id() == old(self).len(),
            final(self).op_at(n.id()) == Op::<S>::Variable,
            final(self).out_at(n.id()) == value@,
            final(self).grad_at(n.id()) == mfill(rows(value@), cols(value@), S::zero_s()),
            unchanged_prefix(*old(self), *final(self), old(self).len()),
    {
        proof {
            value.lemma_grid();
        }
        let idx = self.nodes.len();
        let h = value.height();
        let w = value.width();
        let grad = Matrix::new_zero(h, w);
        proof {
            assert(grad@ =~~= mfill(rows(value@), cols(value@), S::zero_s()));
        }
        self.nodes.push(NodeRec { op: Op::Variable, out: value, grad: Some(grad) });
        OperationRef { idx }
    }

    /// Evaluates one non-leaf operation over the current cached outputs of
    /// its inputs.
    fn compute_fwd(&self, op: Op<S>) -> (m: Matrix<S>)
        requires
            self.wf(),
            op_inputs_ok(*self, op, self.len()),
        ensures
            m.wf(),
            m@ == fwd_of(*self, op),
    {
        proof {
            reveal(fwd_of);
        }
        match op {
            Op::Constant => Matrix::new_zero(1, 1),
            Op::Placeholder => Matrix::new_zero(1, 1),
            Op::Variable => Matrix::new_zero(1, 1),
            Op::Add(l, r) => {
                proof {
                    self.lemma_node(l as int);
                    self.lemma_node(r as int);
                }
                let m = self.nodes[l].out.binary_operation(
                    &self.nodes[r].out,
                    |a: S, b: S| -> (o: S) ensures o == S::add_s(a, b) { a.add(b) },
                );
                proof {
                    assert(m@ =~~= madd(self.out_at(l as int), self.out_at(r as int)));
                }
                m
            },
            Op::Mul(l, r) => {
                proof {
                    self.lemma_node(l as int);
                    self.lemma_node(r as int);
                }
                let m = self.nodes[l].out.binary_operation(
                    &self.nodes[r].out,
                    |a: S, b: S| -> (o: S) ensures o == S::mul_s(a, b) { a.mul(b) },
                );
                proof {
                    assert(m@ =~~= mmul(self.out_at(l as int), self.out_at(r as int)));
                }
                m
            },
            Op::MatMul(l, r) => {
                proof {
                    self.lemma_node(l as int);
                    self.lemma_node(r as int);
                }
                let m = self.nodes[l].out.matmul(&self.nodes[r].out);
                proof {
                    assert(m@ =~~= mmatmul(self.out_at(l as int), self.out_at(r as int)));
                }
                m
            },
            Op::Times(j, k) => {
                proof {
                    self.lemma_node(j as int);
                }
                let m = self.nodes[j].out.unary_operation(
                    |v: S| -> (o: S) ensures o == S::mul_s(k, v) { k.mul(v) },
                );
                proof {
                    assert(m@ =~~= mscale(k, self.out_at(j as int)));
                }
                m
            },
            Op::Pow(j, p) => {
                proof {
                    self.lemma_node(j as int);
                }
                let m = self.nodes[j].out.unary_operation(
                    |v: S| -> (o: S) ensures o == pow_s(v, p as nat) { pow_exec(v, p) },
                );
                proof {
                    assert(m@ =~~= mpow(self.out_at(j as int), p as nat));
                }
                m
            },
            Op::Sum(j) => {
                proof {
                    self.lemma_node(j as int);
                }
                let m = self.nodes[j].out.sum();
                proof {
                    assert(m@ =~~= msum(self.out_at(j as int)));
                }
                m
            },
            Op::Mean(j) => {
                proof {
                    self.lemma_node(j as int);
                }
                let a = &self.nodes[j].out;
                let s = a.sum();
                let v00 = s.get(0, 0);
                let count = a.height() * a.width();
                proof {
                    assert(count >= 1) by (nonlinear_arith)
                        requires
                            count as int == rows(a@) * cols(a@),
                            rows(a@) >= 1,
                            cols(a@) >= 1,
                    ;
                }
                let q = v00.divn(count);
                let m = Matrix::new_value(1, 1, q);
                proof {
                    assert(m@ =~~= mmean(self.out_at(j as int)));
                }
                m
            },
            Op::Transpose(j) => {
                proof {
                    self.lemma_node(j as int);
                }
                self.nodes[j].out.transpose()
            },
            Op::Sigmoid(j) => {
                proof {
                    self.lemma_node(j as int);
                }
                let m = self.nodes[j].out.unary_operation(
                    |v: S| -> (o: S) ensures o == S::sigmoid_s(v) { v.sigmoid() },
                );
                proof {
                    assert(m@ =~~= msigmoid(self.out_at(j as int)));
                }
                m
            },
            Op::Relu(j) => {
                proof {
                    self.lemma_node(j as int);
                }
                let m = self.nodes[j].out.unary_operation(
                    |v: S| -> (o: S) ensures o == (if S::is_pos_s(v) { v } else { S::zero_s() }) { if v.is_pos() { v } else { S::zero() } },
                );
                proof {
                    assert(m@ =~~= mrelu(self.out_at(j as int)));
                }
                m
            },
            Op::LeakyRelu(j, slope) => {
                proof {
                    self.lemma_node(j as int);
                }
                let m = self.nodes[j].out.unary_operation(
                    |v: S| -> (o: S) ensures o == (if S::is_neg_s(v) { S::mul_s(v, slope) } else { v }) { if v.is_neg() { v.mul(slope) } else { v } },
                );
                proof {
                    assert(m@ =~~= mleaky(self.out_at(j as int), slope));
                }
                m
            },
        }
    }

    /// Appends an operation record whose cached output is already the value
    /// of its kernel.
    fn push_node(&mut self, op: Op<S>, out: Matrix<S>) -> (n: OperationRef)
        requires
            old(self).wf(),
            out.wf(),
            old(self).len() < usize::MAX as int,
            op_inputs_ok(*old(self), op, old(self).len()),
            out@ == fwd_of(*old(self), op),
        ensures
            final(self).wf(),
            final(self).len() == old(self).len() + 1,
            n.id() == old(self).len(),
            final(self).op_at(n.id()) == op,
            final(self).out_at(n.id()) == out@,
            !final(self).is_var(n.id()),
            final(self).grad_at(n.id()) == Seq::<Seq<S>>::empty(),
            unchanged_prefix(*old(self), *final(self), old(self).len()),
    {
        proof {
            match op {
                Op::Add(l, r) => {
                    self.lemma_node(l as int);
                    self.lemma_node(r as int);
                },
                Op::Mul(l, r) => {
                    self.lemma_node(l as int);
                    self.lemma_node(r as int);
                },
                Op::MatMul(l, r) => {
                    self.lemma_node(l as int);
                    self.lemma_node(r as int);
                },
                Op::Times(j, k) => self.lemma_node(j as int),
                Op::Pow(j, p) => self.lemma_node(j as int),
                Op::Sum(j) => self.lemma_node(j as int),
                Op::Mean(j) => self.lemma_node(j as int),
                Op::Transpose(j) => self.lemma_node(j as int),
                Op::Sigmoid(j) => self.lemma_node(j as int),
                Op::Relu(j) => self.lemma_node(j as int),
                Op::LeakyRelu(j, slope) => self.lemma_node(j as int),
                _ => (),
            }
        }
        let idx = self.nodes.len();
        self.nodes.push(NodeRec { op, out, grad: None });
        proof {
            reveal(fwd_of);
            assert forall|i: int| 0 <= i < self.len() implies {
                &&& (#[trigger] self.nodes@[i]).out.wf()
                &&& self.node_ok(i)
            } by {
                if i < idx as int {
                    assert(old(self).node_ok(i));
                }
            }
        }
        OperationRef { idx }
    }

    /// Replaces the cached output of node `i` with a freshly computed one
    /// of the same shape.
    fn replace_out(&mut self, i: usize, m: Matrix<S>)
        requires
            old(self).wf(),
            (i as int) < old(self).len(),
            m.wf(),
            rows(m@) == rows(old(self).out_at(i as int)),
            cols(m@) == cols(old(self).out_at(i as int)),
        ensures
            final(self).wf(),
            final(self).len() == old(self).len(),
            final(self).out_at(i as int) == m@,
            final(self).op_at(i as int) == old(self).op_at(i as int),
            final(self).grad_at(i as int) == old(self).grad_at(i as int),
            (final(self).is_var(i as int) <==> old(self).is_var(i as int)),
            forall|j: int|
                0 <= j < old(self).len() && j != i as int ==> (#[trigger] final(self).out_at(j))
                    == old(self).out_at(j),
            forall|j: int|
                0 <= j < old(self).len() ==> (#[trigger] final(self).op_at(j)) == old(
                    self,
                ).op_at(j),
            forall|j: int|
                0 <= j < old(self).len() ==> (#[trigger] final(self).grad_at(j)) == old(
                    self,
                ).grad_at(j),
    {
        let rec = self.nodes.remove(i);
        self.nodes.insert(i, NodeRec { op: rec.op, out: m, grad: rec.grad });
        proof {
            assert forall|j: int|
                0 <= j < old(self).len() && j != i as int implies (#[trigger] self.out_at(j))
                == old(self).out_at(j) by {
                assert(self.nodes@[j] == old(self).nodes@[j]);
            }
            assert forall|j: int|
                0 <= j < old(self).len() implies (#[trigger] self.op_at(j)) == old(self).op_at(
                j,
            ) && (#[trigger] self.grad_at(j)) == old(self).grad_at(j) by {
                if j != i as int {
                    assert(self.nodes@[j] == old(self).nodes@[j]);
                }
            }
            assert forall|j: int| 0 <= j < self.len() implies self.node_ok(j) by {
                assert(old(self).node_ok(j));
            }
        }
    }

    /// One forward pass: refreshes the cached output of every node up to
    /// and including the root, inputs before consumers. Leaves keep their
    /// held matrices, gradients are untouched, and nodes above the root are
    /// left alone.
    #[verifier::rlimit(100)]
    #[verifier::spinoff_prover]
    pub fn run(&mut self, root: OperationRef)
        requires
            old(self).wf(),
            0 <= root.id() < old(self).len(),
        ensures
            final(self).wf(),
            final(self).len() == old(self).len(),
            forall|j: int|
                0 <= j < old(self).len() ==> {
                    &&& final(self).op_at(j) == old(self).op_at(j)
                    &&& final(self).grad_at(j) == old(self).grad_at(j)
                    &&& (final(self).is_var(j) <==> old(self).is_var(j))
                },
            forall|j: int|
                root.id() < j < old(self).len() ==> final(self).out_at(j) == old(self).out_at(j),
            forall|j: int|
                0 <= j <= root.id() && is_leaf(old(self).op_at(j)) ==> final(self).out_at(j)
                    == old(self).out_at(j),
            forall|j: int|
                0 <= j <= root.id() ==> final(self).out_at(j) == fwd_val(*final(self), j),
    {
        let end = root.idx;
        proof {
            vstd::std_specs::vec::axiom_spec_len(&self.nodes);
        }
        let mut i: usize = 0;
        while i <= end
            invariant
                self.wf(),
                self.len() == old(self).len(),
                self.len() <= usize::MAX as int,
                (end as int) == root.id(),
                root.id() < self.len(),
                i <= end + 1,
                forall|j: int|
                    0 <= j < old(self).len() ==> {
                        &&& self.op_at(j) == old(self).op_at(j)
                        &&& self.grad_at(j) == old(self).grad_at(j)
                        &&& (self.is_var(j) <==> old(self).is_var(j))
                    },
                forall|j: int|
                    i as int <= j < old(self).len() ==> self.out_at(j) == old(self).out_at(j),
                forall|j: int|
                    0 <= j < i as int && is_leaf(old(self).op_at(j)) ==> self.out_at(j) == old(
                        self,
                    ).out_at(j),
                forall|j: int| 0 <= j < i as int ==> self.out_at(j) == fwd_val(*self, j),
            decreases end + 1 - i,
        {
            let ghost pre = *self;
            let op = self.nodes[i].op;
            proof {
                assert(self.node_ok(i as int));
                if !is_leaf(op) {
                    assert(op_inputs_ok(*self, op, self.len()));
                }
                match op {
                    Op::Add(l, r) => self.lemma_node(l as int),
                    Op::Mul(l, r) => self.lemma_node(l as int),
                    Op::MatMul(l, r) => {
                        self.lemma_node(l as int);
                        self.lemma_node(r as int);
                    },
                    Op::Times(j, k) => self.lemma_node(j as int),
                    Op::Pow(j, p) => self.lemma_node(j as int),
                    Op::Sum(j) => self.lemma_node(j as int),
                    Op::Mean(j) => self.lemma_node(j as int),
                    Op::Transpose(j) => self.lemma_node(j as int),
                    Op::Sigmoid(j) => self.lemma_node(j as int),
                    Op::Relu(j) => self.lemma_node(j as int),
                    Op::LeakyRelu(j, slope) => self.lemma_node(j as int),
                    _ => (),
                }
            }
            let m = match op {
                Op::Constant => self.nodes[i].out.duplicate(),
                Op::Placeholder => self.nodes[i].out.duplicate(),
                Op::Variable => self.nodes[i].out.duplicate(),
                _ => self.compute_fwd(op),
            };
            proof {
                reveal(fwd_of);
                if is_leaf(op) {
                    assert(m@ == pre.out_at(i as int));
                } else {
                    assert(m@ == fwd_of(pre, op));
                }
            }
            self.replace_out(i, m);
            proof {
                assert forall|j: int| 0 <= j < (i + 1) as int implies self.out_at(j) == fwd_val(
                    *self,
                    j,
                ) by {
                    let op_j = self.op_at(j);
                    if is_leaf(op_j) {
                        assert(self.out_at(j) == pre.out_at(j));
                    } else {
                        assert(pre.node_ok(j));
                        assert(op_inputs_ok(pre, op_j, j));
                        lemma_fwd_of_same(pre, *self, op_j, j);
                        if j < i as int {
                            assert(pre.out_at(j) == fwd_of(pre, op_j));
                        } else {
                            assert(self.out_at(j) == fwd_of(pre, op_j));
                        }
                    }
                }
            }
            i += 1;
        }
    }
    /// Adds a delta into a variable's gradient accumulator.
    #[verifier::rlimit(60)]
    #[verifier::spinoff_prover]
    fn accum_grad(&mut self, i: usize, d: &Matrix<S>)
        requires
            old(self).wf(),
            (i as int) < old(self).len(),
            old(self).is_var(i as int),
            d.wf(),
            rows(d@) == rows(old(self).out_at(i as int)),
            cols(d@) == cols(old(self).out_at(i as int)),
        ensures
            final(self).wf(),
            final(self).len() == old(self).len(),
            final(self).grad_at(i as int) == madd(old(self).grad_at(i as int), d@),
            forall|j: int|
                0 <= j < old(self).len() ==> (#[trigger] final(self).op_at(j)) == old(
                    self,
                ).op_at(j),
            forall|j: int|
                0 <= j < old(self).len() ==> (#[trigger] final(self).out_at(j)) == old(
                    self,
                ).out_at(j),
            forall|j: int|
                0 <= j < old(self).len() && j != i as int ==> (#[trigger] final(self).grad_at(j))
                    == old(self).grad_at(j),
    {
        proof {
            self.lemma_node(i as int);
        }
        let rec = self.nodes.remove(i);
        let rec2 = match rec.grad {
            Some(gm) => {
                let ng = gm.binary_operation(
                    d,
                    |a: S, b: S| -> (o: S) ensures o == S::add_s(a, b) { a.add(b) },
                );
                proof {
                    assert(ng@ =~~= madd(old(self).grad_at(i as int), d@));
                }
                NodeRec { op: rec.op, out: rec.out, grad: Some(ng) }
            },
            None => {
                proof {
                    // a well-formed variable always carries an accumulator
                    assert(false);
                }
                NodeRec { op: rec.op, out: rec.out, grad: None }
            },
        };
        self.nodes.insert(i, rec2);
        proof {
            assert forall|j: int|
                0 <= j < old(self).len() && j != i as int implies (#[trigger] self.op_at(j)) == old(
                self,
            ).op_at(j) && (#[trigger] self.out_at(j)) == old(self).out_at(j) && (
            #[trigger] self.grad_at(j)) == old(self).grad_at(j) by {
                assert(self.nodes@[j] == old(self).nodes@[j]);
            }
            assert forall|j: int| 0 <= j < self.len() implies self.node_ok(j) by {
                assert(old(self).node_ok(j));
            }
        }
    }

    /// The backward sweep from `root`, seeded with `delta`. Pending deltas
    /// flow down the arena through each node's backward kernel; several
    /// deltas meeting at one node are summed before that node is processed,
    /// and a delta reaching a variable is added into its accumulator.
    /// `back_sweep` names the resulting gradient state exactly; cached
    /// outputs and operations are untouched.
    #[verifier::rlimit(100)]
    #[verifier::spinoff_prover]
    pub fn back_delta(&mut self, root: OperationRef, delta: Matrix<S>)
        requires
            old(self).wf(),
            0 <= root.id() < old(self).len(),
            delta.wf(),
            rows(delta@) == rows(old(self).out_at(root.id())),
            cols(delta@) == cols(old(self).out_at(root.id())),
        ensures
            final(self).wf(),
            final(self).len() == old(self).len(),
            forall|j: int|
                0 <= j < old(self).len() ==> (#[trigger] final(self).op_at(j)) == old(
                    self,
                ).op_at(j),
            forall|j: int|
                0 <= j < old(self).len() ==> (#[trigger] final(self).out_at(j)) == old(
                    self,
                ).out_at(j),
            grads_view(*final(self)) == back_sweep(
                *old(self),
                init_pend(*old(self), root.id(), delta@),
                grads_view(*old(self)),
                root.id(),
            ).1,
    {
        proof {
            vstd::std_specs::vec::axiom_spec_len(&self.nodes);
        }
        let ghost g0 = *self;
        let n = self.nodes.len();
        let mut pend: Vec<Option<Matrix<S>>> = Vec::new();
        let mut k: usize = 0;
        while k < n
            invariant
                pend@.len() == k as int,
                k <= n,
                forall|j: int| 0 <= j < k as int ==> (#[trigger] pend@[j]) is None,
            decreases n - k,
        {
            pend.push(None);
            k += 1;
        }
        pend.set(root.idx, Some(delta));
        proof {
            assert(pend_view(pend@) =~= init_pend(g0, root.id(), delta@));
        }
        let ghost goal = back_sweep(
            g0,
            init_pend(g0, root.id(), delta@),
            grads_view(g0),
            root.id(),
        );
        let mut i: usize = root.idx + 1;
        while i > 0
            invariant
                self.wf(),
                self.len() == g0.len(),
                g0.wf(),
                g0 == *old(self),
                i as int <= g0.len(),
                pend@.len() == g0.len(),
                forall|j: int|
                    0 <= j < pend@.len() ==> match #[trigger] pend@[j] {
                        Some(m) => m.wf() && rows(m@) == rows(g0.out_at(j)) && cols(m@) == cols(
                            g0.out_at(j),
                        ),
                        None => true,
                    },
                back_sweep(g0, pend_view(pend@), grads_view(*self), i as int - 1) == goal,
                forall|j: int| 0 <= j < g0.len() ==> (#[trigger] self.op_at(j)) == g0.op_at(j),
                forall|j: int| 0 <= j < g0.len() ==> (#[trigger] self.out_at(j)) == g0.out_at(j),
            decreases i,
        {
            i -= 1;
            let ghost st_pend = pend_view(pend@);
            let ghost st_grads = grads_view(*self);
            let dm: Option<Matrix<S>> = match &pend[i] {
                None => None,
                Some(m) => Some(m.duplicate()),
            };
            match dm {
                None => {
                    proof {
                        assert(st_pend[i as int] is None);
                        assert(back_step(g0, st_pend, st_grads, i as int) == (st_pend, st_grads));
                    }
                },
                Some(d) => {
                    proof {
                        assert(st_pend[i as int] == Some(d@));
                        assert(self.node_ok(i as int));
                        assert(g0.node_ok(i as int));
                    }
                    let op = self.nodes[i].op;
                    match op {
                        Op::Constant => (),
                        Op::Placeholder => (),
                        Op::Variable => {
                            self.accum_grad(i, &d);
                            proof {
                                assert(grads_view(*self) =~~= st_grads.update(
                                    i as int,
                                    madd(st_grads[i as int], d@),
                                ));
                            }
                        },
                        Op::Add(l, r) => {
                            proof {
                                g0.lemma_node(l as int);
                                g0.lemma_node(r as int);
                                reveal(bwd_first);
                                reveal(bwd_second);
                            }
                            let dl = d.duplicate();
                            accum_pend(&mut pend, l, dl);
                            accum_pend(&mut pend, r, d);
                        },
                        Op::Mul(l, r) => {
                            proof {
                                g0.lemma_node(l as int);
                                g0.lemma_node(r as int);
                                reveal(bwd_first);
                                reveal(bwd_second);
                            }
                            let dl = d.binary_operation(
                                &self.nodes[r].out,
                                |a: S, b: S| -> (o: S) ensures o == S::mul_s(a, b) { a.mul(b) },
                            );
                            let dr = d.binary_operation(
                                &self.nodes[l].out,
                                |a: S, b: S| -> (o: S) ensures o == S::mul_s(a, b) { a.mul(b) },
                            );
                            proof {
                                assert(dl@ =~~= bwd_first(g0, op, d@));
                                assert(dr@ =~~= bwd_second(g0, op, d@));
                            }
                            accum_pend(&mut pend, l, dl);
                            accum_pend(&mut pend, r, dr);
                        },
                        Op::MatMul(l, r) => {
                            proof {
                                g0.lemma_node(l as int);
                                g0.lemma_node(r as int);
                                reveal(bwd_first);
                                reveal(bwd_second);
                            }
                            let tr = self.nodes[r].out.transpose();
                            let dl = d.matmul(&tr);
                            let tl = self.nodes[l].out.transpose();
                            let dr = tl.matmul(&d);
                            proof {
                                assert(dl@ =~~= bwd_first(g0, op, d@));
                                assert(dr@ =~~= bwd_second(g0, op, d@));
                            }
                            accum_pend(&mut pend, l, dl);
                            accum_pend(&mut pend, r, dr);
                        },
                        Op::Times(j, kv) => {
                            proof {
                                g0.lemma_node(j as int);
                                reveal(bwd_first);
                            }
                            let dd = d.unary_operation(
                                |v: S| -> (o: S) ensures o == S::mul_s(kv, v) { kv.mul(v) },
                            );
                            proof {
                                assert(dd@ =~~= bwd_first(g0, op, d@));
                            }
                            accum_pend(&mut pend, j, dd);
                        },
                        Op::Pow(j, p) => {
                            proof {
                                g0.lemma_node(j as int);
                                reveal(bwd_first);
                            }
                            let e: u32 = if p == 0 {
                                0
                            } else {
                                p - 1
                            };
                            let coeff = self.nodes[j].out.unary_operation(
                                |v: S| -> (o: S) ensures o == S::mul_s(S::from_n_s(p as int), pow_s(v, pow_pred(p as nat))) { S::from_n(p as usize).mul(pow_exec(v, e)) },
                            );
                            let dd = coeff.binary_operation(
                                &d,
                                |a: S, b: S| -> (o: S) ensures o == S::mul_s(a, b) { a.mul(b) },
                            );
                            proof {
                                assert(dd@ =~~= bwd_first(g0, op, d@));
                            }
                            accum_pend(&mut pend, j, dd);
                        },
                        Op::Sum(j) => {
                            proof {
                                g0.lemma_node(j as int);
                                reveal(bwd_first);
                            }
                            let d00 = d.get(0, 0);
                            proof {
                                self.lemma_node(j as int);
                                assert(self.out_at(j as int) == g0.out_at(j as int));
                            }
                            let h = self.nodes[j].out.height();
                            let w = self.nodes[j].out.width();
                            let dd = Matrix::new_value(h, w, d00);
                            proof {
                                assert(dd@ =~~= bwd_first(g0, op, d@));
                            }
                            accum_pend(&mut pend, j, dd);
                        },
                        Op::Mean(j) => {
                            proof {
                                g0.lemma_node(j as int);
                                reveal(bwd_first);
                            }
                            let d00 = d.get(0, 0);
                            proof {
                                self.lemma_node(j as int);
                                assert(self.out_at(j as int) == g0.out_at(j as int));
                            }
                            let h = self.nodes[j].out.height();
                            let w = self.nodes[j].out.width();
                            let count = h * w;
                            proof {
                                assert(count >= 1) by (nonlinear_arith)
                                    requires
                                        count as int == rows(g0.out_at(j as int)) * cols(
                                            g0.out_at(j as int),
                                        ),
                                        rows(g0.out_at(j as int)) >= 1,
                                        cols(g0.out_at(j as int)) >= 1,
                                ;
                            }
                            let q = d00.divn(count);
                            let dd = Matrix::new_value(h, w, q);
                            proof {
                                assert(dd@ =~~= bwd_first(g0, op, d@));
                            }
                            accum_pend(&mut pend, j, dd);
                        },
                        Op::Transpose(j) => {
                            proof {
                                g0.lemma_node(j as int);
                                reveal(bwd_first);
                            }
                            let dd = d.transpose();
                            proof {
                                assert(dd@ =~~= bwd_first(g0, op, d@));
                            }
                            accum_pend(&mut pend, j, dd);
                        },
                        Op::Sigmoid(j) => {
                            proof {
                                g0.lemma_node(j as int);
                                reveal(bwd_first);
                            }
                            let coeff = self.nodes[j].out.unary_operation(
                                |v: S| -> (o: S) ensures o == S::mul_s(S::sigmoid_s(v), S::sub_s(S::one_s(), S::sigmoid_s(v))) { v.sigmoid().mul(S::one().sub(v.sigmoid())) },
                            );
                            let dd = coeff.binary_operation(
                                &d,
                                |a: S, b: S| -> (o: S) ensures o == S::mul_s(a, b) { a.mul(b) },
                            );
                            proof {
                                assert(dd@ =~~= bwd_first(g0, op, d@));
                            }
                            accum_pend(&mut pend, j, dd);
                        },
                        Op::Relu(j) => {
                            proof {
                                g0.lemma_node(j as int);
                                reveal(bwd_first);
                            }
                            let dd = self.nodes[j].out.binary_operation(
                                &d,
                                |a: S, b: S| -> (o: S) ensures o == (if S::is_pos_s(a) { b } else { S::zero_s() }) { if a.is_pos() { b } else { S::zero() } },
                            );
                            proof {
                                assert(dd@ =~~= bwd_first(g0, op, d@));
                            }
                            accum_pend(&mut pend, j, dd);
                        },
                        Op::LeakyRelu(j, slope) => {
                            proof {
                                g0.lemma_node(j as int);
                                reveal(bwd_first);
                            }
                            let dd = self.nodes[j].out.binary_operation(
                                &d,
                                |a: S, b: S| -> (o: S) ensures o == (if S::is_pos_s(a) { b } else { S::mul_s(slope, b) }) { if a.is_pos() { b } else { slope.mul(b) } },
                            );
                            proof {
                                assert(dd@ =~~= bwd_first(g0, op, d@));
                            }
                            accum_pend(&mut pend, j, dd);
                        },
                    }
                },
            }
            proof {
                assert((pend_view(pend@), grads_view(*self)) == back_step(
                    g0,
                    st_pend,
                    st_grads,
                    i as int,
                ));
                assert(back_sweep(g0, st_pend, st_grads, i as int) == back_sweep(
                    g0,
                    pend_view(pend@),
                    grads_view(*self),
                    i as int - 1,
                ));
            }
        }
        proof {
            assert(grads_view(*self) == goal.1);
        }
    }

    /// The backward sweep from a scalar root, seeded with one. Starting a
    /// backward pass without a delta from a node whose output is not
    /// one-by-one is a caller error this contract rules out.
    pub fn back(&mut self, root: OperationRef)
        requires
            old(self).wf(),
            0 <= root.id() < old(self).len(),
            rows(old(self).out_at(root.id())) == 1,
            cols(old(self).out_at(root.id())) == 1,
        ensures
            final(self).wf(),
            final(self).len() == old(self).len(),
            forall|j: int|
                0 <= j < old(self).len() ==> (#[trigger] final(self).op_at(j)) == old(
                    self,
                ).op_at(j),
            forall|j: int|
                0 <= j < old(self).len() ==> (#[trigger] final(self).out_at(j)) == old(
                    self,
                ).out_at(j),
            grads_view(*final(self)) == back_sweep(
                *old(self),
                init_pend(*old(self), root.id(), mfill(1, 1, S::one_s())),
                grads_view(*old(self)),
                root.id(),
            ).1,
    {
        let seed = Matrix::new_value(1, 1, S::one());
        proof {
            assert(seed@ =~~= mfill(1, 1, S::one_s()));
        }
        self.back_delta(root, seed);
    }

    /// Replaces a variable's value with a freshly computed one of the same
    /// shape and clears its gradient accumulator to zero: the commit step of
    /// an optimizer.
    pub fn update_variable(&mut self, n: OperationRef, value: Matrix<S>)
        requires
            old(self).wf(),
            0 <= n.id() < old(self).len(),
            old(self).is_var(n.id()),
            value.wf(),
            rows(value@) == rows(old(self).out_at(n.id())),
            cols(value@) == cols(old(self).out_at(n.id())),
        ensures
            final(self).wf(),
            final(self).len() == old(self).len(),
            final(self).out_at(n.id()) == value@,
            final(self).grad_at(n.id()) == mfill(rows(value@), cols(value@), S::zero_s()),
            forall|j: int|
                0 <= j < old(self).len() ==> (#[trigger] final(self).op_at(j)) == old(
                    self,
                ).op_at(j),
            forall|j: int|
                0 <= j < old(self).len() && j != n.id() ==> (#[trigger] final(self).out_at(j))
                    == old(self).out_at(j),
            forall|j: int|
                0 <= j < old(self).len() && j != n.id() ==> (#[trigger] final(self).grad_at(j))
                    == old(self).grad_at(j),
    {
        proof {
            self.lemma_node(n.id());
            value.lemma_grid();
        }
        let h = value.height();
        let w = value.width();
        let zg = Matrix::new_zero(h, w);
        proof {
            assert(zg@ =~~= mfill(rows(value@), cols(value@), S::zero_s()));
        }
        let rec = self.nodes.remove(n.idx);
        self.nodes.insert(n.idx, NodeRec { op: rec.op, out: value, grad: Some(zg) });
        proof {
            assert forall|j: int|
                0 <= j < old(self).len() && j != n.id() implies (#[trigger] self.op_at(j)) == old(
                self,
            ).op_at(j) && (#[trigger] self.out_at(j)) == old(self).out_at(j) && (
            #[trigger] self.grad_at(j)) == old(self).grad_at(j) by {
                assert(self.nodes@[j] == old(self).nodes@[j]);
            }
            assert forall|j: int| 0 <= j < self.len() implies self.node_ok(j) by {
                assert(old(self).node_ok(j));
            }
        }
    }

    /// Swaps the matrix a placeholder feeds into the graph. The new matrix
    /// keeps the shape, so the rest of the graph stays consistent.
    pub fn set_input(&mut self, n: OperationRef, value: Matrix<S>)
        requires
            old(self).wf(),
            0 <= n.id() < old(self).len(),
            old(self).op_at(n.id()) matches Op::Placeholder,
            value.wf(),
            rows(value@) == rows(old(self).out_at(n.id())),
            cols(value@) == cols(old(self).out_at(n.id())),
        ensures
            final(self).wf(),
            final(self).len() == old(self).len(),
            final(self).out_at(n.id()) == value@,
            forall|j: int|
                0 <= j < old(self).len() && j != n.id() ==> (#[trigger] final(self).out_at(j))
                    == old(self).out_at(j),
            forall|j: int|
                0 <= j < old(self).len() ==> (#[trigger] final(self).op_at(j)) == old(
                    self,
                ).op_at(j),
            forall|j: int|
                0 <= j < old(self).len() ==> (#[trigger] final(self).grad_at(j)) == old(
                    self,
                ).grad_at(j),
    {
        let rec = self.nodes.remove(n.idx);
        self.nodes.insert(n.idx, NodeRec { op: rec.op, out: value, grad: rec.grad });
        proof {
            assert forall|j: int|
                0 <= j < old(self).len() && j != n.id() implies (#[trigger] self.out_at(j)) == old(
                self,
            ).out_at(j) by {
                assert(self.nodes@[j] == old(self).nodes@[j]);
            }
            assert forall|j: int|
                0 <= j < old(self).len() implies (#[trigger] self.op_at(j)) == old(self).op_at(
                j,
            ) && (#[trigger] self.grad_at(j)) == old(self).grad_at(j) by {
                if j != n.id() {
                    assert(self.nodes@[j] == old(self).nodes@[j]);
                }
            }
            assert forall|i: int| 0 <= i < self.len() implies self.node_ok(i) by {
                assert(old(self).node_ok(i));
            }
        }
    }
}

/// Whether `op` is a leaf kind, holding a matrix instead of inputs.
pub open spec fn is_leaf<S: Scalar>(op: Op<S>) -> bool {
    match op {
        Op::Constant => true,
        Op::Placeholder => true,
        Op::Variable => true,
        _ => false,
    }
}

/// Whether the inputs of a non-leaf `op` all lie below `bound` in the arena
/// of `g` and have compatible shapes.
pub open spec fn op_inputs_ok<S: Scalar>(g: Graph<S>, op: Op<S>, bound: int) -> bool {
    bound <= g.len() && match op {
        Op::Constant => false,
        Op::Placeholder => false,
        Op::Variable => false,
        Op::Add(l, r) => {
            &&& 0 <= l < bound
            &&& 0 <= r < bound
            &&& rows(g.out_at(l as int)) == rows(g.out_at(r as int))
            &&& cols(g.out_at(l as int)) == cols(g.out_at(r as int))
        },
        Op::Mul(l, r) => {
            &&& 0 <= l < bound
            &&& 0 <= r < bound
            &&& rows(g.out_at(l as int)) == rows(g.out_at(r as int))
            &&& cols(g.out_at(l as int)) == cols(g.out_at(r as int))
        },
        Op::MatMul(l, r) => {
            &&& 0 <= l < bound
            &&& 0 <= r < bound
            &&& cols(g.out_at(l as int)) == rows(g.out_at(r as int))
            &&& rows(g.out_at(l as int)) * cols(g.out_at(r as int)) <= usize::MAX as int
        },
        Op::Times(j, k) => 0 <= j < bound,
        Op::Pow(j, p) => 0 <= j < bound,
        Op::Sum(j) => 0 <= j < bound,
        Op::Mean(j) => 0 <= j < bound,
        Op::Transpose(j) => 0 <= j < bound,
        Op::Sigmoid(j) => 0 <= j < bound,
        Op::Relu(j) => 0 <= j < bound,
        Op::LeakyRelu(j, slope) => 0 <= j < bound,
    }
}

/// The forward value of a non-leaf `op` over the current cached outputs of
/// its inputs in `g`.
#[verifier::opaque]
pub open spec fn fwd_of<S: Scalar>(g: Graph<S>, op: Op<S>) -> Seq<Seq<S>> {
    match op {
        Op::Constant => Seq::empty(),
        Op::Placeholder => Seq::empty(),
        Op::Variable => Seq::empty(),
        Op::Add(l, r) => madd(g.out_at(l as int), g.out_at(r as int)),
        Op::Mul(l, r) => mmul(g.out_at(l as int), g.out_at(r as int)),
        Op::MatMul(l, r) => mmatmul(g.out_at(l as int), g.out_at(r as int)),
        Op::Times(j, k) => mscale(k, g.out_at(j as int)),
        Op::Pow(j, p) => mpow(g.out_at(j as int), p as nat),
        Op::Sum(j) => msum(g.out_at(j as int)),
        Op::Mean(j) => mmean(g.out_at(j as int)),
        Op::Transpose(j) => mtrans(g.out_at(j as int)),
        Op::Sigmoid(j) => msigmoid(g.out_at(j as int)),
        Op::Relu(j) => mrelu(g.out_at(j as int)),
        Op::LeakyRelu(j, slope) => mleaky(g.out_at(j as int), slope),
    }
}

/// What one forward pass leaves cached at node `i`: a leaf keeps its held
/// matrix, an operation node the value of its kernel over its inputs'
/// refreshed outputs.
pub open spec fn fwd_val<S: Scalar>(g: Graph<S>, i: int) -> Seq<Seq<S>> {
    if is_leaf(g.op_at(i)) {
        g.out_at(i)
    } else {
        fwd_of(g, g.op_at(i))
    }
}

/// A scalar raised to a natural power by repeated multiplication from one.
fn pow_exec<S: Scalar>(v: S, p: u32) -> (r: S)
    ensures
        r == pow_s(v, p as nat),
{
    let mut r = S::one();
    let mut i: u32 = 0;
    while i < p
        invariant
            i <= p,
            r == pow_s(v, i as nat),
        decreases p - i,
    {
        r = r.mul(v);
        i += 1;
    }
    r
}

/// The derivative coefficients of the elementwise kernels, cell by cell.
pub open spec fn msigmoid_grad<S: Scalar>(a: Seq<Seq<S>>) -> Seq<Seq<S>> {
    grid_of(
        rows(a),
        cols(a),
        |y: int, x: int|
            S::mul_s(S::sigmoid_s(a[y][x]), S::sub_s(S::one_s(), S::sigmoid_s(a[y][x]))),
    )
}

/// The exponent of the power rule's derivative: one less than `p`, bottoming
/// out at zero.
pub open spec fn pow_pred(p: nat) -> nat {
    if p == 0 {
        0nat
    } else {
        (p - 1) as nat
    }
}

/// The derivative coefficient of the power kernel: `p` times the cell raised
/// to `p - 1`.
pub open spec fn mpow_grad<S: Scalar>(a: Seq<Seq<S>>, p: nat) -> Seq<Seq<S>> {
    grid_of(
        rows(a),
        cols(a),
        |y: int, x: int| S::mul_s(S::from_n_s(p as int), pow_s(a[y][x], pow_pred(p))),
    )
}

/// The delta handed to the (first) input of a backward kernel, given the
/// operation, the cached input values in `g`, and the delta `d` that arrived
/// at the node.
#[verifier::opaque]
pub open spec fn bwd_first<S: Scalar>(g: Graph<S>, op: Op<S>, d: Seq<Seq<S>>) -> Seq<Seq<S>> {
    match op {
        Op::Constant => Seq::empty(),
        Op::Placeholder => Seq::empty(),
        Op::Variable => Seq::empty(),
        Op::Add(l, r) => d,
        Op::Mul(l, r) => mmul(d, g.out_at(r as int)),
        Op::MatMul(l, r) => mmatmul(d, mtrans(g.out_at(r as int))),
        Op::Times(j, k) => mscale(k, d),
        Op::Pow(j, p) => mmul(mpow_grad(g.out_at(j as int), p as nat), d),
        Op::Sum(j) => mfill(rows(g.out_at(j as int)), cols(g.out_at(j as int)), d[0][0]),
        Op::Mean(j) => mfill(
            rows(g.out_at(j as int)),
            cols(g.out_at(j as int)),
            S::divn_s(d[0][0], rows(g.out_at(j as int)) * cols(g.out_at(j as int))),
        ),
        Op::Transpose(j) => mtrans(d),
        Op::Sigmoid(j) => mmul(msigmoid_grad(g.out_at(j as int)), d),
        Op::Relu(j) => grid_of(
            rows(g.out_at(j as int)),
            cols(g.out_at(j as int)),
            |y: int, x: int|
                if S::is_pos_s(g.out_at(j as int)[y][x]) {
                    d[y][x]
                } else {
                    S::zero_s()
                },
        ),
        Op::LeakyRelu(j, slope) => grid_of(
            rows(g.out_at(j as int)),
            cols(g.out_at(j as int)),
            |y: int, x: int|
                if S::is_pos_s(g.out_at(j as int)[y][x]) {
                    d[y][x]
                } else {
                    S::mul_s(slope, d[y][x])
                },
        ),
    }
}

/// The delta handed to the second input of a binary backward kernel.
#[verifier::opaque]
pub open spec fn bwd_second<S: Scalar>(g: Graph<S>, op: Op<S>, d: Seq<Seq<S>>) -> Seq<Seq<S>> {
    match op {
        Op::Add(l, r) => d,
        Op::Mul(l, r) => mmul(d, g.out_at(l as int)),
        Op::MatMul(l, r) => mmatmul(mtrans(g.out_at(l as int)), d),
        _ => Seq::empty(),
    }
}

/// A delta joining a pending slot: the first to arrive fills it, a later one
/// is added on the right.
pub open spec fn acc_pend<S: Scalar>(
    p: Option<Seq<Seq<S>>>,
    d: Seq<Seq<S>>,
) -> Option<Seq<Seq<S>>> {
    match p {
        None => Some(d),
        Some(e) => Some(madd(e, d)),
    }
}

/// One step of the backward sweep at node `i`: a pending delta is pushed
/// through the node's backward kernel into the pending slots of its inputs
/// (first input first), or added into the gradient accumulator if the node
/// is a variable; constants and placeholders absorb it.
pub open spec fn back_step<S: Scalar>(
    g: Graph<S>,
    pend: Seq<Option<Seq<Seq<S>>>>,
    grads: Seq<Seq<Seq<S>>>,
    i: int,
) -> (Seq<Option<Seq<Seq<S>>>>, Seq<Seq<Seq<S>>>) {
    match pend[i] {
        None => (pend, grads),
        Some(d) => {
            let op = g.op_at(i);
            match op {
                Op::Constant => (pend, grads),
                Op::Placeholder => (pend, grads),
                Op::Variable => (pend, grads.update(i, madd(grads[i], d))),
                Op::Add(l, r) => back_step_binary(g, pend, grads, op, d, l as int, r as int),
                Op::Mul(l, r) => back_step_binary(g, pend, grads, op, d, l as int, r as int),
                Op::MatMul(l, r) => back_step_binary(g, pend, grads, op, d, l as int, r as int),
                Op::Times(j, k) => back_step_unary(g, pend, grads, op, d, j as int),
                Op::Pow(j, p) => back_step_unary(g, pend, grads, op, d, j as int),
                Op::Sum(j) => back_step_unary(g, pend, grads, op, d, j as int),
                Op::Mean(j) => back_step_unary(g, pend, grads, op, d, j as int),
                Op::Transpose(j) => back_step_unary(g, pend, grads, op, d, j as int),
                Op::Sigmoid(j) => back_step_unary(g, pend, grads, op, d, j as int),
                Op::Relu(j) => back_step_unary(g, pend, grads, op, d, j as int),
                Op::LeakyRelu(j, slope) => back_step_unary(g, pend, grads, op, d, j as int),
            }
        },
    }
}

pub open spec fn back_step_unary<S: Scalar>(
    g: Graph<S>,
    pend: Seq<Option<Seq<Seq<S>>>>,
    grads: Seq<Seq<Seq<S>>>,
    op: Op<S>,
    d: Seq<Seq<S>>,
    j: int,
) -> (Seq<Option<Seq<Seq<S>>>>, Seq<Seq<Seq<S>>>) {
    (pend.update(j, acc_pend(pend[j], bwd_first(g, op, d))), grads)
}

pub open spec fn back_step_binary<S: Scalar>(
    g: Graph<S>,
    pend: Seq<Option<Seq<Seq<S>>>>,
    grads: Seq<Seq<Seq<S>>>,
    op: Op<S>,
    d: Seq<Seq<S>>,
    l: int,
    r: int,
) -> (Seq<Option<Seq<Seq<S>>>>, Seq<Seq<Seq<S>>>) {
    let p1 = pend.update(l, acc_pend(pend[l], bwd_first(g, op, d)));
    (p1.update(r, acc_pend(p1[r], bwd_second(g, op, d))), grads)
}

/// The whole backward sweep: steps through the nodes from `i` down to the
/// bottom of the arena, threading the pending-delta and gradient state.
pub open spec fn back_sweep<S: Scalar>(
    g: Graph<S>,
    pend: Seq<Option<Seq<Seq<S>>>>,
    grads: Seq<Seq<Seq<S>>>,
    i: int,
) -> (Seq<Option<Seq<Seq<S>>>>, Seq<Seq<Seq<S>>>)
    decreases i + 1,
{
    if i < 0 {
        (pend, grads)
    } else {
        let st = back_step(g, pend, grads, i);
        back_sweep(g, st.0, st.1, i - 1)
    }
}

/// The pending state a backward pass starts from: the seed delta at the
/// root, nothing anywhere else.
pub open spec fn init_pend<S: Scalar>(g: Graph<S>, root: int, d: Seq<Seq<S>>) -> Seq<
    Option<Seq<Seq<S>>>,
> {
    Seq::new(
        g.len() as nat,
        |j: int|
            if j == root {
                Some(d)
            } else {
                None
            },
    )
}

/// The gradient accumulators of every node, as one sequence.
pub open spec fn grads_view<S: Scalar>(g: Graph<S>) -> Seq<Seq<Seq<S>>> {
    Seq::new(g.len() as nat, |j: int| g.grad_at(j))
}

/// The views of a vector of pending delta matrices.
pub open spec fn pend_view<S: Scalar>(p: Seq<Option<Matrix<S>>>) -> Seq<Option<Seq<Seq<S>>>> {
    Seq::new(
        p.len(),
        |j: int|
            match p[j] {
                Some(m) => Some(m@),
                None => None,
            },
    )
}

impl OperationRef {
    /// Elementwise sum node over two operands of one shape.
    pub fn add<S: Scalar>(self, g: &mut Graph<S>, rhs: OperationRef) -> (n: OperationRef)
        requires
            old(g).wf(),
            0 <= self.id() < old(g).len(),
            0 <= rhs.id() < old(g).len(),
            rows(old(g).out_at(self.id())) == rows(old(g).out_at(rhs.id())),
            cols(old(g).out_at(self.id())) == cols(old(g).out_at(rhs.id())),
            old(g).len() < usize::MAX as int,
        ensures
            final(g).wf(),
            final(g).len() == old(g).len() + 1,
            n.id() == old(g).len(),
            (final(g).op_at(n.id()) matches Op::Add(l, r) && l as int == self.id() && r as int
                == rhs.id()),
            final(g).out_at(n.id()) == madd(old(g).out_at(self.id()), old(g).out_at(rhs.id())),
            !final(g).is_var(n.id()),
            unchanged_prefix(*old(g), *final(g), old(g).len()),
    {
        let op = Op::Add(self.idx, rhs.idx);
        let m = g.compute_fwd(op);
        let n = g.push_node(op, m);
        proof {
            reveal(fwd_of);
        }
        n
    }

    /// Subtraction as an add of the negated operand: the right operand is
    /// scaled by minus one, then added, so this appends two nodes.
    pub fn sub<S: Scalar>(self, g: &mut Graph<S>, rhs: OperationRef) -> (n: OperationRef)
        requires
            old(g).wf(),
            0 <= self.id() < old(g).len(),
            0 <= rhs.id() < old(g).len(),
            rows(old(g).out_at(self.id())) == rows(old(g).out_at(rhs.id())),
            cols(old(g).out_at(self.id())) == cols(old(g).out_at(rhs.id())),
            old(g).len() + 2 <= usize::MAX as int,
        ensures
            final(g).wf(),
            final(g).len() == old(g).len() + 2,
            n.id() == old(g).len() + 1,
            final(g).out_at(n.id()) == madd(
                old(g).out_at(self.id()),
                mscale(S::neg_one_s(), old(g).out_at(rhs.id())),
            ),
            !final(g).is_var(n.id()),
            unchanged_prefix(*old(g), *final(g), old(g).len()),
    {
        let neg = rhs.times(g, S::neg_one());
        self.add(g, neg)
    }

    /// Elementwise product node over two operands of one shape.
    pub fn mul<S: Scalar>(self, g: &mut Graph<S>, rhs: OperationRef) -> (n: OperationRef)
        requires
            old(g).wf(),
            0 <= self.id() < old(g).len(),
            0 <= rhs.id() < old(g).len(),
            rows(old(g).out_at(self.id())) == rows(old(g).out_at(rhs.id())),
            cols(old(g).out_at(self.id())) == cols(old(g).out_at(rhs.id())),
            old(g).len() < usize::MAX as int,
        ensures
            final(g).wf(),
            final(g).len() == old(g).len() + 1,
            n.id() == old(g).len(),
            (final(g).op_at(n.id()) matches Op::Mul(l, r) && l as int == self.id() && r as int
                == rhs.id()),
            final(g).out_at(n.id()) == mmul(old(g).out_at(self.id()), old(g).out_at(rhs.id())),
            !final(g).is_var(n.id()),
            unchanged_prefix(*old(g), *final(g), old(g).len()),
    {
        let op = Op::Mul(self.idx, rhs.idx);
        let m = g.compute_fwd(op);
        let n = g.push_node(op, m);
        proof {
            reveal(fwd_of);
        }
        n
    }

    /// Matrix-product node: the width of the left operand must equal the
    /// height of the right one.
    pub fn mmul<S: Scalar>(self, g: &mut Graph<S>, rhs: OperationRef) -> (n: OperationRef)
        requires
            old(g).wf(),
            0 <= self.id() < old(g).len(),
            0 <= rhs.id() < old(g).len(),
            cols(old(g).out_at(self.id())) == rows(old(g).out_at(rhs.id())),
            rows(old(g).out_at(self.id())) * cols(old(g).out_at(rhs.id())) <= usize::MAX as int,
            old(g).len() < usize::MAX as int,
        ensures
            final(g).wf(),
            final(g).len() == old(g).len() + 1,
            n.id() == old(g).len(),
            (final(g).op_at(n.id()) matches Op::MatMul(l, r) && l as int == self.id() && r as int
                == rhs.id()),
            final(g).out_at(n.id()) == mmatmul(old(g).out_at(self.id()), old(g).out_at(rhs.id())),
            !final(g).is_var(n.id()),
            unchanged_prefix(*old(g), *final(g), old(g).len()),
    {
        let op = Op::MatMul(self.idx, rhs.idx);
        let m = g.compute_fwd(op);
        let n = g.push_node(op, m);
        proof {
            reveal(fwd_of);
        }
        n
    }

    /// Scaling node: every cell multiplied from the left by `value`.
    pub fn times<S: Scalar>(self, g: &mut Graph<S>, value: S) -> (n: OperationRef)
        requires
            old(g).wf(),
            0 <= self.id() < old(g).len(),
            old(g).len() < usize::MAX as int,
        ensures
            final(g).wf(),
            final(g).len() == old(g).len() + 1,
            n.id() == old(g).len(),
            (final(g).op_at(n.id()) matches Op::Times(j, k) && j as int == self.id() && k
                == value),
            final(g).out_at(n.id()) == mscale(value, old(g).out_at(self.id())),
            !final(g).is_var(n.id()),
            unchanged_prefix(*old(g), *final(g), old(g).len()),
    {
        let op = Op::Times(self.idx, value);
        let m = g.compute_fwd(op);
        let n = g.push_node(op, m);
        proof {
            reveal(fwd_of);
        }
        n
    }

    /// Power node: every cell raised to the natural power `p` by repeated
    /// multiplication.
    pub fn pow<S: Scalar>(self, g: &mut Graph<S>, p: u32) -> (n: OperationRef)
        requires
            old(g).wf(),
            0 <= self.id() < old(g).len(),
            old(g).len() < usize::MAX as int,
        ensures
            final(g).wf(),
            final(g).len() == old(g).len() + 1,
            n.id() == old(g).len(),
            (final(g).op_at(n.id()) matches Op::Pow(j, q) && j as int == self.id() && q == p),
            final(g).out_at(n.id()) == mpow(old(g).out_at(self.id()), p as nat),
            !final(g).is_var(n.id()),
            unchanged_prefix(*old(g), *final(g), old(g).len()),
    {
        let op = Op::Pow(self.idx, p);
        let m = g.compute_fwd(op);
        let n = g.push_node(op, m);
        proof {
            reveal(fwd_of);
        }
        n
    }

    /// Reduction node: the one-by-one sum of every cell, in tile order.
    pub fn sum<S: Scalar>(self, g: &mut Graph<S>) -> (n: OperationRef)
        requires
            old(g).wf(),
            0 <= self.id() < old(g).len(),
            old(g).len() < usize::MAX as int,
        ensures
            final(g).wf(),
            final(g).len() == old(g).len() + 1,
            n.id() == old(g).len(),
            (final(g).op_at(n.id()) matches Op::Sum(j) && j as int == self.id()),
            final(g).out_at(n.id()) == msum(old(g).out_at(self.id())),
            !final(g).is_var(n.id()),
            unchanged_prefix(*old(g), *final(g), old(g).len()),
    {
        let op = Op::Sum(self.idx);
        let m = g.compute_fwd(op);
        let n = g.push_node(op, m);
        proof {
            reveal(fwd_of);
        }
        n
    }

    /// Mean node: the one-by-one sum of every cell divided by the cell
    /// count.
    pub fn mean<S: Scalar>(self, g: &mut Graph<S>) -> (n: OperationRef)
        requires
            old(g).wf(),
            0 <= self.id() < old(g).len(),
            old(g).len() < usize::MAX as int,
        ensures
            final(g).wf(),
            final(g).len() == old(g).len() + 1,
            n.id() == old(g).len(),
            (final(g).op_at(n.id()) matches Op::Mean(j) && j as int == self.id()),
            final(g).out_at(n.id()) == mmean(old(g).out_at(self.id())),
            !final(g).is_var(n.id()),
            unchanged_prefix(*old(g), *final(g), old(g).len()),
    {
        let op = Op::Mean(self.idx);
        let m = g.compute_fwd(op);
        let n = g.push_node(op, m);
        proof {
            reveal(fwd_of);
        }
        n
    }

    /// Transpose node.
    pub fn transpose<S: Scalar>(self, g: &mut Graph<S>) -> (n: OperationRef)
        requires
            old(g).wf(),
            0 <= self.id() < old(g).len(),
            old(g).len() < usize::MAX as int,
        ensures
            final(g).wf(),
            final(g).len() == old(g).len() + 1,
            n.id() == old(g).len(),
            (final(g).op_at(n.id()) matches Op::Transpose(j) && j as int == self.id()),
            final(g).out_at(n.id()) == mtrans(old(g).out_at(self.id())),
            !final(g).is_var(n.id()),
            unchanged_prefix(*old(g), *final(g), old(g).len()),
    {
        let op = Op::Transpose(self.idx);
        let m = g.compute_fwd(op);
        let n = g.push_node(op, m);
        proof {
            reveal(fwd_of);
        }
        n
    }

    /// Sigmoid node.
    pub fn sigmoid<S: Scalar>(self, g: &mut Graph<S>) -> (n: OperationRef)
        requires
            old(g).wf(),
            0 <= self.id() < old(g).len(),
            old(g).len() < usize::MAX as int,
        ensures
            final(g).wf(),
            final(g).len() == old(g).len() + 1,
            n.id() == old(g).len(),
            (final(g).op_at(n.id()) matches Op::Sigmoid(j) && j as int == self.id()),
            final(g).out_at(n.id()) == msigmoid(old(g).out_at(self.id())),
            !final(g).is_var(n.id()),
            unchanged_prefix(*old(g), *final(g), old(g).len()),
    {
        let op = Op::Sigmoid(self.idx);
        let m = g.compute_fwd(op);
        let n = g.push_node(op, m);
        proof {
            reveal(fwd_of);
        }
        n
    }

    /// Relu node.
    pub fn relu<S: Scalar>(self, g: &mut Graph<S>) -> (n: OperationRef)
        requires
            old(g).wf(),
            0 <= self.id() < old(g).len(),
            old(g).len() < usize::MAX as int,
        ensures
            final(g).wf(),
            final(g).len() == old(g).len() + 1,
            n.id() == old(g).len(),
            (final(g).op_at(n.id()) matches Op::Relu(j) && j as int == self.id()),
            final(g).out_at(n.id()) == mrelu(old(g).out_at(self.id())),
            !final(g).is_var(n.id()),
            unchanged_prefix(*old(g), *final(g), old(g).len()),
    {
        let op = Op::Relu(self.idx);
        let m = g.compute_fwd(op);
        let n = g.push_node(op, m);
        proof {
            reveal(fwd_of);
        }
        n
    }

    /// Leaky-relu node with the given negative-side slope.
    pub fn leaky_relu<S: Scalar>(self, g: &mut Graph<S>, slope: S) -> (n: OperationRef)
        requires
            old(g).wf(),
            0 <= self.id() < old(g).len(),
            old(g).len() < usize::MAX as int,
        ensures
            final(g).wf(),
            final(g).len() == old(g).len() + 1,
            n.id() == old(g).len(),
            (final(g).op_at(n.id()) matches Op::LeakyRelu(j, k) && j as int == self.id() && k
                == slope),
            final(g).out_at(n.id()) == mleaky(old(g).out_at(self.id()), slope),
            !final(g).is_var(n.id()),
            unchanged_prefix(*old(g), *final(g), old(g).len()),
    {
        let op = Op::LeakyRelu(self.idx, slope);
        let m = g.compute_fwd(op);
        let n = g.push_node(op, m);
        proof {
            reveal(fwd_of);
        }
        n
    }

    /// One forward pass up to this node, returning a copy of its refreshed
    /// output.
    pub fn run<S: Scalar>(self, g: &mut Graph<S>) -> (m: Matrix<S>)
        requires
            old(g).wf(),
            0 <= self.id() < old(g).len(),
        ensures
            final(g).wf(),
            final(g).len() == old(g).len(),
            forall|j: int|
                0 <= j < old(g).len() ==> {
                    &&& (#[trigger] final(g).op_at(j)) == old(g).op_at(j)
                    &&& final(g).grad_at(j) == old(g).grad_at(j)
                },
            forall|j: int|
                0 <= j <= self.id() ==> (#[trigger] final(g).out_at(j)) == fwd_val(*final(g), j),
            forall|j: int|
                0 <= j <= self.id() && is_leaf(old(g).op_at(j)) ==> (#[trigger] final(g).out_at(j))
                    == old(g).out_at(j),
            forall|j: int|
                self.id() < j < old(g).len() ==> (#[trigger] final(g).out_at(j)) == old(g).out_at(
                    j,
                ),
            m.wf(),
            m@ == final(g).out_at(self.id()),
    {
        g.run(self);
        g.get_value(self)
    }

    /// An unseeded backward pass from this node, whose output must be
    /// one-by-one; the seed delta is the scalar one.
    pub fn back<S: Scalar>(self, g: &mut Graph<S>)
        requires
            old(g).wf(),
            0 <= self.id() < old(g).len(),
            rows(old(g).out_at(self.id())) == 1,
            cols(old(g).out_at(self.id())) == 1,
        ensures
            final(g).wf(),
            final(g).len() == old(g).len(),
            forall|j: int|
                0 <= j < old(g).len() ==> (#[trigger] final(g).op_at(j)) == old(g).op_at(j),
            forall|j: int|
                0 <= j < old(g).len() ==> (#[trigger] final(g).out_at(j)) == old(g).out_at(j),
            grads_view(*final(g)) == back_sweep(
                *old(g),
                init_pend(*old(g), self.id(), mfill(1, 1, S::one_s())),
                grads_view(*old(g)),
                self.id(),
            ).1,
    {
        g.back(self);
    }

    /// A seeded backward pass from this node.
    pub fn back_delta<S: Scalar>(self, g: &mut Graph<S>, delta: Matrix<S>)
        requires
            old(g).wf(),
            0 <= self.id() < old(g).len(),
            delta.wf(),
            rows(delta@) == rows(old(g).out_at(self.id())),
            cols(delta@) == cols(old(g).out_at(self.id())),
        ensures
            final(g).wf(),
            final(g).len() == old(g).len(),
            forall|j: int|
                0 <= j < old(g).len() ==> (#[trigger] final(g).op_at(j)) == old(g).op_at(j),
            forall|j: int|
                0 <= j < old(g).len() ==> (#[trigger] final(g).out_at(j)) == old(g).out_at(j),
            grads_view(*final(g)) == back_sweep(
                *old(g),
                init_pend(*old(g), self.id(), delta@),
                grads_view(*old(g)),
                self.id(),
            ).1,
    {
        g.back_delta(self, delta);
    }
}

/// Joins a freshly computed delta into one pending slot: the slot's first
/// delta fills it, a later one is added elementwise on the right.
fn accum_pend<S: Scalar>(p: &mut Vec<Option<Matrix<S>>>, j: usize, m: Matrix<S>)
    requires
        (j as int) < old(p)@.len(),
        m.wf(),
        (old(p)@[j as int] matches Some(e) ==> e.wf() && rows(e@) == rows(m@) && cols(e@) == cols(
            m@,
        )),
    ensures
        final(p)@.len() == old(p)@.len(),
        pend_view(final(p)@) == pend_view(old(p)@).update(
            j as int,
            acc_pend(pend_view(old(p)@)[j as int], m@),
        ),
        (final(p)@[j as int] matches Some(e) && e.wf() && rows(e@) == rows(m@) && cols(e@) == cols(
            m@,
        )),
        forall|k: int|
            0 <= k < old(p)@.len() && k != j as int ==> (#[trigger] final(p)@[k]) == old(p)@[k],
{
    let cur = p.remove(j);
    let newm = match cur {
        None => m,
        Some(e) => {
            let s = e.binary_operation(
                &m,
                |a: S, b: S| -> (o: S) ensures o == S::add_s(a, b) { a.add(b) },
            );
            proof {
                assert(s@ =~~= madd(e@, m@));
            }
            s
        },
    };
    p.insert(j, Some(newm));
    proof {
        assert(pend_view(p@) =~= pend_view(old(p)@).update(
            j as int,
            acc_pend(pend_view(old(p)@)[j as int], m@),
        ));
    }
}

/// The kernel value of an operation depends only on the cached outputs of
/// its inputs: two graphs that agree on them give the same value.
proof fn lemma_fwd_of_same<S: Scalar>(g0: Graph<S>, g1: Graph<S>, op: Op<S>, bound: int)
    requires
        op_inputs_ok(g0, op, bound),
        forall|k: int| 0 <= k < bound ==> g1.out_at(k) == g0.out_at(k),
    ensures
        fwd_of(g1, op) == fwd_of(g0, op),
{
    reveal(fwd_of);
}

/// The two graphs agree on every node below `k`: same operation, same
/// cached output, same gradient.
pub open spec fn unchanged_prefix<S: Scalar>(g0: Graph<S>, g1: Graph<S>, k: int) -> bool {
    &&& (forall|j: int| 0 <= j < k ==> (#[trigger] g1.op_at(j)) == g0.op_at(j))
    &&& (forall|j: int| 0 <= j < k ==> (#[trigger] g1.out_at(j)) == g0.out_at(j))
    &&& (forall|j: int| 0 <= j < k ==> (#[trigger] g1.grad_at(j)) == g0.grad_at(j))
}

} // verus!
