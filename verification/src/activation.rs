//! Activation functions as graph-building steps.
//!
//! An activation appends its operation node over an input handle. The trait
//! promises only what every activation keeps: the graph stays well formed,
//! existing nodes are untouched, and the returned handle is valid.

use vstd::prelude::*;

use crate::graph::{unchanged_prefix, Graph, OperationRef};
use crate::scalar::Scalar;

verus! {

/// A graph-building step that wraps an input node in an activation.
pub trait Activation<S: Scalar>: Sized {
    fn run(&self, g: &mut Graph<S>, input: OperationRef) -> (n: OperationRef)
        requires
            old(g).wf(),
            0 <= input.id() < old(g).len(),
            old(g).len() < usize::MAX as int,
        ensures
            final(g).wf(),
            old(g).len() <= final(g).len(),
            0 <= n.id() < final(g).len(),
            unchanged_prefix(*old(g), *final(g), old(g).len()),
    ;
}

/// The logistic activation.
pub struct Sigmoid;

impl<S: Scalar> Activation<S> for Sigmoid {
    fn run(&self, g: &mut Graph<S>, input: OperationRef) -> (n: OperationRef) {
        input.sigmoid(g)
    }
}

/// The identity activation: the input handle passes through untouched.
pub struct EmptyActivation;

impl<S: Scalar> Activation<S> for EmptyActivation {
    fn run(&self, g: &mut Graph<S>, input: OperationRef) -> (n: OperationRef) {
        input
    }
}

/// The logistic activation, under the name the layer builders use.
pub struct ActivationSigmoid;

impl<S: Scalar> Activation<S> for ActivationSigmoid {
    fn run(&self, g: &mut Graph<S>, input: OperationRef) -> (n: OperationRef) {
        input.sigmoid(g)
    }
}

/// The rectifier activation.
pub struct ActivationRelu;

impl<S: Scalar> Activation<S> for ActivationRelu {
    fn run(&self, g: &mut Graph<S>, input: OperationRef) -> (n: OperationRef) {
        input.relu(g)
    }
}

/// The leaky rectifier activation, with its negative-side slope.
pub struct ActivationLeakyRelu<S: Scalar> {
    neg_slope: S,
}

impl<S: Scalar> ActivationLeakyRelu<S> {
    pub fn new(neg_slope: S) -> Self {
        ActivationLeakyRelu { neg_slope }
    }
}

impl<S: Scalar> Activation<S> for ActivationLeakyRelu<S> {
    fn run(&self, g: &mut Graph<S>, input: OperationRef) -> (n: OperationRef) {
        input.leaky_relu(g, self.neg_slope)
    }
}

} // verus!
