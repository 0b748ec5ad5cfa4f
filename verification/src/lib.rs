//! A reverse-mode automatic-differentiation engine over dense 2-D arrays.
//!
//! The crate is built from three layers. `chunk` and `matrix` form the tiled
//! storage layer: a matrix is a grid of fixed-size tiles, and the blocked
//! kernels (elementwise map/zip, reduction, transpose, matrix multiply) work
//! tile by tile. `graph` is the computation-graph runtime: operation records
//! live in an arena, forward evaluation walks the records bottom-up, and the
//! backward sweep accumulates per-variable gradients. `optim` applies an
//! update rule to the registered variables.
//!
//! Every kernel is generic over the element type through the [`scalar::Scalar`]
//! trait, which pairs each executable operation with the specification
//! function that names its result. The contracts of the matrix and graph
//! layers are stated over those names, so they hold for any scalar semantics
//! an implementation of the trait provides; the crate ships a wrapping `i64`
//! implementation, and unverified callers may supply their own, for example
//! over floating point.
//!
//! The algebraic properties the engine promises — transpose is an
//! involution, products transpose contravariantly, the reduction counts
//! every logical cell exactly once, backward passes accumulate instead of
//! overwriting, an optimizer step against a zero gradient is a no-op — are
//! proved in [`laws`], over the same specification functions the executable
//! contracts use.

use vstd::prelude::*;

pub mod activation;
pub mod chunk;
pub mod graph;
pub mod input;
pub mod kernels;
pub mod laws;
pub mod matrix;
pub mod module;
pub mod optim;
pub mod scalar;

verus! {

} // verus!
