//! A small, backend-pluggable automatic-differentiation engine for dense
//! arrays.
//!
//! The engine builds a computation graph of tensor operations lazily,
//! evaluates any node on demand with an explicit push-down automaton, and
//! derives symbolic gradient nodes (including higher-order gradients) by
//! backpropagation through the same graph.  Element values are carried as
//! opaque 32-bit patterns; a pluggable [`hardware::Hardware`] implementation
//! owns the device memory and interprets those patterns.

pub mod array;
pub mod buffer;
pub mod error;
pub mod grad;
pub mod graph;
pub mod hardware;
pub mod node;
pub mod operator;
pub mod shape;
