//! A scalar reverse-mode automatic-differentiation engine.
//!
//! Scalar operations are recorded on a [`engine::Tape`] as nodes of a directed
//! acyclic graph. A backward pass from a chosen output accumulates, into every
//! node that the output depends on, the derivative of the output with respect
//! to that node.
//!
//! Numbers are held as IEEE 754 binary64 bit patterns. The engine decides
//! which primitive operation is evaluated on which operands and in which
//! order; the evaluation itself is done by an arithmetic kernel that the
//! owner of the tape supplies (see [`kernel`]).
//!
//! - [`node`]: what a node holds, and when a graph is well formed;
//! - [`engine`]: the tape, the forward operations and the backward pass;
//! - [`rules`]: what each operation computes, forward and backward;
//! - [`order`]: the order in which a backward pass walks the graph;
//! - [`laws`]: what holds of every backward pass;
//! - [`neuron`], [`mlp`]: neurons, layers and perceptrons built on the engine;
//! - [`graph`]: the graph below a node, laid out for drawing.

pub mod engine;
pub mod graph;
pub mod kernel;
pub mod laws;
pub mod mlp;
pub mod neuron;
pub mod node;
pub mod order;
mod pass;
pub mod rules;
