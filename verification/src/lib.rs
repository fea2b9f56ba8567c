//! Reverse-mode automatic differentiation over a dynamically built DAG of
//! scalar nodes.
//!
//! The crate models the computation graph as an arena: every node is
//! addressed by the `usize` index at which it was created, and a node's
//! operands always lie at strictly smaller indices, so the graph is acyclic
//! by construction.  The numeric payload of a node (its value and its
//! gradient accumulator) is kept by the embedder in arrays parallel to the
//! arena; this crate owns everything that can go wrong structurally: how the
//! graph is grown, how it is traversed, and which local-derivative
//! contribution flows to which operand in which order.

pub mod backward;
pub mod graph;
pub mod topo;
