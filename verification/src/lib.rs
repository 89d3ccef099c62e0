//! A minimal scalar reverse-mode automatic-differentiation engine, with a
//! small feed-forward network built on top of it.
//!
//! Scalars are IEEE-754 binary64 numbers carried as `u64` bit patterns.
//! Expressions build an append-only computation graph; a backward pass
//! computes the gradient of a root with respect to every node of its
//! subgraph, accumulating the contribution of every path.

pub mod arith;
pub mod bits;
pub mod laws;
pub mod layer;
pub mod mlp;
pub mod neuron;
pub mod value;

pub use layer::Layer;
pub use mlp::MLP;
pub use neuron::Neuron;
pub use value::Graph;
pub use value::Node;
pub use value::Op;
pub use value::Value;

pub use bits::NAN_BITS;
pub use bits::NEG_INF_BITS;
pub use bits::NEG_ZERO_BITS;
pub use bits::ONE_BITS;
pub use bits::POS_INF_BITS;
pub use bits::TWO_BITS;
pub use bits::ZERO_BITS;
