//! Reverse-mode automatic differentiation over an arena of scalar nodes,
//! with the shape bookkeeping of a feed-forward network built on it.

pub mod activation;
pub mod graph;
pub mod loss;
pub mod network;
pub mod util;

pub use activation::Activation;
pub use graph::{Graph, Operation};
pub use loss::Loss;
pub use network::Layout;
