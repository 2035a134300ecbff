//! Binary image segmentation by minimum cut.
//!
//! A grayscale image is modelled as a flow network: one node per pixel plus a
//! source and a sink, edges between 8-connected neighbours weighted by pixel
//! similarity, the top row wired to the source and the bottom row to the sink.
//! The Edmonds-Karp algorithm saturates the network; the set of nodes still
//! reachable from the source in the final residual graph is the foreground
//! side of a minimum cut.

pub mod matrix;
pub mod model;
pub mod network;
pub mod reach;
pub mod segment;
pub mod solver;

pub use matrix::CapacityMatrix;
pub use network::{build_network, capacity_function, BuildError, FlowNetwork};
pub use reach::reachable_mask;
pub use segment::segment;
pub use solver::{augment, bfs, calculate_max_flow, MaxFlowResult};
