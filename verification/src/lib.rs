//! Metric backbone of a weighted multilayer directed graph.
//!
//! Edge weights are vectors indexed by layer and only partially ordered, so
//! between two nodes there is a Pareto front of minimal path weights rather
//! than a single distance.  The crate provides the weight algebra, a
//! single-source Pareto shortest-path search, the all-pairs closure and three
//! ways of extracting the backbone, each with a machine-checked contract.
//!
//! Weights are non-negative integers: a caller with fractional weights picks
//! a unit and counts in it.  Sums saturate at `u64::MAX`.
pub mod adjacency;
pub mod bfs_tools;
pub mod closure;
pub mod conversion;
pub mod detours;
pub mod direct_backbone;
pub mod edge_lists;
pub mod multidistance;
pub mod multigraph;
pub mod order;
mod parallel;
pub mod pareto;
pub mod potential;
pub mod search;
pub mod seeding;
pub mod shortest_paths;
pub mod walks;
pub mod weights;

pub use bfs_tools::{is_metric_in_n_steps, MissingEdgeError};
pub use closure::{distance_closure, multidistance_closure, MultidistanceClosure};
pub use conversion::{edges_to_multiplex, EdgeMap};
pub use direct_backbone::{
    fast_backbone_costa, fast_backbone_simas, multilayer_backbone, structural_backbone,
    MultilayerBackbone,
};
pub use multidistance::{EdgeLayerID, MultiDistance, NodeID};
pub use multigraph::{ClosureGraph, MultidistanceGraph, MultidistanceGraphHashmap};
pub use pareto::multimin;
pub use shortest_paths::parteto_shortest_distance_from_source;
