//! The analysis engine: minimal quorums, minimal blocking sets, minimal
//! splitting sets and quorum intersection.

pub mod blocking_sets;
pub mod front_end;
pub mod merge_by_group;
pub mod minimal_quorums;
pub mod minimal_sets;
pub mod preprocessing;
pub mod quorums;
pub mod results;
pub mod sets;
pub mod splitting_sets;
pub mod symmetric_clusters;

pub use blocking_sets::find_minimal_blocking_sets;
pub use front_end::Analysis;
pub use merge_by_group::remove_non_minimal_node_sets;
pub use minimal_quorums::{find_minimal_quorums, find_nonintersecting_quorums};
pub use preprocessing::reduce;
pub use results::{all_intersect, involved_nodes, NodeIdSetVecResult};
pub use splitting_sets::find_minimal_splitting_sets;
pub use symmetric_clusters::find_symmetric_clusters;
