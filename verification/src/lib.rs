//! Analysis of federated Byzantine agreement systems: quorums, blocking sets,
//! splitting sets and quorum intersection over sets of node ids.

pub mod analysis;
pub mod groupings;
pub mod io;
pub mod json;
pub mod node_set;
pub mod rank;
pub mod simulation;
pub mod text;
pub mod types;

pub use analysis::{
    all_intersect, find_minimal_blocking_sets, find_minimal_quorums, find_minimal_splitting_sets,
    find_nonintersecting_quorums, find_symmetric_clusters, involved_nodes, reduce,
    remove_non_minimal_node_sets, Analysis, NodeIdSetVecResult,
};
pub use groupings::{Grouping, Groupings, Organization, Organizations};
pub use io::{
    to_json_string_using_node_ids, to_json_string_using_organization_names,
    to_json_string_using_public_keys,
};
pub use node_set::{NodeId, NodeIdSet};
pub use rank::sort_by_rank;
pub use types::{Fbas, Node, PublicKey, QuorumSet};
