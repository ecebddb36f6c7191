//! An in-memory directed-acyclic-graph library: callers attach payloads to
//! nodes and edges, mutate the graph incrementally, and query structural
//! properties (degree, neighbours, topological order) while the library
//! enforces — and proves — acyclicity on every edge insertion.

mod dag;
mod edges;
mod helpers;
mod laws;
mod queries;
mod reach;
mod remove;
mod topo;

pub use dag::Dag;
pub use dag::DagError;
pub use dag::NodeId;
pub use laws::is_cycle_path;
pub use laws::is_path;
pub use laws::lemma_acyclic_no_cycle;
pub use laws::lemma_duplicate_rejected;
pub use laws::lemma_edge_round_trip;
pub use laws::lemma_freed_id_reused_first;
pub use laws::lemma_path_reach;
pub use laws::lemma_pred_finite;
pub use laws::lemma_remove_node_cascades;
pub use laws::lemma_self_loop_rejected;
pub use laws::lemma_succ_finite;
