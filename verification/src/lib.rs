//! Graph theory library: graph structure, traversals, connectivity, minimum
//! spanning trees by weight order and the weight of spanning forests,
//! union-find, augmenting paths for network flow, shortest-walk counts for
//! centrality, agent-network steps and maximum bipartite matching.

pub mod graph;
pub mod edge_lists;
pub mod mst;
pub mod mst_weight;
pub mod traversal;
pub mod connectivity;
pub mod cut_vertices;
pub mod agent_network;
pub mod path_counts;
pub mod flow;
pub mod matching;
pub mod laws;
pub mod seq_facts;
