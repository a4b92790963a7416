//! A graph data structure library.
//!
//! The core is a mutable adjacency-list graph with compact integer
//! identifiers for nodes and edges, directed or undirected, storing the
//! adjacency lists intrusively inside two flat arrays.

mod index;
mod graph;
mod iterators;
mod laws;
pub mod traits;
mod bfs;

pub use index::Direction;
pub use index::Directed;
pub use index::Undirected;
pub use index::EdgeType;
pub use index::IndexType;
pub use index::DefaultIx;
pub use index::NodeIndex;
pub use index::EdgeIndex;
pub use index::IntoWeightedEdge;
pub use graph::Node;
pub use graph::Edge;
pub use graph::AdjChains;
pub use graph::Graph;
pub use graph::DiGraph;
pub use graph::UnGraph;
pub use graph::lemma_wf_data_independent;
pub use graph::lemma_wf_weight_independent;
pub use graph::lemma_wf_congruence;
pub use graph::triple_incident;
pub use graph::triple_subst;
pub use iterators::sentinel;
pub use iterators::list_linked;
pub use iterators::out_yields;
pub use iterators::in_yields;
pub use iterators::edge_out_yields;
pub use iterators::edge_in_yields;
pub use iterators::node_is_external;
pub use iterators::first_external_from;
pub use iterators::Neighbors;
pub use iterators::WalkNeighbors;
pub use iterators::Edges;
pub use iterators::Externals;
pub use iterators::NodeIndices;
pub use iterators::EdgeIndices;
pub use iterators::NodeReferences;
pub use iterators::NodeWeightsMut;
pub use iterators::EdgeWeightsMut;
pub use iterators::EdgeReference;
pub use iterators::EdgeReferences;
pub use traits::Weight;
pub use traits::GraphError;
pub use traits::VertexId;
pub use traits::DirectedGraph;
pub use traits::UndirectionedGraph;
pub use bfs::bfs;
pub use laws::lemma_undirected_contains_symmetric;
pub use laws::lemma_undirected_add_edge_symmetric;
pub use laws::lemma_directed_add_edge_asymmetric;
pub use laws::count_edge_reports;
pub use laws::lemma_self_loop_reported_once;
pub use laws::lemma_external_meaning;
