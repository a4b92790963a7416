//! The abstract graph interface: vertex handles, edge weights, the error
//! type, and the traits a graph backend implements for its users.
use vstd::prelude::*;

verus! {

/// The weight of an edge; `Infinity` if the edge doesn't exist (yet).
#[derive(Debug, Clone, Copy, PartialEq, Eq, Structural)]
pub enum Weight {
    /// No edge (yet): compares greater than every finite weight.
    Infinity,
    /// A finite weight.
    W(usize),
}

impl Default for Weight {
    /// The default weight is `Infinity`: no edge.
    fn default() -> (r: Self)
        ensures
            r == Weight::Infinity,
    {
        Weight::Infinity
    }
}

impl PartialOrd for Weight {
    /// Total order: finite weights by value, `Infinity` above them all.
    fn partial_cmp(&self, other: &Self) -> (r: Option<core::cmp::Ordering>) {
        match (*self, *other) {
            (Weight::Infinity, Weight::Infinity) => Some(core::cmp::Ordering::Equal),
            (Weight::W(_), Weight::Infinity) => Some(core::cmp::Ordering::Less),
            (Weight::Infinity, Weight::W(_)) => Some(core::cmp::Ordering::Greater),
            (Weight::W(a), Weight::W(b)) => {
                if a < b {
                    Some(core::cmp::Ordering::Less)
                } else if a == b {
                    Some(core::cmp::Ordering::Equal)
                } else {
                    Some(core::cmp::Ordering::Greater)
                }
            },
        }
    }
}

impl vstd::std_specs::cmp::PartialOrdSpecImpl for Weight {
    open spec fn obeys_partial_cmp_spec() -> bool {
        true
    }

    open spec fn partial_cmp_spec(&self, other: &Self) -> Option<core::cmp::Ordering> {
        match (*self, *other) {
            (Weight::Infinity, Weight::Infinity) => Some(core::cmp::Ordering::Equal),
            (Weight::W(_), Weight::Infinity) => Some(core::cmp::Ordering::Less),
            (Weight::Infinity, Weight::W(_)) => Some(core::cmp::Ordering::Greater),
            (Weight::W(a), Weight::W(b)) => {
                if a < b {
                    Some(core::cmp::Ordering::Less)
                } else if a == b {
                    Some(core::cmp::Ordering::Equal)
                } else {
                    Some(core::cmp::Ordering::Greater)
                }
            },
        }
    }
}

/// The error type used by the abstract graph interface.
#[derive(Debug, Clone, Copy, PartialEq, Eq, Structural)]
pub enum GraphError {
    /// A vertex handle that does not name a vertex of the graph.
    InvalidVertex,
}

/// A handle representing a vertex in an abstract graph.
#[derive(PartialEq, Eq, Hash, Copy, Clone, Debug, Structural)]
pub struct VertexId(pub usize);

/// Abstract data type for a graph: a collection of vertices and edges,
/// with data objects of type `T` stored in the vertices.
///
/// The methods carry no contracts: what holds of a call depends on the
/// implementor, which this library does not check.
pub trait Graph<T> {
    /// Returns a vector containing all vertices.
    fn vertices(&self) -> Vec<VertexId>;

    /// Returns a vector containing all edges as (from, to, weight)
    /// triples.
    fn edges(&self) -> Vec<(VertexId, VertexId, Weight)>;

    /// Returns the weight of a specific edge, `Weight::Infinity` if the
    /// edge doesn't exist, or an error if either vertex doesn't.
    fn get_weight(&self, from: VertexId, to: VertexId) -> Result<Weight, GraphError>;

    /// Creates a new vertex with data and returns a handle to it.
    fn create_vertex(&mut self, data: Option<T>) -> VertexId;

    /// Creates new vertices and returns handles to them, one per datum,
    /// in order.
    fn create_vertices(&mut self, datas: Vec<Option<T>>) -> (r: Vec<VertexId>)
        ensures
            r@.len() == datas@.len(),
    {
        let mut datas = datas;
        let mut out: Vec<VertexId> = Vec::new();
        let ghost total = datas@.len();
        while datas.len() > 0
            invariant
                out@.len() + datas@.len() == total,
            decreases datas@.len(),
        {
            let d = datas.remove(0);
            let v = self.create_vertex(d);
            out.push(v);
        }
        out
    }

    /// Delete a vertex, or report `InvalidVertex` if it didn't exist.
    fn delete_vertex(&mut self, vertex: VertexId) -> Result<(), GraphError>;

    /// Sets the data associated with the given vertex, overriding the
    /// previous data, or reports `InvalidVertex`.
    fn set_data(&mut self, vertex: VertexId, data: T) -> Result<(), GraphError>;

    /// Returns the data associated with the given vertex (if any), or
    /// reports `InvalidVertex`.
    fn get_data(&self, vertex: VertexId) -> Result<Option<&T>, GraphError>;
}

/// An abstract graph whose edges are directed.
pub trait DirectedGraph<T>: Graph<T> {
    /// The (neighbor, weight) pairs of the edges leaving `vertex`, or
    /// `InvalidVertex`.
    fn outgoing_edges(&self, vertex: VertexId) -> Result<Vec<(VertexId, Weight)>, GraphError>;

    /// The (neighbor, weight) pairs of the edges entering `vertex`, or
    /// `InvalidVertex`.
    fn incoming_edges(&self, vertex: VertexId) -> Result<Vec<(VertexId, Weight)>, GraphError>;

    /// Creates a new edge, or reports `InvalidVertex` if one of the
    /// vertices doesn't exist.
    fn create_directed_edge(&mut self, from: VertexId, to: VertexId, weight: Weight) -> Result<
        (),
        GraphError,
    >;

    /// Deletes an edge, or reports `InvalidVertex` if one of the vertices
    /// doesn't exist.
    fn delete_directed_edge(&mut self, from: VertexId, to: VertexId) -> Result<(), GraphError>;
}

/// An abstract graph that also offers undirected edges, stored as a pair
/// of directed edges.
pub trait UndirectionedGraph<T>: DirectedGraph<T> {
    /// Creates a new edge in both directions, or reports `InvalidVertex`
    /// if one of the vertices doesn't exist.
    fn create_undirected_edge(&mut self, v1: VertexId, v2: VertexId, weight: Weight) -> Result<
        (),
        GraphError,
    > {
        match self.create_directed_edge(v1, v2, weight) {
            Ok(_) => self.create_directed_edge(v2, v1, weight),
            Err(e) => Err(e),
        }
    }

    /// Deletes an edge in both directions, or reports `InvalidVertex` if
    /// one of the vertices doesn't exist.
    fn delete_undirected_edge(&mut self, v1: VertexId, v2: VertexId) -> Result<(), GraphError> {
        match self.delete_directed_edge(v1, v2) {
            Ok(_) => self.delete_directed_edge(v2, v1),
            Err(e) => Err(e),
        }
    }
}

impl<T, G: DirectedGraph<T>> UndirectionedGraph<T> for G {

}

} // verus!
