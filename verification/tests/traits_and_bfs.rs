//! Tests of the abstract graph interface and the breadth-first search.
use graphs::bfs;
use graphs::GraphError;
use graphs::VertexId;
use graphs::Weight;
use graphs::DirectedGraph;
use graphs::UndirectionedGraph;
use graphs::traits::Graph;

#[test]
fn test_weight_order() {
    assert_eq!(Weight::Infinity, Weight::Infinity, "inf == inf");
    assert!(Weight::Infinity > Weight::W(5), "inf > 5");
    assert!(Weight::W(5) < Weight::Infinity, "5 < inf");
    assert!(Weight::W(3) < Weight::W(5), "3 < 5");
}

#[test]
fn weight_default_is_infinity() {
    assert_eq!(Weight::default(), Weight::Infinity);
}

/// A small dense adjacency graph used to exercise the trait interface and
/// the search.
struct TinyGraph {
    adj: Vec<Vec<(VertexId, Weight)>>,
    data: Vec<Option<String>>,
}

impl TinyGraph {
    fn new() -> Self {
        TinyGraph { adj: Vec::new(), data: Vec::new() }
    }
}

impl Graph<String> for TinyGraph {
    fn vertices(&self) -> Vec<VertexId> {
        (0..self.adj.len()).map(VertexId).collect()
    }

    fn edges(&self) -> Vec<(VertexId, VertexId, Weight)> {
        let mut out = Vec::new();
        for (from, nbrs) in self.adj.iter().enumerate() {
            for (to, w) in nbrs {
                out.push((VertexId(from), *to, *w));
            }
        }
        out
    }

    fn get_weight(&self, from: VertexId, to: VertexId) -> Result<Weight, GraphError> {
        if from.0 >= self.adj.len() || to.0 >= self.adj.len() {
            return Err(GraphError::InvalidVertex);
        }
        Ok(self.adj[from.0]
            .iter()
            .find(|(v, _)| *v == to)
            .map(|(_, w)| *w)
            .unwrap_or(Weight::Infinity))
    }

    fn create_vertex(&mut self, data: Option<String>) -> VertexId {
        self.adj.push(Vec::new());
        self.data.push(data);
        VertexId(self.adj.len() - 1)
    }

    fn delete_vertex(&mut self, vertex: VertexId) -> Result<(), GraphError> {
        if vertex.0 >= self.adj.len() {
            return Err(GraphError::InvalidVertex);
        }
        self.adj[vertex.0].clear();
        for nbrs in self.adj.iter_mut() {
            nbrs.retain(|(v, _)| *v != vertex);
        }
        Ok(())
    }

    fn set_data(&mut self, vertex: VertexId, data: String) -> Result<(), GraphError> {
        if vertex.0 >= self.data.len() {
            return Err(GraphError::InvalidVertex);
        }
        self.data[vertex.0] = Some(data);
        Ok(())
    }

    fn get_data(&self, vertex: VertexId) -> Result<Option<&String>, GraphError> {
        if vertex.0 >= self.data.len() {
            return Err(GraphError::InvalidVertex);
        }
        Ok(self.data[vertex.0].as_ref())
    }
}

impl DirectedGraph<String> for TinyGraph {
    fn outgoing_edges(&self, vertex: VertexId) -> Result<Vec<(VertexId, Weight)>, GraphError> {
        if vertex.0 >= self.adj.len() {
            return Err(GraphError::InvalidVertex);
        }
        Ok(self.adj[vertex.0].clone())
    }

    fn incoming_edges(&self, vertex: VertexId) -> Result<Vec<(VertexId, Weight)>, GraphError> {
        if vertex.0 >= self.adj.len() {
            return Err(GraphError::InvalidVertex);
        }
        let mut out = Vec::new();
        for (from, nbrs) in self.adj.iter().enumerate() {
            if let Some((_, w)) = nbrs.iter().find(|(v, _)| *v == vertex) {
                out.push((VertexId(from), *w));
            }
        }
        Ok(out)
    }

    fn create_directed_edge(
        &mut self,
        from: VertexId,
        to: VertexId,
        weight: Weight,
    ) -> Result<(), GraphError> {
        if from.0 >= self.adj.len() || to.0 >= self.adj.len() {
            return Err(GraphError::InvalidVertex);
        }
        self.adj[from.0].push((to, weight));
        Ok(())
    }

    fn delete_directed_edge(&mut self, from: VertexId, to: VertexId) -> Result<(), GraphError> {
        if from.0 >= self.adj.len() || to.0 >= self.adj.len() {
            return Err(GraphError::InvalidVertex);
        }
        self.adj[from.0].retain(|(v, _)| *v != to);
        Ok(())
    }
}

#[test]
fn trait_vertices_and_edges() {
    let mut g = TinyGraph::new();
    let handles = g.create_vertices(vec![
        Some(String::from("x")),
        Some(String::from("y")),
        None,
    ]);
    assert_eq!(handles.len(), 3);
    assert_eq!(g.vertices().len(), 3);
    g.create_directed_edge(handles[0], handles[1], Weight::W(4)).unwrap();
    assert_eq!(g.get_weight(handles[0], handles[1]), Ok(Weight::W(4)));
    assert_eq!(g.get_weight(handles[1], handles[0]), Ok(Weight::Infinity));
    assert_eq!(g.get_data(handles[0]), Ok(Some(&String::from("x"))));
    assert_eq!(g.get_data(handles[2]), Ok(None));
    g.set_data(handles[2], String::from("z")).unwrap();
    assert_eq!(g.get_data(handles[2]), Ok(Some(&String::from("z"))));
}

#[test]
fn invalid_vertex_is_reported() {
    let mut g = TinyGraph::new();
    let bogus = VertexId(7);
    assert_eq!(g.get_weight(bogus, bogus), Err(GraphError::InvalidVertex));
    assert_eq!(g.delete_vertex(bogus), Err(GraphError::InvalidVertex));
    assert_eq!(g.set_data(bogus, String::from("q")), Err(GraphError::InvalidVertex));
    assert_eq!(
        g.create_directed_edge(bogus, bogus, Weight::W(1)),
        Err(GraphError::InvalidVertex)
    );
}

#[test]
fn undirected_edges_go_both_ways() {
    let mut g = TinyGraph::new();
    let a = g.create_vertex(None);
    let b = g.create_vertex(None);
    g.create_undirected_edge(a, b, Weight::W(3)).unwrap();
    assert_eq!(g.get_weight(a, b), Ok(Weight::W(3)));
    assert_eq!(g.get_weight(b, a), Ok(Weight::W(3)));
    g.delete_undirected_edge(a, b).unwrap();
    assert_eq!(g.get_weight(a, b), Ok(Weight::Infinity));
    assert_eq!(g.get_weight(b, a), Ok(Weight::Infinity));
}

#[test]
fn bfs_finds_a_path() {
    let mut g = TinyGraph::new();
    let v0 = g.create_vertex(None);
    let v1 = g.create_vertex(None);
    let v2 = g.create_vertex(None);
    let v3 = g.create_vertex(None);
    g.create_directed_edge(v0, v1, Weight::W(1)).unwrap();
    g.create_directed_edge(v1, v2, Weight::W(1)).unwrap();
    g.create_directed_edge(v0, v3, Weight::W(1)).unwrap();
    let path = bfs(g, v0, v2).expect("path exists");
    assert_eq!(path, vec![v0, v1, v2]);
}

#[test]
fn bfs_start_equals_target() {
    let mut g = TinyGraph::new();
    let v0 = g.create_vertex(None);
    let path = bfs(g, v0, v0).expect("trivial path");
    assert_eq!(path, vec![v0]);
}

#[test]
fn bfs_reports_no_path() {
    let mut g = TinyGraph::new();
    let v0 = g.create_vertex(None);
    let v1 = g.create_vertex(None);
    let v2 = g.create_vertex(None);
    g.create_directed_edge(v1, v2, Weight::W(1)).unwrap();
    assert_eq!(bfs(g, v0, v2), None);
}

#[test]
fn bfs_gives_up_on_an_invalid_start() {
    let g = TinyGraph::new();
    assert_eq!(bfs(g, VertexId(0), VertexId(1)), None);
}
