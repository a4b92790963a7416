//! Tests of the adjacency-list graph core.
use graphs::DiGraph;
use graphs::Directed;
use graphs::Direction;
use graphs::EdgeIndex;
use graphs::EdgeType;
use graphs::Edges;
use graphs::Externals;
use graphs::Graph;
use graphs::IndexType;
use graphs::IntoWeightedEdge;
use graphs::Neighbors;
use graphs::NodeIndex;
use graphs::UnGraph;
use graphs::Undirected;

fn neighbor_count(mut it: Neighbors<usize, u32>) -> usize {
    let mut c = 0;
    while it.next().is_some() {
        c += 1;
    }
    c
}

fn neighbor_vec(mut it: Neighbors<usize, u32>) -> Vec<NodeIndex<u32>> {
    let mut out = Vec::new();
    while let Some(n) = it.next() {
        out.push(n);
    }
    out
}

fn edges_count<Ty: EdgeType>(mut it: Edges<usize, Ty, u32>) -> usize {
    let mut c = 0;
    while it.next().is_some() {
        c += 1;
    }
    c
}

fn externals_vec<N, Ty: EdgeType>(mut it: Externals<N, Ty, u32>) -> Vec<NodeIndex<u32>> {
    let mut out = Vec::new();
    while let Some(n) = it.next() {
        out.push(n);
    }
    out
}

#[test]
fn direction() {
    assert_eq!(Direction::opposite(&Direction::Incoming), Direction::Outgoing);
    assert_eq!(Direction::opposite(&Direction::Outgoing), Direction::Incoming);
    assert_eq!(Direction::index(&Direction::Incoming), 1);
    assert_eq!(Direction::index(&Direction::Outgoing), 0);
}

#[test]
fn edge_type() {
    assert_eq!(Directed::is_directed(), true);
    assert_eq!(Undirected::is_directed(), false);
}

#[test]
fn into_weighted_edge() {
    assert_eq!((0, 0).into_weighted_edge(), (0, 0, usize::default()));
    assert_eq!((0, 0, 5).into_weighted_edge(), (0, 0, 5));
    assert_eq!(&(0, 0).into_weighted_edge(), &(0, 0, usize::default()));
    assert_eq!(&(0, 0, 5).into_weighted_edge(), &(0, 0, 5));
}

#[test]
fn index_type() {
    assert_eq!(<usize as IndexType>::new(3), 3usize);
    assert_eq!(<usize as IndexType>::index(&3), 3usize);
    assert_eq!(<usize as IndexType>::max(), usize::MAX);
    assert_eq!(<u32 as IndexType>::new(3), 3u32);
    assert_eq!(<u32 as IndexType>::index(&3), 3usize);
    assert_eq!(<u32 as IndexType>::max(), u32::MAX);
    assert_eq!(<u16 as IndexType>::new(3), 3u16);
    assert_eq!(<u16 as IndexType>::index(&3), 3usize);
    assert_eq!(<u16 as IndexType>::max(), u16::MAX);
    assert_eq!(<u8 as IndexType>::new(3), 3u8);
    assert_eq!(<u8 as IndexType>::index(&3), 3usize);
    assert_eq!(<u8 as IndexType>::max(), u8::MAX);
}

#[test]
fn node_and_edge_index() {
    assert_eq!(NodeIndex::<usize>::new(5).index(), 5);
    assert_eq!(NodeIndex::<usize>::end().index(), usize::MAX);
    assert_eq!(EdgeIndex::<usize>::new(5).index(), 5);
    assert_eq!(EdgeIndex::<usize>::end().index(), usize::MAX);
}

#[test]
fn empty_graph() {
    let dg: DiGraph<&str, usize> = Graph::new();
    let ug: UnGraph<&str, usize> = Graph::new_undirected();
    assert_eq!(dg.node_count(), 0);
    assert_eq!(ug.node_count(), 0);
    assert_eq!(dg.edge_count(), 0);
    assert_eq!(ug.edge_count(), 0);
    assert_eq!(dg.is_directed(), true);
    assert_eq!(ug.is_directed(), false);
    assert_eq!(dg.node_data(NodeIndex::new(0)), None);
    assert_eq!(ug.node_data(NodeIndex::new(0)), None);
    assert_eq!(dg.edge_weight(EdgeIndex::new(0)), None);
    assert_eq!(ug.edge_weight(EdgeIndex::new(0)), None);
    assert_eq!(dg.edge_endpoints(EdgeIndex::new(0)), None);
    assert_eq!(ug.edge_endpoints(EdgeIndex::new(0)), None);
    assert_eq!(neighbor_count(dg.neighbors(NodeIndex::new(0))), 0);
    assert_eq!(neighbor_count(ug.neighbors(NodeIndex::new(0))), 0);
    assert_eq!(
        neighbor_count(dg.neighbors_directed(NodeIndex::new(0), Direction::Incoming)),
        0
    );
    assert_eq!(
        neighbor_count(ug.neighbors_directed(NodeIndex::new(0), Direction::Incoming)),
        0
    );
    assert_eq!(neighbor_count(dg.neighbors_undirected(NodeIndex::new(0))), 0);
    assert_eq!(neighbor_count(ug.neighbors_undirected(NodeIndex::new(0))), 0);
    assert_eq!(edges_count(dg.edges(NodeIndex::new(0))), 0);
    assert_eq!(edges_count(ug.edges(NodeIndex::new(0))), 0);
    assert_eq!(edges_count(dg.edges_directed(NodeIndex::new(0), Direction::Incoming)), 0);
    assert_eq!(edges_count(ug.edges_directed(NodeIndex::new(0), Direction::Incoming)), 0);
    assert_eq!(edges_count(dg.edges_undirected(NodeIndex::new(0))), 0);
    assert_eq!(edges_count(ug.edges_undirected(NodeIndex::new(0))), 0);
    assert_eq!(dg.contains_edge(NodeIndex::new(0), NodeIndex::new(3)), false);
    assert_eq!(ug.contains_edge(NodeIndex::new(0), NodeIndex::new(3)), false);
    assert_eq!(dg.find_edge(NodeIndex::new(0), NodeIndex::new(3)), None);
    assert_eq!(ug.find_edge(NodeIndex::new(0), NodeIndex::new(3)), None);
    assert_eq!(dg.find_edge_undirected(NodeIndex::new(0), NodeIndex::new(3)), None);
    assert_eq!(ug.find_edge_undirected(NodeIndex::new(0), NodeIndex::new(3)), None);
    assert_eq!(externals_vec(dg.externals(Direction::Incoming)).len(), 0);
    assert_eq!(externals_vec(ug.externals(Direction::Incoming)).len(), 0);
    assert_eq!(externals_vec(dg.externals(Direction::Outgoing)).len(), 0);
    assert_eq!(externals_vec(ug.externals(Direction::Outgoing)).len(), 0);
    assert_eq!(dg.raw_nodes().is_empty(), true);
    assert_eq!(ug.raw_nodes().is_empty(), true);
    assert_eq!(dg.raw_edges().is_empty(), true);
    assert_eq!(ug.raw_edges().is_empty(), true);
    assert_eq!(dg.first_edge(NodeIndex::new(0), Direction::Outgoing), None);
    assert_eq!(ug.first_edge(NodeIndex::new(0), Direction::Outgoing), None);
    assert_eq!(dg.first_edge(NodeIndex::new(0), Direction::Incoming), None);
    assert_eq!(ug.first_edge(NodeIndex::new(0), Direction::Incoming), None);
    assert_eq!(dg.next_edge(NodeIndex::new(0), Direction::Outgoing), None);
    assert_eq!(ug.next_edge(NodeIndex::new(0), Direction::Outgoing), None);
    assert_eq!(dg.next_edge(NodeIndex::new(0), Direction::Incoming), None);
    assert_eq!(ug.next_edge(NodeIndex::new(0), Direction::Incoming), None);
}

#[test]
fn nodes() {
    let mut dg: DiGraph<&str, usize> = Graph::new();
    let mut ug: UnGraph<&str, usize> = Graph::new_undirected();
    assert_eq!(dg.node_count(), 0);
    assert_eq!(ug.node_count(), 0);
    let na = NodeIndex::new(0);
    assert_eq!(dg.add_node("a"), na);
    assert_eq!(ug.add_node("a"), na);
    assert_eq!(dg.node_count(), 1);
    assert_eq!(ug.node_count(), 1);
    assert_eq!(dg.node_data(na), Some(&"a"));
    assert_eq!(ug.node_data(na), Some(&"a"));
    dg.node_data_mut(na).map(|d| *d = "a*");
    ug.node_data_mut(na).map(|d| *d = "a*");
    assert_eq!(dg.node_data(na), Some(&"a*"));
    assert_eq!(ug.node_data(na), Some(&"a*"));
    let nb = NodeIndex::new(1);
    assert_eq!(dg.add_node("b"), nb);
    assert_eq!(ug.add_node("b"), nb);
    assert_eq!(dg.node_count(), 2);
    assert_eq!(ug.node_count(), 2);
    assert_eq!(dg.node_data(nb), Some(&"b"));
    assert_eq!(ug.node_data(nb), Some(&"b"));
    assert_eq!(dg.remove_node(nb), Some("b"));
    assert_eq!(ug.remove_node(nb), Some("b"));
    assert_eq!(dg.node_count(), 1);
    assert_eq!(ug.node_count(), 1);
    let mut dex = dg.externals(Direction::Outgoing);
    assert_eq!(dex.next(), Some(na));
    let mut uex = ug.externals(Direction::Outgoing);
    assert_eq!(uex.next(), Some(na));
}

#[test]
fn edges() {
    let mut dg: DiGraph<&str, usize> = Graph::new();
    let mut ug: UnGraph<&str, usize> = Graph::new_undirected();
    let na = dg.add_node("a");
    ug.add_node("a");
    let nb = dg.add_node("b");
    ug.add_node("b");
    let nc = dg.add_node("c");
    ug.add_node("c");
    assert_eq!(dg.edge_count(), 0);
    assert_eq!(ug.edge_count(), 0);
    let e1 = EdgeIndex::new(0);
    assert_eq!(dg.add_edge(na, nb, 5), e1);
    assert_eq!(ug.add_edge(na, nb, 5), e1);
    assert_eq!(dg.edge_count(), 1);
    assert_eq!(ug.edge_count(), 1);
    assert_eq!(dg.edge_weight(e1), Some(&5));
    assert_eq!(ug.edge_weight(e1), Some(&5));
    assert_eq!(dg.update_edge(na, nb, 7), e1);
    assert_eq!(ug.update_edge(na, nb, 7), e1);
    assert_eq!(dg.edge_count(), 1);
    assert_eq!(ug.edge_count(), 1);
    assert_eq!(dg.edge_weight(e1), Some(&7));
    assert_eq!(ug.edge_weight(e1), Some(&7));
    let e2 = EdgeIndex::new(1);
    assert_eq!(dg.update_edge(nb, nc, 9), e2);
    assert_eq!(ug.update_edge(nb, nc, 9), e2);
    assert_eq!(dg.edge_count(), 2);
    assert_eq!(ug.edge_count(), 2);
    assert_eq!(dg.edge_weight(e2), Some(&9));
    assert_eq!(ug.edge_weight(e2), Some(&9));
    dg.edge_weight_mut(e2).map(|w| *w = 10);
    ug.edge_weight_mut(e2).map(|w| *w = 10);
    assert_eq!(dg.edge_weight(e2), Some(&10));
    assert_eq!(ug.edge_weight(e2), Some(&10));
    assert_eq!(dg.edge_endpoints(e2), Some((nb, nc)));
    assert_eq!(ug.edge_endpoints(e2), Some((nb, nc)));
    assert_eq!(dg.contains_edge(nb, nc), true);
    assert_eq!(ug.contains_edge(nb, nc), true);
    assert_eq!(dg.contains_edge(nc, nb), false);
    assert_eq!(ug.contains_edge(nc, nb), true);
    assert_eq!(dg.find_edge(nb, nc), Some(e2));
    assert_eq!(ug.find_edge(nb, nc), Some(e2));
    assert_eq!(dg.find_edge_undirected(nc, nb), Some((e2, Direction::Incoming)));
    assert_eq!(ug.find_edge_undirected(nc, nb), Some((e2, Direction::Incoming)));
    assert_eq!(externals_vec(dg.source_nodes()), vec![na]);
    assert_eq!(externals_vec(dg.sink_nodes()), vec![nc]);
    assert_eq!(externals_vec(ug.externals(Direction::Incoming)).len(), 0);
    assert_eq!(externals_vec(ug.externals(Direction::Outgoing)).len(), 0);
}

#[test]
fn empty_directed_graph_has_no_externals() {
    let dg: DiGraph<&str, usize> = Graph::new();
    assert_eq!(dg.node_count(), 0);
    assert_eq!(externals_vec(dg.externals(Direction::Outgoing)).len(), 0);
}

#[test]
fn directed_chain_sources_and_sinks() {
    let mut dg: DiGraph<&str, usize> = Graph::new();
    let a = dg.add_node("a");
    let b = dg.add_node("b");
    let c = dg.add_node("c");
    dg.add_edge(a, b, 5);
    dg.add_edge(b, c, 9);
    assert_eq!(dg.edge_count(), 2);
    assert_eq!(externals_vec(dg.source_nodes()), vec![a]);
    assert_eq!(externals_vec(dg.sink_nodes()), vec![c]);
}

#[test]
fn undirected_reverse_lookup_reports_incoming() {
    let mut ug: UnGraph<&str, usize> = Graph::new_undirected();
    let a = ug.add_node("a");
    let b = ug.add_node("b");
    let e = ug.add_edge(a, b, 5);
    assert_eq!(ug.find_edge_undirected(b, a), Some((e, Direction::Incoming)));
    assert_eq!(ug.find_edge(b, a), Some(e));
    assert_eq!(ug.contains_edge(b, a), ug.contains_edge(a, b));
}

#[test]
fn removing_middle_node_removes_its_edges() {
    let mut dg: DiGraph<&str, usize> = Graph::new();
    let a = dg.add_node("a");
    let b = dg.add_node("b");
    let c = dg.add_node("c");
    dg.add_edge(a, b, 1);
    dg.add_edge(b, c, 2);
    assert_eq!(dg.remove_node(b), Some("b"));
    assert_eq!(dg.node_count(), 2);
    assert_eq!(dg.edge_count(), 0);
}

#[test]
fn self_loop_neighbor_reported_once() {
    let mut ug: UnGraph<&str, usize> = Graph::new_undirected();
    let a = ug.add_node("a");
    ug.add_edge(a, a, 1);
    assert_eq!(neighbor_vec(ug.neighbors(a)), vec![a]);
    assert_eq!(neighbor_count(ug.neighbors_undirected(a)), 1);
}

#[test]
fn parallel_edges_are_permitted() {
    let mut dg: DiGraph<&str, usize> = Graph::new();
    let a = dg.add_node("a");
    let b = dg.add_node("b");
    let e0 = dg.add_edge(a, b, 1);
    let e1 = dg.add_edge(a, b, 2);
    assert_ne!(e0, e1);
    assert_eq!(dg.edge_count(), 2);
    assert_eq!(dg.update_edge(a, b, 3), EdgeIndex::new(1));
    assert_eq!(dg.edge_count(), 2);
}

#[test]
fn removing_an_edge_moves_the_last_edge_index() {
    let mut dg: DiGraph<&str, usize> = Graph::new();
    let a = dg.add_node("a");
    let b = dg.add_node("b");
    let c = dg.add_node("c");
    let e0 = dg.add_edge(a, b, 10);
    dg.add_edge(b, c, 20);
    dg.add_edge(c, a, 30);
    assert_eq!(dg.remove_edge(e0), Some(10));
    assert_eq!(dg.edge_count(), 2);
    // the old last edge now answers to the removed index
    assert_eq!(dg.edge_weight(e0), Some(&30));
    assert_eq!(dg.edge_endpoints(e0), Some((c, a)));
    assert_eq!(dg.remove_edge(EdgeIndex::new(5)), None);
}

#[test]
fn removing_a_node_rewrites_displaced_endpoints() {
    let mut dg: DiGraph<&str, usize> = Graph::new();
    let a = dg.add_node("a");
    let c = dg.add_node("c");
    let d = dg.add_node("d");
    dg.add_edge(c, d, 7);
    assert_eq!(dg.remove_node(a), Some("a"));
    // node "d" (the old last index) adopted index 0
    assert_eq!(dg.node_count(), 2);
    assert_eq!(dg.node_data(NodeIndex::new(0)), Some(&"d"));
    assert_eq!(dg.edge_endpoints(EdgeIndex::new(0)), Some((c, NodeIndex::new(0))));
    assert_eq!(dg.edge_weight(EdgeIndex::new(0)), Some(&7));
    assert_eq!(dg.remove_node(NodeIndex::new(9)), None);
}

#[test]
fn capacity_is_at_least_the_counts() {
    let mut dg: DiGraph<&str, usize> = Graph::with_capacity(1, 1);
    let a = dg.add_node("a");
    let b = dg.add_node("b");
    dg.add_node("c");
    dg.add_edge(a, b, 1);
    dg.add_edge(b, a, 2);
    let (nc, ec) = dg.capacity();
    assert!(nc >= 3);
    assert!(ec >= 2);
    dg.reserve_nodes(10);
    dg.reserve_exact_edges(10);
    assert!(dg.capacity().0 >= 13);
    assert!(dg.capacity().1 >= 12);
    dg.shrink_to_fit();
    assert_eq!(dg.node_count(), 3);
    assert_eq!(dg.edge_count(), 2);
}

#[test]
fn reverse_flips_every_edge() {
    let mut dg: DiGraph<&str, usize> = Graph::new();
    let a = dg.add_node("a");
    let b = dg.add_node("b");
    dg.add_edge(a, b, 5);
    assert!(dg.contains_edge(a, b));
    assert!(!dg.contains_edge(b, a));
    dg.reverse();
    assert!(!dg.contains_edge(a, b));
    assert!(dg.contains_edge(b, a));
    assert_eq!(dg.edge_weight(EdgeIndex::new(0)), Some(&5));
}

#[test]
fn clear_edges_keeps_the_nodes() {
    let mut dg: DiGraph<&str, usize> = Graph::new();
    let a = dg.add_node("a");
    let b = dg.add_node("b");
    dg.add_edge(a, b, 5);
    dg.clear_edges();
    assert_eq!(dg.node_count(), 2);
    assert_eq!(dg.edge_count(), 0);
    assert_eq!(dg.node_data(a), Some(&"a"));
    dg.clear();
    assert_eq!(dg.node_count(), 0);
}

#[test]
fn into_edge_type_keeps_the_structure() {
    let mut dg: DiGraph<&str, usize> = Graph::new();
    let a = dg.add_node("a");
    let b = dg.add_node("b");
    dg.add_edge(a, b, 5);
    assert!(!dg.contains_edge(b, a));
    let ug: UnGraph<&str, usize> = dg.into_edge_type();
    assert!(ug.contains_edge(b, a));
    assert_eq!(ug.edge_count(), 1);
}

#[test]
fn from_edges_grows_the_node_array() {
    let elements: Vec<(NodeIndex<u32>, NodeIndex<u32>)> =
        vec![(NodeIndex::new(0), NodeIndex::new(1)), (NodeIndex::new(1), NodeIndex::new(3))];
    let g: DiGraph<usize, usize> = Graph::from_edges(&elements);
    assert_eq!(g.node_count(), 4);
    assert_eq!(g.edge_count(), 2);
    assert!(g.contains_edge(NodeIndex::new(1), NodeIndex::new(3)));
}

#[test]
fn node_and_edge_indices_are_dense() {
    let mut dg: DiGraph<&str, usize> = Graph::new();
    let a = dg.add_node("a");
    let b = dg.add_node("b");
    dg.add_edge(a, b, 1);
    let mut ni = dg.node_indices();
    assert_eq!(ni.next(), Some(NodeIndex::new(0)));
    assert_eq!(ni.next_back(), Some(NodeIndex::new(1)));
    assert_eq!(ni.next(), None);
    let mut ei = dg.edge_indices();
    assert_eq!(ei.size_hint(), (1, Some(1)));
    assert_eq!(ei.next(), Some(EdgeIndex::new(0)));
    assert_eq!(ei.next(), None);
}

#[test]
fn edge_references_list_all_edges() {
    let mut dg: DiGraph<&str, usize> = Graph::new();
    let a = dg.add_node("a");
    let b = dg.add_node("b");
    dg.add_edge(a, b, 5);
    dg.add_edge(b, a, 6);
    let mut it = dg.edge_references();
    let r0 = it.next().unwrap();
    assert_eq!(r0.index, EdgeIndex::new(0));
    assert_eq!(r0.source, a);
    assert_eq!(r0.target, b);
    assert_eq!(*r0.weight, 5);
    let r1 = it.next_back().unwrap();
    assert_eq!(r1.index, EdgeIndex::new(1));
    assert_eq!(*r1.weight, 6);
    assert!(it.next().is_none());
    assert!(r0.clone() == r0);
}

#[test]
fn detached_walker_allows_weight_mutation() {
    let mut dg: DiGraph<&str, usize> = Graph::new();
    let a = dg.add_node("a");
    let b = dg.add_node("b");
    let c = dg.add_node("c");
    dg.add_edge(a, b, 1);
    dg.add_edge(a, c, 2);
    let mut walker = dg.neighbors(a).detach();
    let mut seen = 0;
    while let Some((e, _n)) = walker.next(&dg) {
        dg.edge_weight_mut(e).map(|w| *w = *w + 100);
        seen += 1;
    }
    assert_eq!(seen, 2);
    assert_eq!(dg.edge_weight(EdgeIndex::new(0)), Some(&101));
    assert_eq!(dg.edge_weight(EdgeIndex::new(1)), Some(&102));
    let mut w2 = dg.neighbors(b).detach();
    assert_eq!(w2.next_node(&dg), None);
    let mut w3 = dg.neighbors(a).detach();
    assert_eq!(w3.next_edge(&dg), Some(EdgeIndex::new(1)));
}

#[test]
fn most_recently_added_neighbor_is_listed_first() {
    let mut dg: DiGraph<&str, usize> = Graph::new();
    let a = dg.add_node("a");
    let b = dg.add_node("b");
    let c = dg.add_node("c");
    dg.add_edge(a, b, 1);
    dg.add_edge(a, c, 2);
    assert_eq!(neighbor_vec(dg.neighbors(a)), vec![c, b]);
    assert_eq!(neighbor_vec(dg.neighbors_directed(b, Direction::Incoming)), vec![a]);
    assert_eq!(dg.first_edge(a, Direction::Outgoing), Some(EdgeIndex::new(1)));
    assert_eq!(dg.next_edge(NodeIndex::new(1), Direction::Outgoing), Some(EdgeIndex::new(0)));
}

#[test]
fn cloning_preserves_the_graph() {
    let mut dg: DiGraph<String, usize> = Graph::default();
    let a = dg.add_node(String::from("a"));
    let b = dg.add_node(String::from("b"));
    dg.add_edge(a, b, 5);
    let copy = dg.clone();
    assert_eq!(copy.node_count(), 2);
    assert_eq!(copy.edge_count(), 1);
    assert!(copy.contains_edge(a, b));
    assert_eq!(copy.node_data(a), Some(&String::from("a")));
    assert_eq!(copy.edge_weight(EdgeIndex::new(0)), Some(&5));
}

#[test]
fn update_edge_overwrites_even_at_full_index_space() {
    // with u8 indices the sentinel is 255, so 255 edges exhaust the space
    let mut g: Graph<&str, usize, Directed, u8> = Graph::with_capacity(0, 0);
    let a = g.add_node("a");
    let b = g.add_node("b");
    for w in 0..255usize {
        g.add_edge(a, b, w);
    }
    assert_eq!(g.edge_count(), 255);
    // no room for a new edge, but overwriting an existing one still works
    let e = g.update_edge(a, b, 999);
    assert_eq!(g.edge_count(), 255);
    assert_eq!(g.edge_weight(e), Some(&999));
    assert_eq!(g.find_edge(a, b), Some(e));
}

#[test]
fn weight_cursors_touch_every_record() {
    let mut dg: DiGraph<usize, usize> = Graph::new();
    let a = dg.add_node(1);
    let b = dg.add_node(2);
    dg.add_edge(a, b, 10);
    dg.add_edge(b, a, 20);
    let mut nw = dg.node_weights_mut();
    while let Some(d) = nw.next(&mut dg) {
        *d += 100;
    }
    assert_eq!(dg.node_data(a), Some(&101));
    assert_eq!(dg.node_data(b), Some(&102));
    let mut ew = dg.edge_weights_mut();
    assert_eq!(ew.size_hint(dg.edge_count()), (2, Some(2)));
    while let Some(w) = ew.next(&mut dg) {
        *w += 1;
    }
    assert_eq!(dg.edge_weight(EdgeIndex::new(0)), Some(&11));
    assert_eq!(dg.edge_weight(EdgeIndex::new(1)), Some(&21));
    assert!(dg.contains_edge(a, b));
    let (nodes, edges) = dg.into_nodes_edges();
    assert_eq!(nodes.len(), 2);
    assert_eq!(edges.len(), 2);
}

#[test]
fn node_references_walk_both_ends() {
    let mut dg: DiGraph<&str, usize> = Graph::new();
    dg.add_node("a");
    dg.add_node("b");
    let raw = dg.raw_nodes();
    assert_eq!(raw.len(), 2);
    assert_eq!(raw[0].data, "a");
    let re = dg.raw_edges();
    assert_eq!(re.len(), 0);
}
