//! Laws of the graph: properties that relate several operations, stated
//! and proved over the same spec functions the operations' contracts use.
use vstd::prelude::*;

use crate::index::Directed;
use crate::index::Undirected;
use crate::index::IndexType;
use crate::graph::Graph;
use crate::iterators::out_yields;
use crate::iterators::in_yields;
use crate::graph::Edge;

verus! {

/// Law: in an undirected graph, edge containment is symmetric — for all
/// `a` and `b`, `contains_edge(a, b)` equals `contains_edge(b, a)`.
pub proof fn lemma_undirected_contains_symmetric<N, E, Ix: IndexType>(
    g: Graph<N, E, Undirected, Ix>,
    a: int,
    b: int,
)
    requires
        g.wf(),
    ensures
        g.spec_contains_edge(a, b) == g.spec_contains_edge(b, a),
{
}

/// Law: adding an edge from `a` to `b` to an undirected graph makes the
/// lookup from `b` to `a` succeed. The graph after the addition is
/// related to the one before as `add_edge`'s contract states.
pub proof fn lemma_undirected_add_edge_symmetric<N, E, Ix: IndexType>(
    g1: Graph<N, E, Undirected, Ix>,
    g2: Graph<N, E, Undirected, Ix>,
    a: int,
    b: int,
)
    requires
        g2.wf(),
        g2.elen() == g1.elen() + 1,
        g2.node_of(g1.elen(), 0) == a,
        g2.node_of(g1.elen(), 1) == b,
    ensures
        g2.spec_contains_edge(b, a),
        g2.spec_find_undirected(b, a) is Some,
{
    assert(g2.edge_connects(g1.elen(), a, b));
    assert(g2.spec_connected(a, b));
    g2.lemma_find_edge_exists(b, a);
}

/// Law: adding an edge from `a` to `b` to a directed graph does not make
/// `contains_edge(b, a)` true unless `a == b` or a separate reverse edge
/// already existed: containment from `b` to `a` is exactly what it was
/// before. The graph after the addition is related to the one before as
/// `add_edge`'s contract states.
pub proof fn lemma_directed_add_edge_asymmetric<N, E, Ix: IndexType>(
    g1: Graph<N, E, Directed, Ix>,
    g2: Graph<N, E, Directed, Ix>,
    a: int,
    b: int,
)
    requires
        g2.elen() == g1.elen() + 1,
        forall|e: int| 0 <= e < g1.elen() ==> #[trigger] g2.triple(e) == g1.triple(e),
        g2.node_of(g1.elen(), 0) == a,
        g2.node_of(g1.elen(), 1) == b,
        a != b,
    ensures
        g2.spec_contains_edge(b, a) == g1.spec_contains_edge(b, a),
{
    if g2.spec_connected(b, a) {
        let e = choose|e: int| 0 <= e < g2.elen() && #[trigger] g2.edge_connects(e, b, a);
        if e < g1.elen() {
            assert(g2.triple(e) == g1.triple(e));
            assert(g1.edge_connects(e, b, a));
        } else {
            assert(g2.node_of(e, 0) == a && g2.node_of(e, 1) == b);
            assert(a == b);
        }
    }
    if g1.spec_connected(b, a) {
        let e = choose|e: int| 0 <= e < g1.elen() && #[trigger] g1.edge_connects(e, b, a);
        assert(g2.triple(e) == g1.triple(e));
        assert(g2.edge_connects(e, b, a));
    }
}

/// Law: on a well-formed graph, a node is external in direction `k`
/// exactly when no edge has it as its direction-`k` endpoint — and, for
/// undirected graphs, when no edge touches it at all.
pub proof fn lemma_external_meaning<N, E, Ty: crate::index::EdgeType, Ix: IndexType>(
    g: Graph<N, E, Ty, Ix>,
    n: int,
    k: int,
)
    requires
        g.wf(),
        0 <= n < g.nlen(),
        0 <= k < 2,
    ensures
        crate::iterators::node_is_external(g.nodes@, n, k, Ty::spec_is_directed()) == (
        if Ty::spec_is_directed() {
            forall|e: int| 0 <= e < g.elen() ==> #[trigger] g.node_of(e, k) != n
        } else {
            forall|e: int|
                0 <= e < g.elen() ==> #[trigger] g.node_of(e, 0) != n && g.node_of(e, 1) != n
        }),
{
    lemma_empty_list_means_no_edges(g, n, 0);
    lemma_empty_list_means_no_edges(g, n, 1);
    let sent = crate::iterators::sentinel::<Ix>();
    assert(g.head_of(n, 0) == g.nodes@[n].nhead(0));
    assert(g.head_of(n, 1) == g.nodes@[n].nhead(1));
    if Ty::spec_is_directed() {
        if k == 0 {
            assert((g.head_of(n, 0) == sent) == (forall|e: int|
                0 <= e < g.elen() ==> #[trigger] g.node_of(e, 0) != n));
        } else {
            assert((g.head_of(n, 1) == sent) == (forall|e: int|
                0 <= e < g.elen() ==> #[trigger] g.node_of(e, 1) != n));
        }
    } else {
        if g.nodes@[n].nhead(0) == sent && g.nodes@[n].nhead(1) == sent {
            assert forall|e: int|
                0 <= e < g.elen() implies #[trigger] g.node_of(e, 0) != n && g.node_of(e, 1)
                != n by {
                assert(g.node_of(e, 0) != n);
                assert(g.node_of(e, 1) != n);
            }
        } else {
            if g.nodes@[n].nhead(0) != sent {
                assert(!(forall|e: int| 0 <= e < g.elen() ==> #[trigger] g.node_of(e, 0) != n));
                let e = choose|e: int| 0 <= e < g.elen() && #[trigger] g.node_of(e, 0) == n;
                assert(!(g.node_of(e, 0) != n && g.node_of(e, 1) != n));
            } else {
                assert(!(forall|e: int| 0 <= e < g.elen() ==> #[trigger] g.node_of(e, 1) != n));
                let e = choose|e: int| 0 <= e < g.elen() && #[trigger] g.node_of(e, 1) == n;
                assert(!(g.node_of(e, 0) != n && g.node_of(e, 1) != n));
            }
        }
    }
}

/// On a well-formed graph, a node's direction-`k` list head is the
/// sentinel exactly when no edge has the node as its direction-`k`
/// endpoint.
proof fn lemma_empty_list_means_no_edges<N, E, Ty: crate::index::EdgeType, Ix: IndexType>(
    g: Graph<N, E, Ty, Ix>,
    n: int,
    k: int,
)
    requires
        g.wf(),
        0 <= n < g.nlen(),
        0 <= k < 2,
    ensures
        (g.head_of(n, k) == crate::iterators::sentinel::<Ix>()) == (forall|e: int|
            0 <= e < g.elen() ==> #[trigger] g.node_of(e, k) != n),
{
    assert(g.chain_ok(k, n));
    let c = g.chain(k, n);
    if c.len() == 0 {
        assert forall|e: int| 0 <= e < g.elen() implies #[trigger] g.node_of(e, k) != n by {
            if g.node_of(e, k) == n {
                assert(g.in_own_chain(k, e));
                assert(c.contains(e));
            }
        }
    } else {
        assert(0 <= c[0] < g.elen());
        assert(g.node_of(c[0], k) == n);
        assert(g.head_of(n, k) == c[0]);
    }
}

/// How many entries of a neighbor-yield sequence report edge `e`.
pub open spec fn count_edge_reports(ys: Seq<(int, int)>, e: int) -> int
    decreases ys.len(),
{
    if ys.len() == 0 {
        0
    } else {
        (if ys[0].0 == e {
            1int
        } else {
            0int
        }) + count_edge_reports(ys.drop_first(), e)
    }
}

/// The count distributes over concatenation.
proof fn lemma_count_reports_add(y1: Seq<(int, int)>, y2: Seq<(int, int)>, e: int)
    ensures
        count_edge_reports(y1 + y2, e) == count_edge_reports(y1, e) + count_edge_reports(y2, e),
    decreases y1.len(),
{
    if y1.len() == 0 {
        assert(y1 + y2 =~= y2);
    } else {
        assert((y1 + y2).drop_first() =~= y1.drop_first() + y2);
        assert((y1 + y2)[0] == y1[0]);
        lemma_count_reports_add(y1.drop_first(), y2, e);
    }
}

/// An outgoing walk reports `e` exactly once when `e` occurs exactly once
/// on the walked list.
proof fn lemma_out_yields_count<E, Ix: IndexType>(
    edges: Seq<Edge<E, Ix>>,
    c: Seq<int>,
    e: int,
    n: int,
)
    requires
        0 <= n <= 1,
        n == 1 ==> c.contains(e),
        n == 0 ==> !c.contains(e),
        forall|j1: int, j2: int| 0 <= j1 < j2 < c.len() ==> c[j1] != c[j2],
    ensures
        count_edge_reports(out_yields(edges, c), e) == n,
    decreases c.len(),
{
    let ys = out_yields(edges, c);
    if c.len() == 0 {
        assert(n == 0) by {
            if n == 1 {
                assert(c.contains(e));
            }
        }
    } else {
        assert(ys[0].0 == c[0]);
        assert(ys.drop_first() =~= out_yields(edges, c.drop_first()));
        assert forall|j: int|
            0 <= j < c.drop_first().len() implies #[trigger] c.drop_first()[j] == c[j + 1] by {}
        if c[0] == e {
            assert(n == 1) by {
                assert(c.contains(c[0]));
            }
            if c.drop_first().contains(e) {
                let j = choose|j: int| 0 <= j < c.drop_first().len() && c.drop_first()[j] == e;
                assert(c[j + 1] == e && c[0] == e);
                assert(false);
            }
            lemma_out_yields_count(edges, c.drop_first(), e, 0);
        } else {
            if n == 1 {
                let j = choose|j: int| 0 <= j < c.len() && c[j] == e;
                assert(c.drop_first()[j - 1] == e);
                assert(c.drop_first().contains(e));
            } else {
                if c.drop_first().contains(e) {
                    let j = choose|j: int|
                        0 <= j < c.drop_first().len() && c.drop_first()[j] == e;
                    assert(c[j + 1] == e);
                    assert(c.contains(c[j + 1]));
                    assert(false);
                }
            }
            lemma_out_yields_count(edges, c.drop_first(), e, n);
        }
    }
}

/// An incoming walk never reports `e` when every occurrence of `e` on the
/// walked list is a skipped self-loop.
proof fn lemma_in_yields_skips<E, Ix: IndexType>(
    edges: Seq<Edge<E, Ix>>,
    c: Seq<int>,
    skip: int,
    e: int,
)
    requires
        forall|j: int|
            0 <= j < c.len() && #[trigger] c[j] == e ==> edges[e].endpoint(0) == skip,
    ensures
        count_edge_reports(in_yields(edges, c, skip), e) == 0,
    decreases c.len(),
{
    if c.len() > 0 {
        assert forall|j: int|
            0 <= j < c.drop_first().len() && #[trigger] c.drop_first()[j]
                == e implies edges[e].endpoint(0) == skip by {
            assert(c.drop_first()[j] == c[j + 1]);
        }
        lemma_in_yields_skips(edges, c.drop_first(), skip, e);
        if edges[c[0]].endpoint(0) == skip {
        } else {
            let one = seq![(c[0], edges[c[0]].endpoint(0))];
            lemma_count_reports_add(one, in_yields(edges, c.drop_first(), skip), e);
            assert(c[0] != e);
            assert(count_edge_reports(one, e) == 0) by {
                assert(one.len() == 1);
                assert(one[0].0 == c[0]);
                assert(one.drop_first() =~= Seq::<(int, int)>::empty());
                assert(count_edge_reports(one.drop_first(), e) == 0);
            }
        }
    }
}

/// Law: an undirected neighbor walk from `a` reports a self-loop at `a`
/// exactly once — from the outgoing list, while the incoming list skips
/// it — not twice.
pub proof fn lemma_self_loop_reported_once<N, E, Ix: IndexType>(
    g: Graph<N, E, Undirected, Ix>,
    a: int,
    e: int,
)
    requires
        g.wf(),
        0 <= e < g.elen(),
        g.node_of(e, 0) == a,
        g.node_of(e, 1) == a,
    ensures
        count_edge_reports(g.und_neighbor_yields(a), e) == 1,
{
    assert(0 <= a < g.nlen());
    let c0 = g.chain(0, a);
    let c1 = g.chain(1, a);
    assert(g.chain_ok(0, a));
    assert(g.chain_ok(1, a));
    assert(g.in_own_chain(0, e));
    assert(c0.contains(e));
    lemma_out_yields_count(g.edges@, c0, e, 1);
    assert forall|j: int|
        0 <= j < c1.len() && #[trigger] c1[j] == e implies g.edges@[e].endpoint(0) == a by {}
    lemma_in_yields_skips(g.edges@, c1, a, e);
    lemma_count_reports_add(
        out_yields(g.edges@, c0),
        in_yields(g.edges@, c1, a),
        e,
    );
}

} // verus!
