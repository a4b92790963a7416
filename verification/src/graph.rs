//! The adjacency-list graph: two flat arrays of node and edge records,
//! threaded by per-direction intrusive singly-linked edge lists.
use vstd::prelude::*;

use core::marker::PhantomData;
use crate::index::Direction;
use crate::index::Directed;
use crate::index::Undirected;
use crate::index::EdgeType;
use crate::index::IndexType;
use crate::index::DefaultIx;
use crate::index::NodeIndex;
use crate::index::EdgeIndex;

verus! {

/// The graph's node type.
#[derive(Debug)]
pub struct Node<N, Ix = DefaultIx> {
    /// Associated node data.
    pub data: N,
    /// Head of this node's outgoing edge list.
    pub next_out: EdgeIndex<Ix>,
    /// Head of this node's incoming edge list.
    pub next_in: EdgeIndex<Ix>,
}

impl<N, Ix: IndexType> Node<N, Ix> {
    /// The head of the edge list in direction `k` (0 outgoing, 1 incoming),
    /// as a spec-level integer.
    pub open spec fn nhead(self, k: int) -> int {
        if k == 0 {
            self.next_out.idx()
        } else {
            self.next_in.idx()
        }
    }

    /// Accessor for data structure internals:
    /// the first edge in the given direction.
    pub fn next_edge(&self, dir: Direction) -> (r: EdgeIndex<Ix>)
        ensures
            r.idx() == self.nhead(dir.k()),
    {
        match dir {
            Direction::Outgoing => self.next_out,
            Direction::Incoming => self.next_in,
        }
    }
}

/// The graph's edge type.
#[derive(Debug)]
pub struct Edge<E, Ix = DefaultIx> {
    /// Associated edge data.
    pub weight: E,
    /// Next edge in the source node's outgoing edge list.
    pub next_out: EdgeIndex<Ix>,
    /// Next edge in the target node's incoming edge list.
    pub next_in: EdgeIndex<Ix>,
    /// Source node index.
    pub src: NodeIndex<Ix>,
    /// Target node index.
    pub dst: NodeIndex<Ix>,
}

impl<E, Ix: IndexType> Edge<E, Ix> {
    /// The next link in direction `k`, as a spec-level integer.
    pub open spec fn enext(self, k: int) -> int {
        if k == 0 {
            self.next_out.idx()
        } else {
            self.next_in.idx()
        }
    }

    /// The endpoint owning the direction-`k` list this edge is threaded on:
    /// the source for `k == 0`, the target for `k == 1`.
    pub open spec fn endpoint(self, k: int) -> int {
        if k == 0 {
            self.src.idx()
        } else {
            self.dst.idx()
        }
    }

    /// Accessor for data structure internals:
    /// the next edge in the given direction.
    pub fn next_edge(&self, dir: Direction) -> (r: EdgeIndex<Ix>)
        ensures
            r.idx() == self.enext(dir.k()),
    {
        match dir {
            Direction::Outgoing => self.next_out,
            Direction::Incoming => self.next_in,
        }
    }

    /// Return the source node index.
    pub fn source(&self) -> (r: NodeIndex<Ix>)
        ensures
            r.idx() == self.endpoint(0),
    {
        self.src
    }

    /// Return the target node index.
    pub fn target(&self) -> (r: NodeIndex<Ix>)
        ensures
            r.idx() == self.endpoint(1),
    {
        self.dst
    }
}

/// Ghost model of the intrusive adjacency lists: for each direction and
/// each node, the sequence of edge indices on that node's list, in list
/// order.
pub struct AdjChains {
    /// Outgoing list of each node, keyed by node index.
    pub cout: Map<int, Seq<int>>,
    /// Incoming list of each node, keyed by node index.
    pub cin: Map<int, Seq<int>>,
}

impl AdjChains {
    /// The direction-`k` list of node `n`.
    pub open spec fn at(self, k: int, n: int) -> Seq<int> {
        if k == 0 {
            self.cout[n]
        } else {
            self.cin[n]
        }
    }
}

/// `Graph<N, E, Ty, Ix>` is a graph datastructure using an adjacency list
/// representation.
///
/// `Graph` is parameterized over:
///
/// - Associated data `N` for nodes and `E` for edges (*weight*).
/// - Edge type `Ty` that determines whether the graph edges are directed
///   or undirected.
/// - Index type `Ix`, which determines the maximum size of the graph.
///
/// Node and edge indices each range over a compact interval: for *n* nodes
/// the valid indices are exactly 0 to *n* - 1. Adding nodes or edges keeps
/// indices stable; removing swaps the last element into the freed slot, so
/// the last index moves.
pub struct Graph<N, E, Ty = Directed, Ix = DefaultIx> {
    /// The node records.
    pub nodes: Vec<Node<N, Ix>>,
    /// The edge records.
    pub edges: Vec<Edge<E, Ix>>,
    /// Marker for the edge type.
    pub ty: PhantomData<Ty>,
    /// Ghost model of the adjacency lists.
    pub chains: Ghost<AdjChains>,
}

/// A `Graph` with directed edges.
pub type DiGraph<N, E, Ix = DefaultIx> = Graph<N, E, Directed, Ix>;

/// A `Graph` with undirected edges.
pub type UnGraph<N, E, Ix = DefaultIx> = Graph<N, E, Undirected, Ix>;

impl<N, E, Ty: EdgeType, Ix: IndexType> Graph<N, E, Ty, Ix> {
    /// The number of nodes, as a spec value.
    pub open spec fn nlen(self) -> int {
        self.nodes@.len() as int
    }

    /// The number of edges, as a spec value.
    pub open spec fn elen(self) -> int {
        self.edges@.len() as int
    }

    /// The sentinel index value meaning "no node/edge".
    pub open spec fn endv() -> int {
        Ix::spec_max() as int
    }

    /// The data of node `n`.
    pub open spec fn data_of(self, n: int) -> N {
        self.nodes@[n].data
    }

    /// The weight of edge `e`.
    pub open spec fn wt_of(self, e: int) -> E {
        self.edges@[e].weight
    }

    /// The head of node `n`'s direction-`k` list.
    pub open spec fn head_of(self, n: int, k: int) -> int {
        self.nodes@[n].nhead(k)
    }

    /// The next link of edge `e` in direction `k`.
    pub open spec fn next_of(self, e: int, k: int) -> int {
        self.edges@[e].enext(k)
    }

    /// The direction-`k` endpoint of edge `e` (source for 0, target for 1).
    pub open spec fn node_of(self, e: int, k: int) -> int {
        self.edges@[e].endpoint(k)
    }

    /// The (source, target, weight) triple of edge `e`.
    pub open spec fn triple(self, e: int) -> (int, int, E) {
        (self.node_of(e, 0), self.node_of(e, 1), self.wt_of(e))
    }

    /// All edge triples, in index order.
    pub open spec fn triples(self) -> Seq<(int, int, E)> {
        Seq::new(self.elen() as nat, |e: int| self.triple(e))
    }

    /// The direction-`k` list of node `n`, from the ghost model.
    pub open spec fn chain(self, k: int, n: int) -> Seq<int> {
        self.chains@.at(k, n)
    }

    /// The direction-`k` list of node `n` is properly linked: its entries
    /// are distinct valid edges whose `k`-endpoint is `n`, the node's head
    /// points at the first entry, each entry's next link points at the
    /// following entry, and the last entry's next link is the sentinel.
    pub open spec fn chain_ok(self, k: int, n: int) -> bool {
        let c = self.chain(k, n);
        &&& forall|j: int|
            0 <= j < c.len() ==> 0 <= #[trigger] c[j] < self.elen() && self.node_of(c[j], k) == n
        &&& forall|j1: int, j2: int| 0 <= j1 < j2 < c.len() ==> c[j1] != c[j2]
        &&& self.head_of(n, k) == (if c.len() == 0 {
            Self::endv()
        } else {
            c[0]
        })
        &&& forall|j: int| 0 <= j < c.len() - 1 ==> #[trigger] self.next_of(c[j], k) == c[j + 1]
        &&& (c.len() > 0 ==> self.next_of(c[c.len() - 1], k) == Self::endv())
    }

    /// Edge `e` appears on the direction-`k` list of its own `k`-endpoint.
    pub open spec fn in_own_chain(self, k: int, e: int) -> bool {
        self.chain(k, self.node_of(e, k)).contains(e)
    }

    /// The structural invariant of the graph.
    ///
    /// Node and edge counts stay below the sentinel, every edge endpoint is
    /// a valid node index, every adjacency list is properly linked, and
    /// every edge is on the two lists of its endpoints (its source's
    /// outgoing list and its target's incoming list).
    pub open spec fn wf(self) -> bool {
        &&& self.nlen() <= Ix::spec_max()
        &&& self.elen() <= Ix::spec_max()
        &&& forall|e: int, k: int|
            0 <= e < self.elen() && 0 <= k < 2 ==> 0 <= #[trigger] self.node_of(e, k)
                < self.nlen()
        &&& forall|k: int, n: int|
            0 <= k < 2 && 0 <= n < self.nlen() ==> #[trigger] self.chain_ok(k, n)
        &&& forall|e: int, k: int|
            0 <= e < self.elen() && 0 <= k < 2 ==> #[trigger] self.in_own_chain(k, e)
    }

    /// Whether edge `e` runs from `a` to `b` (in stored orientation).
    pub open spec fn edge_connects(self, e: int, a: int, b: int) -> bool {
        self.node_of(e, 0) == a && self.node_of(e, 1) == b
    }

    /// Whether some edge runs from `a` to `b` (in stored orientation).
    pub open spec fn spec_connected(self, a: int, b: int) -> bool {
        exists|e: int| 0 <= e < self.elen() && #[trigger] self.edge_connects(e, a, b)
    }

    /// Whether the graph contains an edge from `a` to `b`, honoring
    /// directedness: an undirected graph also accepts the reverse
    /// orientation.
    pub open spec fn spec_contains_edge(self, a: int, b: int) -> bool {
        if Ty::spec_is_directed() {
            self.spec_connected(a, b)
        } else {
            self.spec_connected(a, b) || self.spec_connected(b, a)
        }
    }

    /// The first edge on list `c` (walked in direction `k`) whose
    /// direction-`1 - k` endpoint is `b`, if any.
    pub open spec fn find_in_chain(self, c: Seq<int>, k: int, b: int) -> Option<int>
        decreases c.len(),
    {
        if c.len() == 0 {
            None
        } else if self.node_of(c[0], 1 - k) == b {
            Some(c[0])
        } else {
            self.find_in_chain(c.drop_first(), k, b)
        }
    }

    /// The edge a directed lookup from `a` to `b` finds: the first edge on
    /// `a`'s outgoing list whose target is `b`.
    pub open spec fn spec_find_directed(self, a: int, b: int) -> Option<int> {
        if 0 <= a < self.nlen() {
            self.find_in_chain(self.chain(0, a), 0, b)
        } else {
            None
        }
    }

    /// The edge and matching direction an undirected lookup from `a` to `b`
    /// finds: first on `a`'s outgoing list, then on `a`'s incoming list.
    pub open spec fn spec_find_undirected(self, a: int, b: int) -> Option<(int, Direction)> {
        if 0 <= a < self.nlen() {
            match self.find_in_chain(self.chain(0, a), 0, b) {
                Some(e) => Some((e, Direction::Outgoing)),
                None => match self.find_in_chain(self.chain(1, a), 1, b) {
                    Some(e) => Some((e, Direction::Incoming)),
                    None => None,
                },
            }
        } else {
            None
        }
    }

    /// The edge `find_edge` finds, honoring directedness.
    pub open spec fn spec_find_edge(self, a: int, b: int) -> Option<int> {
        if Ty::spec_is_directed() {
            self.spec_find_directed(a, b)
        } else {
            match self.spec_find_undirected(a, b) {
                Some(p) => Some(p.0),
                None => None,
            }
        }
    }

    /// A chain walk returns `None` exactly when no entry matches.
    pub proof fn lemma_find_chain_none(self, c: Seq<int>, k: int, b: int)
        ensures
            (self.find_in_chain(c, k, b) is None) <==> (forall|j: int|
                0 <= j < c.len() ==> self.node_of(#[trigger] c[j], 1 - k) != b),
        decreases c.len(),
    {
        if c.len() > 0 {
            self.lemma_find_chain_none(c.drop_first(), k, b);
            let d = c.drop_first();
            if self.node_of(c[0], 1 - k) == b {
                assert(self.find_in_chain(c, k, b) is Some);
            } else if self.find_in_chain(d, k, b) is None {
                assert forall|j: int|
                    0 <= j < c.len() implies self.node_of(#[trigger] c[j], 1 - k) != b by {
                    if j > 0 {
                        assert(d[j - 1] == c[j]);
                        assert(self.node_of(d[j - 1], 1 - k) != b);
                    }
                }
            } else {
                assert(!(forall|j: int|
                    0 <= j < d.len() ==> self.node_of(#[trigger] d[j], 1 - k) != b));
                let j = choose|j: int|
                    0 <= j < d.len() && self.node_of(#[trigger] d[j], 1 - k) == b;
                assert(c[j + 1] == d[j]);
                assert(self.node_of(c[j + 1], 1 - k) == b);
            }
        }
    }

    /// A chain walk that returns an edge returns a matching entry of the
    /// chain.
    pub proof fn lemma_find_chain_sound(self, c: Seq<int>, k: int, b: int)
        requires
            self.find_in_chain(c, k, b) is Some,
        ensures
            c.contains(self.find_in_chain(c, k, b).unwrap()),
            self.node_of(self.find_in_chain(c, k, b).unwrap(), 1 - k) == b,
        decreases c.len(),
    {
        if c.len() > 0 {
            if self.node_of(c[0], 1 - k) == b {
                assert(c.contains(c[0]));
            } else {
                self.lemma_find_chain_sound(c.drop_first(), k, b);
                let e = self.find_in_chain(c.drop_first(), k, b).unwrap();
                let j = choose|j: int|
                    0 <= j < c.drop_first().len() && c.drop_first()[j] == e;
                assert(c[j + 1] == e);
            }
        }
    }

    /// On a well-formed graph, the chain walks from `a` find an edge if and
    /// only if a matching edge exists anywhere in the edge array; and what
    /// they find indeed matches.
    pub proof fn lemma_find_edge_exists(self, a: int, b: int)
        requires
            self.wf(),
        ensures
            (self.spec_find_directed(a, b) is Some) <==> self.spec_connected(a, b),
            (self.spec_find_undirected(a, b) is Some) <==> (self.spec_connected(a, b)
                || self.spec_connected(b, a)),
            (self.spec_find_edge(a, b) is Some) <==> self.spec_contains_edge(a, b),
            match self.spec_find_directed(a, b) {
                Some(e) => 0 <= e < self.elen() && self.edge_connects(e, a, b),
                None => true,
            },
            match self.spec_find_undirected(a, b) {
                Some(p) => 0 <= p.0 < self.elen() && (if p.1 == Direction::Outgoing {
                    self.edge_connects(p.0, a, b)
                } else {
                    self.edge_connects(p.0, b, a)
                }),
                None => true,
            },
    {
        if 0 <= a < self.nlen() {
            assert(self.chain_ok(0, a));
            assert(self.chain_ok(1, a));
            let cout = self.chain(0, a);
            let cin = self.chain(1, a);
            self.lemma_find_chain_none(cout, 0, b);
            self.lemma_find_chain_none(cin, 1, b);
            if self.find_in_chain(cout, 0, b) is Some {
                self.lemma_find_chain_sound(cout, 0, b);
                let e = self.find_in_chain(cout, 0, b).unwrap();
                let j = choose|j: int| 0 <= j < cout.len() && cout[j] == e;
                assert(self.node_of(e, 0) == a);
                assert(self.edge_connects(e, a, b));
            }
            if self.find_in_chain(cin, 1, b) is Some {
                self.lemma_find_chain_sound(cin, 1, b);
                let e = self.find_in_chain(cin, 1, b).unwrap();
                let j = choose|j: int| 0 <= j < cin.len() && cin[j] == e;
                assert(self.node_of(e, 1) == a);
                assert(self.edge_connects(e, b, a));
            }
            if self.spec_connected(a, b) {
                let e = choose|e: int|
                    0 <= e < self.elen() && #[trigger] self.edge_connects(e, a, b);
                assert(self.in_own_chain(0, e));
                assert(cout.contains(e));
                let j = choose|j: int| 0 <= j < cout.len() && cout[j] == e;
                assert(self.node_of(cout[j], 1) == b);
                assert(self.find_in_chain(cout, 0, b) is Some);
            }
            if self.spec_connected(b, a) && self.find_in_chain(cout, 0, b) is None {
                let e = choose|e: int|
                    0 <= e < self.elen() && #[trigger] self.edge_connects(e, b, a);
                assert(self.in_own_chain(1, e));
                assert(cin.contains(e));
                let j = choose|j: int| 0 <= j < cin.len() && cin[j] == e;
                assert(self.node_of(cin[j], 0) == b);
                assert(self.find_in_chain(cin, 1, b) is Some);
            }
        } else {
            if self.spec_connected(a, b) {
                let e = choose|e: int|
                    0 <= e < self.elen() && #[trigger] self.edge_connects(e, a, b);
                assert(0 <= self.node_of(e, 0) < self.nlen());
                assert(false);
            }
            if self.spec_connected(b, a) {
                let e = choose|e: int|
                    0 <= e < self.elen() && #[trigger] self.edge_connects(e, b, a);
                assert(0 <= self.node_of(e, 1) < self.nlen());
                assert(false);
            }
        }
    }

    /// A chain walk gives the same result in any graph that agrees on the
    /// endpoints of the (valid) entries the walk inspects.
    pub proof fn lemma_find_in_chain_frame(
        g1: Graph<N, E, Ty, Ix>,
        g2: Graph<N, E, Ty, Ix>,
        c: Seq<int>,
        k: int,
        b: int,
    )
        requires
            0 <= k < 2,
            g2.elen() == g1.elen(),
            forall|j: int| 0 <= j < c.len() ==> 0 <= #[trigger] c[j] < g1.elen(),
            forall|e: int, kk: int|
                0 <= e < g1.elen() && 0 <= kk < 2 ==> #[trigger] g2.node_of(e, kk) == g1.node_of(
                    e,
                    kk,
                ),
        ensures
            g2.find_in_chain(c, k, b) == g1.find_in_chain(c, k, b),
        decreases c.len(),
    {
        if c.len() > 0 {
            assert(g2.node_of(c[0], 1 - k) == g1.node_of(c[0], 1 - k));
            assert forall|j: int|
                0 <= j < c.drop_first().len() implies 0 <= #[trigger] c.drop_first()[j]
                < g1.elen() by {
                assert(c.drop_first()[j] == c[j + 1]);
            }
            Self::lemma_find_in_chain_frame(g1, g2, c.drop_first(), k, b);
        }
    }

    /// Lookups depend only on the adjacency structure: two graphs with the
    /// same node count, the same lists and the same endpoints find the same
    /// edges, whatever happened to weights or node data.
    pub proof fn lemma_find_edge_frame(g1: Graph<N, E, Ty, Ix>, g2: Graph<N, E, Ty, Ix>, a: int, b: int)
        requires
            g1.wf(),
            g2.nlen() == g1.nlen(),
            g2.elen() == g1.elen(),
            forall|k: int, n: int|
                0 <= k < 2 && 0 <= n < g1.nlen() ==> #[trigger] g2.chain(k, n) == g1.chain(k, n),
            forall|e: int, k: int|
                0 <= e < g1.elen() && 0 <= k < 2 ==> #[trigger] g2.node_of(e, k) == g1.node_of(
                    e,
                    k,
                ),
        ensures
            g2.spec_find_directed(a, b) == g1.spec_find_directed(a, b),
            g2.spec_find_undirected(a, b) == g1.spec_find_undirected(a, b),
            g2.spec_find_edge(a, b) == g1.spec_find_edge(a, b),
    {
        if 0 <= a < g1.nlen() {
            assert(g1.chain_ok(0, a));
            assert(g1.chain_ok(1, a));
            assert(g2.chain(0, a) == g1.chain(0, a));
            assert(g2.chain(1, a) == g1.chain(1, a));
            Self::lemma_find_in_chain_frame(g1, g2, g1.chain(0, a), 0, b);
            Self::lemma_find_in_chain_frame(g1, g2, g1.chain(1, a), 1, b);
        }
    }

    /// The predicate "does not touch node `a`" on edge triples.
    pub open spec fn not_incident_fn(a: int) -> spec_fn((int, int, E)) -> bool {
        |t: (int, int, E)| !triple_incident(t, a)
    }

    /// The endpoint substitution `from -> to` on edge triples.
    pub open spec fn subst_fn(from: int, to: int) -> spec_fn((int, int, E)) -> (int, int, E) {
        |t: (int, int, E)| triple_subst(t, from, to)
    }

    /// The edge triples that survive removal of node `a`: those not
    /// incident to `a`, with the old last node index rewritten to `a`
    /// (the last node adopts the removed node's index).
    pub open spec fn surviving_triples(self, a: int) -> Seq<(int, int, E)> {
        self.triples().filter(Self::not_incident_fn(a)).map_values(
            Self::subst_fn(self.nlen() - 1, a),
        )
    }

    /// Remove node `a` from the graph if it exists, and return its data.
    ///
    /// Every edge with an endpoint in `a` is removed first; then `a` is
    /// swap-removed from the node array, so the last node adopts index `a`
    /// and every edge endpoint that referenced the old last index is
    /// rewritten to `a`. All other nodes keep their indices and data, and
    /// the surviving edges are exactly the old edges not incident to `a`,
    /// with that same index rewrite applied to their endpoints (edge
    /// indices shuffle as the repeated edge swap-removals dictate).
    ///
    /// Computes in **O(e')** time, where **e'** counts the edges incident
    /// to `a` and to the nodes displaced by the removals.
    #[verifier::rlimit(100)]
    #[verifier::loop_isolation(false)]
    pub fn remove_node(&mut self, a: NodeIndex<Ix>) -> (r: Option<N>)
        requires
            old(self).wf(),
        ensures
            final(self).wf(),
            match r {
                None => a.idx() >= old(self).nlen() && *final(self) == *old(self),
                Some(d) => {
                    &&& a.idx() < old(self).nlen()
                    &&& d == old(self).data_of(a.idx())
                    &&& final(self).nlen() == old(self).nlen() - 1
                    &&& forall|m: int|
                        0 <= m < final(self).nlen() ==> #[trigger] final(self).data_of(m) == old(
                            self,
                        ).data_of(
                            (if m == a.idx() {
                                old(self).nlen() - 1
                            } else {
                                m
                            }),
                        )
                    &&& final(self).triples().to_multiset() == old(self).surviving_triples(
                        a.idx(),
                    ).to_multiset()
                },
            },
    {
        let ia = a.index();
        if ia >= self.nodes.len() {
            return None;
        }
        let ghost g0 = *old(self);
        let ghost ai = a.idx();
        let ghost mut removed: Seq<(int, int, E)> = Seq::empty();
        proof {
            removed.to_multiset_ensures();
            assert(self.triples().to_multiset().add(removed.to_multiset())
                =~= g0.triples().to_multiset());
        }
        #[verifier::loop_isolation(true)]
        loop
            invariant
                self.wf(),
                self.nlen() == g0.nlen(),
                ai == a.idx(),
                ia as int == ai,
                ai < self.nlen(),
                forall|m: int|
                    0 <= m < g0.nlen() ==> #[trigger] self.data_of(m) == g0.data_of(m),
                self.triples().to_multiset().add(removed.to_multiset()) == g0.triples(
                ).to_multiset(),
                forall|i: int|
                    0 <= i < removed.len() ==> triple_incident(#[trigger] removed[i], ai),
            ensures
                self.wf(),
                self.nlen() == g0.nlen(),
                ai < self.nlen(),
                forall|m: int|
                    0 <= m < g0.nlen() ==> #[trigger] self.data_of(m) == g0.data_of(m),
                self.triples().to_multiset().add(removed.to_multiset()) == g0.triples(
                ).to_multiset(),
                forall|i: int|
                    0 <= i < removed.len() ==> triple_incident(#[trigger] removed[i], ai),
                self.head_of(ai, 0) == Self::endv(),
                self.head_of(ai, 1) == Self::endv(),
            decreases self.edges.len(),
        {
            let h0 = self.nodes[ia].next_out;
            let h1 = self.nodes[ia].next_in;
            if h0.index() >= self.edges.len() && h1.index() >= self.edges.len() {
                proof {
                    assert(self.chain_ok(0, ai));
                    assert(self.chain_ok(1, ai));
                    if self.chain(0, ai).len() > 0 {
                        assert(0 <= self.chain(0, ai)[0] < self.elen());
                        assert(self.head_of(ai, 0) == self.chain(0, ai)[0]);
                        assert(false);
                    }
                    if self.chain(1, ai).len() > 0 {
                        assert(0 <= self.chain(1, ai)[0] < self.elen());
                        assert(self.head_of(ai, 1) == self.chain(1, ai)[0]);
                        assert(false);
                    }
                }
                break ;
            }
            let picked = if h0.index() < self.edges.len() {
                h0
            } else {
                h1
            };
            let ghost kpick: int = if h0.idx() < self.elen() { 0 } else { 1 };
            let ghost gpre = *self;
            let ghost h = picked.idx();
            // each removal strictly shrinks the edge array
            proof {
                assert(gpre.chain_ok(kpick, ai));
                let c = gpre.chain(kpick, ai);
                assert(gpre.head_of(ai, kpick) == h);
                if c.len() == 0 {
                    assert(h == Self::endv());
                    assert(Self::endv() >= gpre.elen());
                    assert(false);
                }
                assert(h == c[0]);
                assert(0 <= h < gpre.elen());
                assert(gpre.node_of(h, kpick) == ai);
                assert(gpre.triples()[h].0 == ai || gpre.triples()[h].1 == ai);
            }
            let _ = self.remove_edge(picked);
            proof {
                let t = gpre.triples()[h];
                assert(self.triples() == gpre.triples().update(h, gpre.triples().last()).drop_last());
                lemma_swap_remove_multiset(gpre.triples(), h);
                gpre.triples().to_multiset_ensures();
                assert(gpre.triples().contains(t));
                assert(gpre.triples().to_multiset().count(t) > 0);
                removed.to_multiset_ensures();
                let removed2 = removed.push(t);
                assert(removed2.to_multiset() =~= removed.to_multiset().insert(t));
                assert(self.triples().to_multiset().add(removed2.to_multiset())
                    =~= g0.triples().to_multiset());
                removed = removed2;
                assert(triple_incident(t, ai));
            }
        }
        proof {
            // both lists of `a` are empty, so no edge is incident to `a`
            assert(self.chain(0, ai).len() == 0) by {
                assert(self.chain_ok(0, ai));
                if self.chain(0, ai).len() > 0 {
                    assert(0 <= self.chain(0, ai)[0] < self.elen());
                    assert(self.head_of(ai, 0) == self.chain(0, ai)[0]);
                }
            }
            assert(self.chain(1, ai).len() == 0) by {
                assert(self.chain_ok(1, ai));
                if self.chain(1, ai).len() > 0 {
                    assert(0 <= self.chain(1, ai)[0] < self.elen());
                    assert(self.head_of(ai, 1) == self.chain(1, ai)[0]);
                }
            }
            assert forall|e2: int|
                0 <= e2 < self.elen() implies !triple_incident(#[trigger] self.triples()[e2], ai) by {
                if self.node_of(e2, 0) == ai {
                    assert(self.in_own_chain(0, e2));
                    assert(self.chain(0, ai).contains(e2));
                    assert(false);
                }
                if self.node_of(e2, 1) == ai {
                    assert(self.in_own_chain(1, e2));
                    assert(self.chain(1, ai).contains(e2));
                    assert(false);
                }
            }
        }
        let ghost s3 = *self;
        let node = self.nodes.swap_remove(ia);
        let newn = self.nodes.len();
        let ghost bigm = newn as int;
        if ia == newn {
            proof {
                let g2 = *self;
                assert(g2.edges@ == s3.edges@);
                assert forall|n: int|
                    0 <= n < g2.nlen() implies #[trigger] g2.nodes@[n] == s3.nodes@[n] by {}
                assert forall|k: int, n: int|
                    0 <= k < 2 && 0 <= n < g2.nlen() implies #[trigger] g2.chain_ok(k, n) by {
                    assert(s3.chain_ok(k, n));
                    assert(g2.chain(k, n) == s3.chain(k, n));
                    assert(g2.head_of(n, k) == s3.head_of(n, k));
                    let c = s3.chain(k, n);
                    assert forall|j: int|
                        0 <= j < c.len() implies #[trigger] g2.next_of(c[j], k) == s3.next_of(
                        c[j],
                        k,
                    ) && g2.node_of(c[j], k) == s3.node_of(c[j], k) by {}
                    Self::lemma_chain_ok_transfer(s3, g2, k, n);
                }
                assert forall|e2: int, k: int|
                    0 <= e2 < g2.elen() && 0 <= k < 2 implies 0 <= #[trigger] g2.node_of(e2, k)
                    < g2.nlen() && g2.in_own_chain(k, e2) by {
                    assert(0 <= s3.node_of(e2, k) < s3.nlen());
                    assert(!triple_incident(s3.triples()[e2], ai));
                    assert(s3.node_of(e2, k) != ai);
                    assert(s3.in_own_chain(k, e2));
                    assert(g2.chain(k, g2.node_of(e2, k)) == s3.chain(k, s3.node_of(e2, k)));
                }
                assert(g2.wf());
                Self::lemma_remove_node_assembly(g0, s3, g2, removed, ai, bigm);
                assert(node == s3.nodes@[ia as int]);
                assert(s3.data_of(ai) == g0.data_of(ai));
                assert(node.data == g0.data_of(ai));
                assert forall|m: int|
                    0 <= m < g2.nlen() implies #[trigger] g2.data_of(m) == g0.data_of(
                    (if m == ai {
                        g0.nlen() - 1
                    } else {
                        m
                    }),
                ) by {
                    assert(g2.nodes@[m] == s3.nodes@[m]);
                    assert(s3.data_of(m) == g0.data_of(m));
                }
            }
            return Some(node.data);
        }
        let ghost cm0 = self.chain(0, bigm);
        let ghost cm1 = self.chain(1, bigm);
        let ghost sa = *self;
        proof {
            assert(s3.chain_ok(0, bigm));
            assert(s3.chain_ok(1, bigm));
            assert(sa.edges@ == s3.edges@);
            assert(sa.nodes@[ia as int] == s3.nodes@[bigm]);
            assert(sa.head_of(ia as int, 0) == s3.head_of(bigm, 0));
            assert forall|j: int|
                0 <= j < cm0.len() - 1 implies #[trigger] sa.next_of(cm0[j], 0) == cm0[j + 1] by {
                assert(s3.next_of(cm0[j], 0) == cm0[j + 1]);
            }
            if cm0.len() > 0 {
                assert(sa.next_of(cm0[cm0.len() - 1], 0) == s3.next_of(cm0[cm0.len() - 1], 0));
            }
        }
        self.rewrite_endpoints(ia, Direction::Outgoing, a, Ghost(cm0));
        let ghost sb = *self;
        proof {
            assert(sb.nodes@ == sa.nodes@);
            assert(sb.head_of(ia as int, 1) == s3.head_of(bigm, 1));
            assert forall|j: int|
                0 <= j < cm1.len() implies 0 <= #[trigger] cm1[j] < sb.elen() && sb.next_of(
                cm1[j],
                1,
            ) == s3.next_of(cm1[j], 1) by {
                assert(0 <= cm1[j] < s3.elen());
                if cm0.contains(cm1[j]) {
                    let q = choose|q: int| 0 <= q < cm0.len() && cm0[q] == cm1[j];
                    assert(sb.edges@[cm0[q]].next_in == sa.edges@[cm0[q]].next_in);
                } else {
                    assert(sb.edges@[cm1[j]] == sa.edges@[cm1[j]]);
                }
            }
            assert forall|j: int|
                0 <= j < cm1.len() - 1 implies #[trigger] sb.next_of(cm1[j], 1) == cm1[j + 1] by {
                assert(s3.next_of(cm1[j], 1) == cm1[j + 1]);
            }
            if cm1.len() > 0 {
                assert(s3.next_of(cm1[cm1.len() - 1], 1) == Self::endv());
            }
        }
        self.rewrite_endpoints(ia, Direction::Incoming, a, Ghost(cm1));
        proof {
            self.chains@ = AdjChains {
                cout: self.chains@.cout.insert(ai, cm0),
                cin: self.chains@.cin.insert(ai, cm1),
            };
            let g2 = *self;
            let sc = Graph {
                nodes: g2.nodes,
                edges: g2.edges,
                ty: g2.ty,
                chains: sb.chains,
            };
            // per-record shape of the final edge array
            assert forall|e2: int|
                0 <= e2 < g2.elen() implies #[trigger] g2.triple(e2) == triple_subst(
                s3.triple(e2),
                bigm,
                ai,
            ) by {
                let t = s3.triple(e2);
                if cm0.contains(e2) {
                    let q = choose|q: int| 0 <= q < cm0.len() && cm0[q] == e2;
                    assert(sb.edges@[cm0[q]].src == a);
                    assert(s3.node_of(e2, 0) == bigm);
                } else {
                    assert(s3.in_own_chain(0, e2));
                    if s3.node_of(e2, 0) == bigm {
                        assert(s3.chain(0, bigm).contains(e2));
                        assert(false);
                    }
                    if cm1.contains(e2) {
                        let q = choose|q: int| 0 <= q < cm1.len() && cm1[q] == e2;
                        assert(g2.edges@[cm1[q]].dst == a);
                        assert(g2.edges@[cm1[q]].src == sb.edges@[cm1[q]].src);
                        assert(sb.edges@[e2] == sa.edges@[e2]);
                    } else {
                        assert(g2.edges@[e2] == sb.edges@[e2]);
                        assert(sb.edges@[e2] == sa.edges@[e2]);
                    }
                }
                if cm1.contains(e2) {
                    let q = choose|q: int| 0 <= q < cm1.len() && cm1[q] == e2;
                    assert(g2.edges@[cm1[q]].dst == a);
                    assert(s3.node_of(e2, 1) == bigm);
                } else {
                    assert(s3.in_own_chain(1, e2));
                    if s3.node_of(e2, 1) == bigm {
                        assert(s3.chain(1, bigm).contains(e2));
                        assert(false);
                    }
                    if cm0.contains(e2) {
                        let q = choose|q: int| 0 <= q < cm0.len() && cm0[q] == e2;
                        assert(g2.edges@[e2] == sb.edges@[e2]);
                        assert(sb.edges@[cm0[q]].dst == sa.edges@[cm0[q]].dst);
                    }
                }
            }
            assert forall|e2: int, k: int|
                0 <= e2 < g2.elen() && 0 <= k < 2 implies #[trigger] g2.next_of(e2, k)
                == s3.next_of(e2, k) by {
                if cm0.contains(e2) {
                    let q = choose|q: int| 0 <= q < cm0.len() && cm0[q] == e2;
                    assert(sb.edges@[cm0[q]].next_out == sa.edges@[cm0[q]].next_out);
                    assert(sb.edges@[cm0[q]].next_in == sa.edges@[cm0[q]].next_in);
                } else {
                    assert(sb.edges@[e2] == sa.edges@[e2]);
                }
                if cm1.contains(e2) {
                    let q = choose|q: int| 0 <= q < cm1.len() && cm1[q] == e2;
                    assert(g2.edges@[cm1[q]].next_out == sb.edges@[cm1[q]].next_out);
                    assert(g2.edges@[cm1[q]].next_in == sb.edges@[cm1[q]].next_in);
                } else {
                    assert(g2.edges@[e2] == sb.edges@[e2]);
                }
            }
            // lists of the adopted index `a`
            assert(g2.chain(0, ai) == cm0);
            assert(g2.chain(1, ai) == cm1);
            assert(g2.head_of(ai, 0) == s3.head_of(bigm, 0));
            assert(g2.head_of(ai, 1) == s3.head_of(bigm, 1));
            assert(g2.chain_ok(0, ai)) by {
                assert(s3.chain_ok(0, bigm));
                assert forall|j: int|
                    0 <= j < cm0.len() implies 0 <= #[trigger] cm0[j] < g2.elen() && g2.node_of(
                    cm0[j],
                    0,
                ) == ai && g2.next_of(cm0[j], 0) == s3.next_of(cm0[j], 0) by {
                    assert(g2.triple(cm0[j]) == triple_subst(s3.triple(cm0[j]), bigm, ai));
                    assert(s3.node_of(cm0[j], 0) == bigm);
                }
            }
            assert(g2.chain_ok(1, ai)) by {
                assert(s3.chain_ok(1, bigm));
                assert forall|j: int|
                    0 <= j < cm1.len() implies 0 <= #[trigger] cm1[j] < g2.elen() && g2.node_of(
                    cm1[j],
                    1,
                ) == ai && g2.next_of(cm1[j], 1) == s3.next_of(cm1[j], 1) by {
                    assert(g2.triple(cm1[j]) == triple_subst(s3.triple(cm1[j]), bigm, ai));
                    assert(s3.node_of(cm1[j], 1) == bigm);
                }
            }
            // all other lists are untouched
            assert forall|k: int, n: int|
                0 <= k < 2 && 0 <= n < g2.nlen() implies #[trigger] g2.chain_ok(k, n) by {
                if n == ai {
                } else {
                    assert(s3.chain_ok(k, n));
                    assert(g2.chain(k, n) == s3.chain(k, n));
                    assert(g2.nodes@[n] == s3.nodes@[n]);
                    assert(g2.head_of(n, k) == s3.head_of(n, k));
                    let c = s3.chain(k, n);
                    assert forall|j: int|
                        0 <= j < c.len() implies 0 <= #[trigger] c[j] < g2.elen() && g2.next_of(
                        c[j],
                        k,
                    ) == s3.next_of(c[j], k) && g2.node_of(c[j], k) == s3.node_of(c[j], k) by {
                        assert(s3.node_of(c[j], k) == n);
                        assert(g2.triple(c[j]) == triple_subst(s3.triple(c[j]), bigm, ai));
                        if s3.node_of(c[j], k) == bigm {
                            assert(false);
                        }
                    }
                    Self::lemma_chain_ok_transfer(s3, g2, k, n);
                }
            }
            // endpoint validity and membership
            assert forall|e2: int, k: int|
                0 <= e2 < g2.elen() && 0 <= k < 2 implies 0 <= #[trigger] g2.node_of(e2, k)
                < g2.nlen() && g2.in_own_chain(k, e2) by {
                assert(g2.triple(e2) == triple_subst(s3.triple(e2), bigm, ai));
                assert(0 <= s3.node_of(e2, k) < s3.nlen());
                assert(!triple_incident(s3.triples()[e2], ai));
                assert(s3.node_of(e2, k) != ai);
                if s3.node_of(e2, k) == bigm {
                    assert(g2.node_of(e2, k) == ai);
                    assert(s3.in_own_chain(k, e2));
                    if k == 0 {
                        assert(g2.chain(0, ai).contains(e2));
                    } else {
                        assert(g2.chain(1, ai).contains(e2));
                    }
                } else {
                    assert(g2.node_of(e2, k) == s3.node_of(e2, k));
                    assert(s3.in_own_chain(k, e2));
                    assert(g2.chain(k, g2.node_of(e2, k)) == s3.chain(k, s3.node_of(e2, k)));
                }
            }
            assert(g2.wf());
            Self::lemma_remove_node_assembly(g0, s3, g2, removed, ai, bigm);
            assert(node == s3.nodes@[ia as int]);
            assert(s3.data_of(ai) == g0.data_of(ai));
            assert(node.data == g0.data_of(ai));
            assert forall|m: int|
                0 <= m < g2.nlen() implies #[trigger] g2.data_of(m) == g0.data_of(
                (if m == ai {
                    g0.nlen() - 1
                } else {
                    m
                }),
            ) by {
                assert(g2.nodes@[m] == sa.nodes@[m]);
                if m == ai {
                    assert(sa.nodes@[m] == s3.nodes@[bigm]);
                    assert(s3.data_of(bigm) == g0.data_of(bigm));
                } else {
                    assert(sa.nodes@[m] == s3.nodes@[m]);
                    assert(s3.data_of(m) == g0.data_of(m));
                }
            }
        }
        Some(node.data)
    }

    /// After the incident edges of `a` are gone (multiset accounting in
    /// `removed`) and the endpoint rewrite `bigm -> a` has been applied,
    /// the surviving triples are exactly those of the starting graph that
    /// were not incident to `a`, with the same rewrite applied.
    proof fn lemma_remove_node_assembly(
        g0: Graph<N, E, Ty, Ix>,
        s3: Graph<N, E, Ty, Ix>,
        g2: Graph<N, E, Ty, Ix>,
        removed: Seq<(int, int, E)>,
        ai: int,
        bigm: int,
    )
        requires
            bigm == g0.nlen() - 1,
            s3.triples().to_multiset().add(removed.to_multiset()) == g0.triples().to_multiset(),
            forall|i: int| 0 <= i < removed.len() ==> triple_incident(#[trigger] removed[i], ai),
            forall|e2: int|
                0 <= e2 < s3.elen() ==> !triple_incident(#[trigger] s3.triples()[e2], ai),
            forall|e2: int|
                0 <= e2 < g2.elen() ==> #[trigger] g2.triple(e2) == triple_subst(
                    s3.triple(e2),
                    bigm,
                    ai,
                ),
            g2.elen() == s3.elen(),
        ensures
            g2.triples().to_multiset() == g0.surviving_triples(ai).to_multiset(),
    {
        broadcast use vstd::multiset::group_multiset_axioms;
        broadcast use vstd::seq_lib::group_filter_ensures;

        let pn = Self::not_incident_fn(ai);
        let f = Self::subst_fn(bigm, ai);
        let p = |t: (int, int, E)| triple_incident(t, ai);
        assert forall|t: (int, int, E)| #[trigger] pn(t) == !p(t) by {}
        lemma_filter_split_multiset(g0.triples(), p, pn);
        let x = s3.triples().to_multiset();
        let rr = removed.to_multiset();
        let aa = g0.triples().filter(p).to_multiset();
        let bb = g0.triples().filter(pn).to_multiset();
        s3.triples().to_multiset_ensures();
        removed.to_multiset_ensures();
        g0.triples().filter(p).to_multiset_ensures();
        g0.triples().filter(pn).to_multiset_ensures();
        assert(x.add(rr) == aa.add(bb));
        assert forall|t: (int, int, E)| true implies x.count(t) == bb.count(t) by {
            if triple_incident(t, ai) {
                if x.count(t) > 0 {
                    assert(s3.triples().contains(t));
                    let i = choose|i: int|
                        0 <= i < s3.triples().len() && s3.triples()[i] == t;
                    assert(!triple_incident(s3.triples()[i], ai));
                    assert(false);
                }
                if bb.count(t) > 0 {
                    assert(g0.triples().filter(pn).contains(t));
                    let i = choose|i: int|
                        0 <= i < g0.triples().filter(pn).len() && g0.triples().filter(pn)[i] == t;
                    assert(pn(g0.triples().filter(pn)[i]));
                    assert(false);
                }
            } else {
                if rr.count(t) > 0 {
                    assert(removed.contains(t));
                    let i = choose|i: int| 0 <= i < removed.len() && removed[i] == t;
                    assert(triple_incident(removed[i], ai));
                    assert(false);
                }
                if aa.count(t) > 0 {
                    assert(g0.triples().filter(p).contains(t));
                    let i = choose|i: int|
                        0 <= i < g0.triples().filter(p).len() && g0.triples().filter(p)[i] == t;
                    assert(p(g0.triples().filter(p)[i]));
                    assert(false);
                }
                assert(x.add(rr).count(t) == x.count(t) + rr.count(t));
                assert(aa.add(bb).count(t) == aa.count(t) + bb.count(t));
            }
        }
        assert(x =~= bb);
        lemma_map_multiset_congruence(s3.triples(), g0.triples().filter(pn), f);
        assert(g2.triples() =~= s3.triples().map_values(f)) by {
            assert forall|e2: int|
                0 <= e2 < g2.elen() implies #[trigger] g2.triples()[e2] == s3.triples().map_values(
                f,
            )[e2] by {
                assert(g2.triple(e2) == triple_subst(s3.triple(e2), bigm, ai));
            }
        }
        assert(g0.surviving_triples(ai) == g0.triples().filter(pn).map_values(f));
    }

    /// Like `wf`, but edge `x` has been unlinked: it still occupies a slot
    /// of the edge array, but appears on no adjacency list.
    pub open spec fn wf_except(self, x: int) -> bool {
        &&& self.nlen() <= Ix::spec_max()
        &&& self.elen() <= Ix::spec_max()
        &&& forall|e: int, k: int|
            0 <= e < self.elen() && 0 <= k < 2 ==> 0 <= #[trigger] self.node_of(e, k)
                < self.nlen()
        &&& forall|k: int, n: int|
            0 <= k < 2 && 0 <= n < self.nlen() ==> #[trigger] self.chain_ok(k, n)
        &&& forall|e: int, k: int|
            0 <= e < self.elen() && 0 <= k < 2 && e != x ==> #[trigger] self.in_own_chain(k, e)
        &&& forall|k: int, n: int|
            0 <= k < 2 && 0 <= n < self.nlen() ==> !(#[trigger] self.chain(k, n).contains(x))
    }

    /// An edge whose direction-`k` endpoint is not `n` is not on node `n`'s
    /// direction-`k` list.
    pub proof fn lemma_chain_excludes(self, k: int, n: int, x: int)
        requires
            self.chain_ok(k, n),
            self.node_of(x, k) != n,
        ensures
            !self.chain(k, n).contains(x),
    {
        let c = self.chain(k, n);
        if c.contains(x) {
            let j = choose|j: int| 0 <= j < c.len() && c[j] == x;
            assert(self.node_of(c[j], k) == n);
        }
    }

    /// A list transfers its linkage to another graph state that keeps the
    /// same list and head and does not disturb the links and endpoints of
    /// the list's own entries.
    pub proof fn lemma_chain_ok_transfer(
        g1: Graph<N, E, Ty, Ix>,
        g2: Graph<N, E, Ty, Ix>,
        k: int,
        n: int,
    )
        requires
            g1.chain_ok(k, n),
            g2.chain(k, n) == g1.chain(k, n),
            g2.head_of(n, k) == g1.head_of(n, k),
            forall|j: int|
                0 <= j < g1.chain(k, n).len() ==> 0 <= #[trigger] g1.chain(k, n)[j] < g2.elen(),
            forall|j: int|
                0 <= j < g1.chain(k, n).len() ==> #[trigger] g2.next_of(g1.chain(k, n)[j], k)
                    == g1.next_of(g1.chain(k, n)[j], k),
            forall|j: int|
                0 <= j < g1.chain(k, n).len() ==> #[trigger] g2.node_of(g1.chain(k, n)[j], k)
                    == g1.node_of(g1.chain(k, n)[j], k),
        ensures
            g2.chain_ok(k, n),
    {
        let c = g1.chain(k, n);
        assert forall|j: int| 0 <= j < c.len() implies 0 <= #[trigger] c[j] < g2.elen()
            && g2.node_of(c[j], k) == n by {
            assert(g2.node_of(c[j], k) == g1.node_of(c[j], k));
        }
        assert forall|j: int| 0 <= j < c.len() - 1 implies #[trigger] g2.next_of(c[j], k) == c[j
            + 1] by {
            assert(g2.next_of(c[j], k) == g1.next_of(c[j], k));
        }
        if c.len() > 0 {
            assert(g2.next_of(c[c.len() - 1], k) == g1.next_of(c[c.len() - 1], k));
        }
    }

    /// The part of node `n`'s direction-`k` list strictly before position
    /// `p` satisfies the path conditions that `redirect_link` asks of its
    /// prefix: valid distinct entries, properly linked from the head, with
    /// the last link pointing at the entry at `p`.
    pub proof fn lemma_take_prefix(self, k: int, n: int, p: int)
        requires
            self.chain_ok(k, n),
            0 <= p < self.chain(k, n).len(),
        ensures
            forall|j: int|
                0 <= j < p ==> 0 <= #[trigger] self.chain(k, n).take(p)[j] < self.elen()
                    && self.chain(k, n).take(p)[j] != self.chain(k, n)[p],
            forall|j1: int, j2: int|
                0 <= j1 < j2 < p ==> self.chain(k, n).take(p)[j1] != self.chain(k, n).take(p)[j2],
            self.head_of(n, k) == (if p == 0 {
                self.chain(k, n)[p]
            } else {
                self.chain(k, n).take(p)[0]
            }),
            forall|j: int|
                0 <= j < p - 1 ==> #[trigger] self.next_of(self.chain(k, n).take(p)[j], k)
                    == self.chain(k, n).take(p)[j + 1],
            p > 0 ==> self.next_of(self.chain(k, n).take(p)[p - 1], k) == self.chain(k, n)[p],
    {
        let c = self.chain(k, n);
        assert forall|j: int| 0 <= j < p implies #[trigger] c.take(p)[j] == c[j] by {}
    }

    /// Redirect the unique link that points at `target` on node `n`'s
    /// direction-`dir` list to `newlink`: either the node's head, or the
    /// next field of the entry just before `target`. `pre` is the (ghost)
    /// part of the list strictly before that link. Nothing else changes.
    #[verifier::loop_isolation(false)]
    fn redirect_link(
        &mut self,
        n: NodeIndex<Ix>,
        dir: Direction,
        target: EdgeIndex<Ix>,
        newlink: EdgeIndex<Ix>,
        Ghost(pre): Ghost<Seq<int>>,
    )
        requires
            n.idx() < old(self).nlen(),
            forall|j: int|
                0 <= j < pre.len() ==> 0 <= #[trigger] pre[j] < old(self).elen() && pre[j]
                    != target.idx(),
            forall|j1: int, j2: int| 0 <= j1 < j2 < pre.len() ==> pre[j1] != pre[j2],
            old(self).head_of(n.idx(), dir.k()) == (if pre.len() == 0 {
                target.idx()
            } else {
                pre[0]
            }),
            forall|j: int|
                0 <= j < pre.len() - 1 ==> #[trigger] old(self).next_of(pre[j], dir.k()) == pre[j
                    + 1],
            pre.len() > 0 ==> old(self).next_of(pre[pre.len() - 1], dir.k()) == target.idx(),
        ensures
            final(self).nlen() == old(self).nlen(),
            final(self).elen() == old(self).elen(),
            final(self).chains == old(self).chains,
            forall|m: int|
                0 <= m < old(self).nlen() ==> #[trigger] final(self).data_of(m) == old(
                    self,
                ).data_of(m),
            forall|e2: int|
                0 <= e2 < old(self).elen() ==> #[trigger] final(self).triple(e2) == old(
                    self,
                ).triple(e2),
            forall|m: int, k: int|
                0 <= m < old(self).nlen() && 0 <= k < 2 && !(pre.len() == 0 && m == n.idx() && k
                    == dir.k()) ==> #[trigger] final(self).head_of(m, k) == old(self).head_of(
                    m,
                    k,
                ),
            pre.len() == 0 ==> final(self).head_of(n.idx(), dir.k()) == newlink.idx(),
            pre.len() == 0 ==> final(self).edges@ == old(self).edges@,
            forall|e2: int, k: int|
                0 <= e2 < old(self).elen() && 0 <= k < 2 && !(pre.len() > 0 && e2 == pre[pre.len()
                    - 1] && k == dir.k()) ==> #[trigger] final(self).next_of(e2, k) == old(
                    self,
                ).next_of(e2, k),
            pre.len() > 0 ==> final(self).next_of(pre[pre.len() - 1], dir.k()) == newlink.idx(),
            pre.len() > 0 ==> final(self).nodes@ == old(self).nodes@,
    {
        let k = dir.index();
        let ghost kk = dir.k();
        let inx = n.index();
        let head = if k == 0 {
            self.nodes[inx].next_out
        } else {
            self.nodes[inx].next_in
        };
        if head == target {
            proof {
                if pre.len() > 0 {
                    assert(old(self).head_of(n.idx(), kk) == pre[0]);
                    assert(pre[0] != target.idx());
                    assert(false);
                }
            }
            if k == 0 {
                self.nodes[inx].next_out = newlink;
            } else {
                self.nodes[inx].next_in = newlink;
            }
            proof {
                assert forall|m: int, k2: int|
                    0 <= m < self.nlen() && 0 <= k2 < 2 && !(m == n.idx() && k2
                        == kk) implies #[trigger] self.head_of(m, k2) == old(self).head_of(
                    m,
                    k2,
                ) by {
                    if m != n.idx() {
                        assert(self.nodes@[m] == old(self).nodes@[m]);
                    }
                }
            }
        } else {
            proof {
                if pre.len() == 0 {
                    assert(old(self).head_of(n.idx(), kk) == target.idx());
                    assert(false);
                }
            }
            let mut cur = head;
            let ghost j: int = 0;
            loop
                invariant
                    0 <= j < pre.len(),
                    cur.idx() == pre[j],
                    *self == *old(self),
                decreases pre.len() - j,
            {
                proof {
                    assert(0 <= pre[j] < old(self).elen());
                }
                let ic = cur.index();
                let nx = if k == 0 {
                    self.edges[ic].next_out
                } else {
                    self.edges[ic].next_in
                };
                if nx == target {
                    proof {
                        if j < pre.len() - 1 {
                            assert(old(self).next_of(pre[j], kk) == pre[j + 1]);
                            assert(pre[j + 1] != target.idx());
                            assert(false);
                        }
                    }
                    if k == 0 {
                        self.edges[ic].next_out = newlink;
                    } else {
                        self.edges[ic].next_in = newlink;
                    }
                    proof {
                        assert forall|e2: int|
                            0 <= e2 < self.elen() implies #[trigger] self.triple(e2) == old(
                            self,
                        ).triple(e2) by {
                            if e2 != pre[pre.len() - 1] {
                                assert(self.edges@[e2] == old(self).edges@[e2]);
                            }
                        }
                        assert forall|e2: int, k2: int|
                            0 <= e2 < self.elen() && 0 <= k2 < 2 && !(e2 == pre[pre.len() - 1] && k2
                                == kk) implies #[trigger] self.next_of(e2, k2) == old(
                            self,
                        ).next_of(e2, k2) by {
                            if e2 != pre[pre.len() - 1] {
                                assert(self.edges@[e2] == old(self).edges@[e2]);
                            }
                        }
                    }
                    return ;
                }
                cur = nx;
                proof {
                    if j == pre.len() - 1 {
                        assert(old(self).next_of(pre[j], kk) == target.idx());
                        assert(false);
                    }
                    assert(old(self).next_of(pre[j], kk) == pre[j + 1]);
                    j = j + 1;
                }
            }
        }
    }

    /// Add or update an edge from `a` to `b`. If a matching edge already
    /// exists (honoring directedness), its weight is overwritten in place
    /// and nothing else changes; otherwise a new edge is added as by
    /// `add_edge`, so only in that case must the graph have room for one
    /// more edge.
    ///
    /// Either way, after the call the lookup from `a` to `b` finds exactly
    /// the returned edge, and that edge carries `weight`.
    ///
    /// Computes in **O(e')** time, where **e'** is the number of edges
    /// connected to `a` (and `b`, if the graph edges are undirected).
    pub fn update_edge(&mut self, a: NodeIndex<Ix>, b: NodeIndex<Ix>, weight: E) -> (r: EdgeIndex<
        Ix,
    >)
        requires
            old(self).wf(),
            a.idx() < old(self).nlen(),
            b.idx() < old(self).nlen(),
            old(self).spec_find_edge(a.idx(), b.idx()) is None ==> old(self).elen()
                < Ix::spec_max(),
        ensures
            final(self).wf(),
            final(self).nlen() == old(self).nlen(),
            forall|n: int|
                0 <= n < old(self).nlen() ==> #[trigger] final(self).data_of(n) == old(
                    self,
                ).data_of(n),
            match old(self).spec_find_edge(a.idx(), b.idx()) {
                Some(e) => {
                    &&& r.idx() == e
                    &&& final(self).elen() == old(self).elen()
                    &&& final(self).triples() == old(self).triples().update(
                        e,
                        (old(self).node_of(e, 0), old(self).node_of(e, 1), weight),
                    )
                    &&& forall|k: int, n: int|
                        0 <= k < 2 && 0 <= n < old(self).nlen() ==> #[trigger] final(self).chain(
                            k,
                            n,
                        ) == old(self).chain(k, n)
                },
                None => {
                    &&& r.idx() == old(self).elen()
                    &&& final(self).elen() == old(self).elen() + 1
                    &&& final(self).triples() == old(self).triples().push(
                        (a.idx(), b.idx(), weight),
                    )
                },
            },
            final(self).spec_find_edge(a.idx(), b.idx()) == Some(r.idx()),
            final(self).wt_of(r.idx()) == weight,
    {
        proof {
            old(self).lemma_find_edge_exists(a.idx(), b.idx());
        }
        let found = self.find_edge(a, b);
        match found {
            Some(ix) => {
                let i = ix.index();
                self.edges[i].weight = weight;
                proof {
                    let e = ix.idx();
                    assert forall|ee: int, k: int|
                        0 <= ee < old(self).elen() && 0 <= k < 2 implies #[trigger] self.next_of(
                        ee,
                        k,
                    ) == old(self).next_of(ee, k) && self.node_of(ee, k) == old(self).node_of(
                        ee,
                        k,
                    ) by {
                        if ee != e {
                            assert(self.edges@[ee] == old(self).edges@[ee]);
                        }
                    }
                    lemma_wf_weight_independent(*old(self), *self);
                    Self::lemma_find_edge_frame(*old(self), *self, a.idx(), b.idx());
                    assert forall|ee: int|
                        0 <= ee < self.elen() && ee != e implies #[trigger] self.triple(ee) == old(
                        self,
                    ).triple(ee) by {
                        assert(self.edges@[ee] == old(self).edges@[ee]);
                    }
                    assert(self.triples() =~= old(self).triples().update(
                        e,
                        (old(self).node_of(e, 0), old(self).node_of(e, 1), weight),
                    ));
                }
                ix
            },
            None => {
                let r = self.add_edge(a, b, weight);
                proof {
                    let e0 = old(self).elen();
                    let cnew = self.chain(0, a.idx());
                    assert(cnew == seq![e0] + old(self).chain(0, a.idx()));
                    assert(cnew[0] == e0);
                    assert(cnew.len() > 0);
                    assert(self.node_of(e0, 1) == b.idx());
                    assert(self.find_in_chain(cnew, 0, b.idx()) == Some(e0));
                    assert(self.triples() =~= old(self).triples().push(
                        (a.idx(), b.idx(), weight),
                    ));
                }
                r
            },
        }
    }

    /// Remove an edge and return its weight, or `None` if it did not
    /// exist.
    ///
    /// Apart from `e`, this invalidates the last edge index: that edge
    /// adopts the removed edge's index, exactly as the swap-remove relation
    /// in the contract states. Node data and all other edge triples stay
    /// where they were.
    ///
    /// Computes in **O(e')** time, where **e'** is the size of four
    /// particular edge lists: those of the endpoints of `e` and those of
    /// the endpoints of the displaced edge.
    #[verifier::rlimit(60)]
    pub fn remove_edge(&mut self, e: EdgeIndex<Ix>) -> (r: Option<E>)
        requires
            old(self).wf(),
        ensures
            final(self).wf(),
            final(self).nlen() == old(self).nlen(),
            forall|m: int|
                0 <= m < old(self).nlen() ==> #[trigger] final(self).data_of(m) == old(
                    self,
                ).data_of(m),
            match r {
                Some(w) => {
                    &&& e.idx() < old(self).elen()
                    &&& w == old(self).wt_of(e.idx())
                    &&& final(self).elen() == old(self).elen() - 1
                    &&& final(self).triples() == old(self).triples().update(
                        e.idx(),
                        old(self).triples().last(),
                    ).drop_last()
                },
                None => e.idx() >= old(self).elen() && *final(self) == *old(self),
            },
    {
        let i = e.index();
        if i >= self.edges.len() {
            return None;
        }
        let src = self.edges[i].src;
        let dst = self.edges[i].dst;
        let nx0 = self.edges[i].next_out;
        let nx1 = self.edges[i].next_in;
        let ghost g0 = *old(self);
        let ghost ei = e.idx();
        let ghost c0 = g0.chain(0, src.idx());
        let ghost c1 = g0.chain(1, dst.idx());
        proof {
            assert(g0.in_own_chain(0, ei));
            assert(g0.in_own_chain(1, ei));
            assert(g0.node_of(ei, 0) == src.idx());
            assert(g0.node_of(ei, 1) == dst.idx());
            assert(0 <= src.idx() < g0.nlen());
            assert(0 <= dst.idx() < g0.nlen());
            assert(g0.chain_ok(0, src.idx()));
            assert(g0.chain_ok(1, dst.idx()));
        }
        let ghost p0 = choose|p: int| 0 <= p < c0.len() && c0[p] == ei;
        let ghost p1 = choose|p: int| 0 <= p < c1.len() && c1[p] == ei;
        proof {
            assert(c0.contains(ei));
            assert(c1.contains(ei));
            g0.lemma_take_prefix(0, src.idx(), p0);
            g0.lemma_take_prefix(1, dst.idx(), p1);
        }
        self.redirect_link(src, Direction::Outgoing, e, nx0, Ghost(c0.take(p0)));
        let ghost g1 = *self;
        proof {
            // the first redirect touched no incoming head or link, so the
            // prefix conditions for the second hold in the new state
            assert(g1.head_of(dst.idx(), 1) == g0.head_of(dst.idx(), 1));
            assert forall|j: int|
                0 <= j < p1 - 1 implies #[trigger] g1.next_of(c1.take(p1)[j], 1) == c1.take(p1)[j
                + 1] by {
                assert(0 <= c1.take(p1)[j] < g0.elen());
                assert(g1.next_of(c1.take(p1)[j], 1) == g0.next_of(c1.take(p1)[j], 1));
            }
            if p1 > 0 {
                assert(0 <= c1.take(p1)[p1 - 1] < g0.elen());
                assert(g1.next_of(c1.take(p1)[p1 - 1], 1) == g0.next_of(c1.take(p1)[p1 - 1], 1));
            }
        }
        self.redirect_link(dst, Direction::Incoming, e, nx1, Ghost(c1.take(p1)));
        let ghost gb = *self;
        proof {
            let cc0 = c0.take(p0) + c0.skip(p0 + 1);
            let cc1 = c1.take(p1) + c1.skip(p1 + 1);
            self.chains@ = AdjChains {
                cout: self.chains@.cout.insert(src.idx(), cc0),
                cin: self.chains@.cin.insert(dst.idx(), cc1),
            };
            let g2 = *self;
            // record-level frame facts
            assert(g2.elen() == g0.elen());
            assert forall|e2: int|
                0 <= e2 < g0.elen() implies #[trigger] g2.triple(e2) == g0.triple(e2) by {
                assert(g1.triple(e2) == g0.triple(e2));
                assert(gb.triple(e2) == g1.triple(e2));
                assert(g2.triple(e2) == gb.triple(e2));
            }
            assert forall|e2: int, k: int|
                0 <= e2 < g0.elen() && 0 <= k < 2 implies #[trigger] g2.node_of(e2, k)
                == g0.node_of(e2, k) by {
                assert(g2.triple(e2) == g0.triple(e2));
            }
            let ghost t0 = if p0 > 0 { c0[p0 - 1] } else { -1 };
            let ghost t1 = if p1 > 0 { c1[p1 - 1] } else { -1 };
            assert forall|e2: int|
                0 <= e2 < g0.elen() && e2 != t0 implies #[trigger] g2.next_of(e2, 0) == g0.next_of(
                e2,
                0,
            ) by {
                assert(g1.next_of(e2, 0) == g0.next_of(e2, 0));
                assert(gb.next_of(e2, 0) == g1.next_of(e2, 0));
                assert(g2.next_of(e2, 0) == gb.next_of(e2, 0));
            }
            assert forall|e2: int|
                0 <= e2 < g0.elen() && e2 != t1 implies #[trigger] g2.next_of(e2, 1) == g0.next_of(
                e2,
                1,
            ) by {
                assert(g1.next_of(e2, 1) == g0.next_of(e2, 1));
                assert(gb.next_of(e2, 1) == g1.next_of(e2, 1));
                assert(g2.next_of(e2, 1) == gb.next_of(e2, 1));
            }
            if p0 > 0 {
                assert(g1.next_of(c0[p0 - 1], 0) == nx0.idx());
                assert(gb.next_of(c0[p0 - 1], 0) == g1.next_of(c0[p0 - 1], 0));
                assert(g2.next_of(t0, 0) == nx0.idx());
            }
            if p1 > 0 {
                assert(gb.next_of(c1[p1 - 1], 1) == nx1.idx());
                assert(g2.next_of(t1, 1) == nx1.idx());
            }
            if p0 == 0 {
                assert(g1.head_of(src.idx(), 0) == nx0.idx());
                assert(gb.head_of(src.idx(), 0) == g1.head_of(src.idx(), 0));
                assert(g2.head_of(src.idx(), 0) == nx0.idx());
            }
            if p1 == 0 {
                assert(gb.head_of(dst.idx(), 1) == nx1.idx());
                assert(g2.head_of(dst.idx(), 1) == nx1.idx());
            }
            assert forall|m: int, k: int|
                0 <= m < g0.nlen() && 0 <= k < 2 && !(k == 0 && m == src.idx() && p0 == 0) && !(k
                    == 1 && m == dst.idx() && p1 == 0) implies #[trigger] g2.head_of(m, k)
                == g0.head_of(m, k) by {
                assert(g1.head_of(m, k) == g0.head_of(m, k));
                assert(gb.head_of(m, k) == g1.head_of(m, k));
                assert(g2.head_of(m, k) == gb.head_of(m, k));
            }
            // the two rewritten lists are properly linked
            assert forall|j: int| 0 <= j < cc0.len() implies #[trigger] cc0[j] == (if j < p0 {
                c0[j]
            } else {
                c0[j + 1]
            }) by {}
            assert forall|j: int| 0 <= j < cc1.len() implies #[trigger] cc1[j] == (if j < p1 {
                c1[j]
            } else {
                c1[j + 1]
            }) by {}
            assert(g2.chain(0, src.idx()) == cc0);
            assert(g2.chain(1, dst.idx()) == cc1);
            assert forall|j: int|
                0 <= j < cc0.len() implies 0 <= #[trigger] cc0[j] < g2.elen() && cc0[j] != ei
                && g2.node_of(cc0[j], 0) == src.idx() by {
                if j < p0 {
                    assert(cc0[j] == c0[j]);
                } else {
                    assert(cc0[j] == c0[j + 1]);
                }
                assert(g0.node_of(cc0[j], 0) == src.idx());
            }
            assert forall|j: int|
                0 <= j < cc1.len() implies 0 <= #[trigger] cc1[j] < g2.elen() && cc1[j] != ei
                && g2.node_of(cc1[j], 1) == dst.idx() by {
                if j < p1 {
                    assert(cc1[j] == c1[j]);
                } else {
                    assert(cc1[j] == c1[j + 1]);
                }
                assert(g0.node_of(cc1[j], 1) == dst.idx());
            }
            assert(nx0.idx() == g0.next_of(ei, 0));
            assert(nx1.idx() == g0.next_of(ei, 1));
            assert(g2.chain_ok(0, src.idx())) by {
                if p0 == 0 {
                    if c0.len() > 1 {
                        assert(g0.next_of(c0[0], 0) == c0[1]);
                        assert(cc0[0] == c0[1]);
                    } else {
                        assert(g0.next_of(c0[c0.len() - 1], 0) == Self::endv());
                        assert(cc0.len() == 0);
                    }
                } else {
                    assert(g2.head_of(src.idx(), 0) == g0.head_of(src.idx(), 0));
                    assert(cc0[0] == c0[0]);
                }
                assert forall|j: int|
                    0 <= j < cc0.len() - 1 implies #[trigger] g2.next_of(cc0[j], 0) == cc0[j
                    + 1] by {
                    if j == p0 - 1 {
                        assert(cc0[j] == c0[p0 - 1] == t0);
                        assert(g2.next_of(t0, 0) == nx0.idx());
                        assert(g0.next_of(ei, 0) == (if p0 < c0.len() - 1 {
                            c0[p0 + 1]
                        } else {
                            Self::endv()
                        }));
                        assert(cc0[j + 1] == c0[p0 + 1]);
                    } else if j < p0 - 1 {
                        assert(cc0[j] == c0[j] && cc0[j] != t0);
                        assert(g0.next_of(c0[j], 0) == c0[j + 1]);
                    } else {
                        assert(cc0[j] == c0[j + 1] && cc0[j + 1] == c0[j + 2]);
                        if c0[j + 1] == t0 {
                            assert(c0[j + 1] == c0[p0 - 1]);
                            assert(false);
                        }
                        assert(g0.next_of(c0[j + 1], 0) == c0[j + 2]);
                    }
                }
                if cc0.len() > 0 {
                    let lj = cc0.len() - 1;
                    if lj == p0 - 1 {
                        assert(cc0[lj] == t0);
                        assert(g2.next_of(t0, 0) == nx0.idx());
                        assert(p0 == c0.len() - 1);
                        assert(g0.next_of(ei, 0) == Self::endv());
                    } else {
                        assert(cc0[lj] == c0[c0.len() - 1]);
                        if c0[c0.len() - 1] == t0 {
                            assert(false);
                        }
                        assert(g0.next_of(c0[c0.len() - 1], 0) == Self::endv());
                    }
                }
            }
            assert(g2.chain_ok(1, dst.idx())) by {
                if p1 == 0 {
                    if c1.len() > 1 {
                        assert(g0.next_of(c1[0], 1) == c1[1]);
                        assert(cc1[0] == c1[1]);
                    } else {
                        assert(g0.next_of(c1[c1.len() - 1], 1) == Self::endv());
                        assert(cc1.len() == 0);
                    }
                } else {
                    assert(g2.head_of(dst.idx(), 1) == g0.head_of(dst.idx(), 1));
                    assert(cc1[0] == c1[0]);
                }
                assert forall|j: int|
                    0 <= j < cc1.len() - 1 implies #[trigger] g2.next_of(cc1[j], 1) == cc1[j
                    + 1] by {
                    if j == p1 - 1 {
                        assert(cc1[j] == c1[p1 - 1] == t1);
                        assert(g2.next_of(t1, 1) == nx1.idx());
                        assert(g0.next_of(ei, 1) == (if p1 < c1.len() - 1 {
                            c1[p1 + 1]
                        } else {
                            Self::endv()
                        }));
                        assert(cc1[j + 1] == c1[p1 + 1]);
                    } else if j < p1 - 1 {
                        assert(cc1[j] == c1[j] && cc1[j] != t1);
                        assert(g0.next_of(c1[j], 1) == c1[j + 1]);
                    } else {
                        assert(cc1[j] == c1[j + 1] && cc1[j + 1] == c1[j + 2]);
                        if c1[j + 1] == t1 {
                            assert(false);
                        }
                        assert(g0.next_of(c1[j + 1], 1) == c1[j + 2]);
                    }
                }
                if cc1.len() > 0 {
                    let lj = cc1.len() - 1;
                    if lj == p1 - 1 {
                        assert(cc1[lj] == t1);
                        assert(g2.next_of(t1, 1) == nx1.idx());
                        assert(p1 == c1.len() - 1);
                        assert(g0.next_of(ei, 1) == Self::endv());
                    } else {
                        assert(cc1[lj] == c1[c1.len() - 1]);
                        if c1[c1.len() - 1] == t1 {
                            assert(false);
                        }
                        assert(g0.next_of(c1[c1.len() - 1], 1) == Self::endv());
                    }
                }
            }
            // all other lists are untouched
            assert forall|k: int, n: int|
                0 <= k < 2 && 0 <= n < g2.nlen() implies #[trigger] g2.chain_ok(k, n) by {
                if k == 0 && n == src.idx() {
                } else if k == 1 && n == dst.idx() {
                } else {
                    assert(g0.chain_ok(k, n));
                    assert(g2.chain(k, n) == g0.chain(k, n));
                    assert(g2.head_of(n, k) == g0.head_of(n, k));
                    let c = g0.chain(k, n);
                    let t = if k == 0 { t0 } else { t1 };
                    assert forall|j: int|
                        0 <= j < c.len() implies #[trigger] g2.next_of(c[j], k) == g0.next_of(
                        c[j],
                        k,
                    ) by {
                        assert(g0.node_of(c[j], k) == n);
                        if c[j] == t {
                            if k == 0 {
                                assert(g0.node_of(c0[p0 - 1], 0) == src.idx());
                            } else {
                                assert(g0.node_of(c1[p1 - 1], 1) == dst.idx());
                            }
                            assert(false);
                        }
                    }
                    assert forall|j: int|
                        0 <= j < c.len() implies #[trigger] g2.node_of(c[j], k) == g0.node_of(
                        c[j],
                        k,
                    ) by {}
                    Self::lemma_chain_ok_transfer(g0, g2, k, n);
                }
            }
            // every other edge still sits on its own lists; `e` on none
            assert forall|e2: int, k: int|
                0 <= e2 < g2.elen() && 0 <= k < 2 && e2 != ei implies #[trigger] g2.in_own_chain(
                k,
                e2,
            ) by {
                assert(g0.in_own_chain(k, e2));
                let nd = g0.node_of(e2, k);
                assert(g2.node_of(e2, k) == nd);
                let cold = g0.chain(k, nd);
                let q = choose|q: int| 0 <= q < cold.len() && cold[q] == e2;
                if k == 0 && nd == src.idx() {
                    assert(q != p0);
                    if q < p0 {
                        assert(cc0[q] == e2);
                    } else {
                        assert(cc0[q - 1] == c0[q] == e2);
                    }
                    assert(g2.chain(k, nd).contains(e2));
                } else if k == 1 && nd == dst.idx() {
                    assert(q != p1);
                    if q < p1 {
                        assert(cc1[q] == e2);
                    } else {
                        assert(cc1[q - 1] == c1[q] == e2);
                    }
                    assert(g2.chain(k, nd).contains(e2));
                } else {
                    assert(g2.chain(k, nd) == cold);
                    assert(g2.chain(k, nd).contains(e2));
                }
            }
            assert forall|k: int, n: int|
                0 <= k < 2 && 0 <= n < g2.nlen() implies !(#[trigger] g2.chain(k, n).contains(
                ei,
            )) by {
                if k == 0 && n == src.idx() {
                    if cc0.contains(ei) {
                        let q = choose|q: int| 0 <= q < cc0.len() && cc0[q] == ei;
                        assert(false);
                    }
                } else if k == 1 && n == dst.idx() {
                    if cc1.contains(ei) {
                        let q = choose|q: int| 0 <= q < cc1.len() && cc1[q] == ei;
                        assert(false);
                    }
                } else {
                    assert(g0.chain_ok(k, n));
                    if k == 0 {
                        g0.lemma_chain_excludes(k, n, ei);
                    } else {
                        g0.lemma_chain_excludes(k, n, ei);
                    }
                    assert(g2.chain(k, n) == g0.chain(k, n));
                }
            }
            assert(g2.wf_except(ei));
        }
        let ghost g2s = *self;
        let w = self.remove_edge_adjust_indices(e);
        proof {
            assert forall|e2: int|
                0 <= e2 < g0.elen() implies #[trigger] g2s.triple(e2) == g0.triple(e2) by {
                assert(g1.triple(e2) == g0.triple(e2));
                assert(gb.triple(e2) == g1.triple(e2));
                assert(g2s.triple(e2) == gb.triple(e2));
            }
            assert(g2s.triples() =~= g0.triples());
            assert(g2s.wt_of(ei) == g0.wt_of(ei)) by {
                assert(g2s.triple(ei) == g0.triple(ei));
            }
            assert forall|m: int|
                0 <= m < g0.nlen() implies #[trigger] self.data_of(m) == g0.data_of(m) by {
                assert(g1.data_of(m) == g0.data_of(m));
                assert(gb.data_of(m) == g1.data_of(m));
                assert(g2s.data_of(m) == gb.data_of(m));
                assert(self.data_of(m) == g2s.data_of(m));
            }
            assert(self.triples() == g0.triples().update(ei, g0.triples().last()).drop_last());
        }
        Some(w)
    }

    /// Walk the direction-`dir` list rooted at the node record at `i_at`,
    /// setting the direction-`dir` endpoint of every edge on it to `a`.
    /// `cm` is the (ghost) list being walked. Nothing else changes.
    #[verifier::loop_isolation(false)]
    fn rewrite_endpoints(
        &mut self,
        i_at: usize,
        dir: Direction,
        a: NodeIndex<Ix>,
        Ghost(cm): Ghost<Seq<int>>,
    )
        requires
            i_at < old(self).nodes@.len(),
            old(self).elen() <= Ix::spec_max(),
            forall|j: int| 0 <= j < cm.len() ==> 0 <= #[trigger] cm[j] < old(self).elen(),
            forall|j1: int, j2: int| 0 <= j1 < j2 < cm.len() ==> cm[j1] != cm[j2],
            old(self).head_of(i_at as int, dir.k()) == (if cm.len() == 0 {
                Self::endv()
            } else {
                cm[0]
            }),
            forall|j: int|
                0 <= j < cm.len() - 1 ==> #[trigger] old(self).next_of(cm[j], dir.k()) == cm[j
                    + 1],
            cm.len() > 0 ==> old(self).next_of(cm[cm.len() - 1], dir.k()) == Self::endv(),
        ensures
            final(self).nodes@ == old(self).nodes@,
            final(self).chains == old(self).chains,
            final(self).elen() == old(self).elen(),
            forall|e2: int|
                0 <= e2 < old(self).elen() && !cm.contains(e2) ==> #[trigger] final(self).edges@[e2]
                    == old(self).edges@[e2],
            forall|j: int|
                0 <= j < cm.len() ==> #[trigger] final(self).edges@[cm[j]] == (if dir.k() == 0 {
                    Edge {
                        weight: old(self).edges@[cm[j]].weight,
                        next_out: old(self).edges@[cm[j]].next_out,
                        next_in: old(self).edges@[cm[j]].next_in,
                        src: a,
                        dst: old(self).edges@[cm[j]].dst,
                    }
                } else {
                    Edge {
                        weight: old(self).edges@[cm[j]].weight,
                        next_out: old(self).edges@[cm[j]].next_out,
                        next_in: old(self).edges@[cm[j]].next_in,
                        src: old(self).edges@[cm[j]].src,
                        dst: a,
                    }
                }),
    {
        let k = dir.index();
        let ghost kk = dir.k();
        let mut cur = if k == 0 {
            self.nodes[i_at].next_out
        } else {
            self.nodes[i_at].next_in
        };
        let ghost j: int = 0;
        while cur.index() < self.edges.len()
            invariant
                0 <= j <= cm.len(),
                j < cm.len() ==> cur.idx() == cm[j],
                j == cm.len() ==> cur.idx() == Self::endv(),
                self.nodes@ == old(self).nodes@,
                self.chains == old(self).chains,
                self.elen() == old(self).elen(),
                forall|e2: int|
                    0 <= e2 < old(self).elen() && !cm.take(j).contains(e2)
                        ==> #[trigger] self.edges@[e2] == old(self).edges@[e2],
                forall|jj: int|
                    0 <= jj < j ==> #[trigger] self.edges@[cm[jj]] == (if kk == 0 {
                        Edge {
                            weight: old(self).edges@[cm[jj]].weight,
                            next_out: old(self).edges@[cm[jj]].next_out,
                            next_in: old(self).edges@[cm[jj]].next_in,
                            src: a,
                            dst: old(self).edges@[cm[jj]].dst,
                        }
                    } else {
                        Edge {
                            weight: old(self).edges@[cm[jj]].weight,
                            next_out: old(self).edges@[cm[jj]].next_out,
                            next_in: old(self).edges@[cm[jj]].next_in,
                            src: old(self).edges@[cm[jj]].src,
                            dst: a,
                        }
                    }),
            decreases cm.len() - j,
        {
            let ci = cur.index();
            proof {
                if j == cm.len() {
                    assert(cur.idx() == Self::endv());
                    assert(false);
                }
                if cm.take(j).contains(cm[j]) {
                    let q = choose|q: int| 0 <= q < j && cm.take(j)[q] == cm[j];
                    assert(cm[q] == cm[j]);
                    assert(false);
                }
                assert(self.edges@[cm[j]] == old(self).edges@[cm[j]]);
            }
            if k == 0 {
                self.edges[ci].src = a;
            } else {
                self.edges[ci].dst = a;
            }
            let nx = if k == 0 {
                self.edges[ci].next_out
            } else {
                self.edges[ci].next_in
            };
            cur = nx;
            proof {
                assert(nx.idx() == old(self).next_of(cm[j], kk));
                assert forall|e2: int|
                    0 <= e2 < old(self).elen() && !cm.take(j + 1).contains(e2)
                        implies #[trigger] self.edges@[e2] == old(self).edges@[e2] by {
                    if e2 != cm[j] {
                        if cm.take(j).contains(e2) {
                            let q = choose|q: int| 0 <= q < j && cm.take(j)[q] == e2;
                            assert(cm.take(j + 1)[q] == e2);
                            assert(false);
                        }
                    } else {
                        assert(cm.take(j + 1)[j] == cm[j]);
                        assert(false);
                    }
                }
                assert forall|jj: int|
                    0 <= jj < j + 1 implies cm.take(j + 1).contains(#[trigger] cm[jj]) by {
                    assert(cm.take(j + 1)[jj] == cm[jj]);
                }
                if j < cm.len() - 1 {
                    assert(old(self).next_of(cm[j], kk) == cm[j + 1]);
                } else {
                    assert(old(self).next_of(cm[j], kk) == Self::endv());
                }
                j = j + 1;
            }
        }
        proof {
            if j < cm.len() {
                assert(0 <= cm[j] < old(self).elen());
                assert(false);
            }
            assert(cm.take(cm.len() as int) =~= cm);
            assert forall|e2: int|
                0 <= e2 < old(self).elen() && !cm.contains(e2) implies #[trigger] self.edges@[e2]
                == old(self).edges@[e2] by {
                if cm.take(cm.len() as int).contains(e2) {
                    assert(cm.contains(e2));
                    assert(false);
                }
            }
        }
    }

    /// Swap-remove the already-unlinked edge `e` from the backing array and
    /// rewrite the links that referenced the displaced (old last) edge to
    /// its new index.
    #[verifier::rlimit(60)]
    fn remove_edge_adjust_indices(&mut self, e: EdgeIndex<Ix>) -> (r: E)
        requires
            old(self).wf_except(e.idx()),
            e.idx() < old(self).elen(),
        ensures
            final(self).wf(),
            final(self).nlen() == old(self).nlen(),
            forall|m: int|
                0 <= m < old(self).nlen() ==> #[trigger] final(self).data_of(m) == old(
                    self,
                ).data_of(m),
            r == old(self).wt_of(e.idx()),
            final(self).elen() == old(self).elen() - 1,
            final(self).triples() == old(self).triples().update(
                e.idx(),
                old(self).triples().last(),
            ).drop_last(),
    {
        let i = e.index();
        let removed = self.edges.swap_remove(i);
        let newlen = self.edges.len();
        let ghost g0 = *old(self);
        let ghost ei = e.idx();
        let ghost bign = newlen as int;
        if i == newlen {
            proof {
                let g2 = *self;
                assert(g2.edges@ =~= g0.edges@.drop_last());
                assert forall|e2: int|
                    0 <= e2 < g2.elen() implies #[trigger] g2.edges@[e2] == g0.edges@[e2] by {}
                assert forall|k: int, n: int|
                    0 <= k < 2 && 0 <= n < g2.nlen() implies #[trigger] g2.chain_ok(k, n) by {
                    assert(g0.chain_ok(k, n));
                    assert(!g0.chain(k, n).contains(ei));
                    let c = g0.chain(k, n);
                    assert forall|j: int|
                        0 <= j < c.len() implies 0 <= #[trigger] c[j] < g2.elen() by {
                        assert(0 <= c[j] < g0.elen());
                        if c[j] == ei {
                            assert(c.contains(c[j]));
                            assert(false);
                        }
                    }
                    assert forall|j: int|
                        0 <= j < c.len() implies #[trigger] g2.next_of(c[j], k) == g0.next_of(
                        c[j],
                        k,
                    ) && g2.node_of(c[j], k) == g0.node_of(c[j], k) by {
                        assert(g2.edges@[c[j]] == g0.edges@[c[j]]);
                    }
                    Self::lemma_chain_ok_transfer(g0, g2, k, n);
                }
                assert forall|e2: int, k: int|
                    0 <= e2 < g2.elen() && 0 <= k < 2 implies 0 <= #[trigger] g2.node_of(e2, k)
                    < g2.nlen() && g2.in_own_chain(k, e2) by {
                    assert(g2.edges@[e2] == g0.edges@[e2]);
                    assert(0 <= g0.node_of(e2, k) < g0.nlen());
                    assert(g0.in_own_chain(k, e2));
                    assert(g2.chain(k, g2.node_of(e2, k)) == g0.chain(k, g0.node_of(e2, k)));
                }
                assert(g2.triples() =~= g0.triples().update(ei, g0.triples().last()).drop_last());
            }
            return removed.weight;
        }
        let l_ix: EdgeIndex<Ix> = EdgeIndex::new(newlen);
        let sw_src = self.edges[i].src;
        let sw_dst = self.edges[i].dst;
        let ghost ga = *self;
        let ghost c0 = g0.chain(0, sw_src.idx());
        let ghost c1 = g0.chain(1, sw_dst.idx());
        proof {
            assert(ga.edges@ == g0.edges@.update(ei, g0.edges@.last()).drop_last());
            assert forall|e2: int|
                0 <= e2 < bign && e2 != ei implies #[trigger] ga.edges@[e2] == g0.edges@[e2] by {}
            assert(ga.edges@[ei] == g0.edges@[bign]);
            assert(g0.in_own_chain(0, bign));
            assert(g0.in_own_chain(1, bign));
            assert(g0.node_of(bign, 0) == sw_src.idx());
            assert(g0.node_of(bign, 1) == sw_dst.idx());
            assert(0 <= sw_src.idx() < g0.nlen());
            assert(0 <= sw_dst.idx() < g0.nlen());
            assert(g0.chain_ok(0, sw_src.idx()));
            assert(g0.chain_ok(1, sw_dst.idx()));
        }
        let ghost p0 = choose|p: int| 0 <= p < c0.len() && c0[p] == bign;
        let ghost p1 = choose|p: int| 0 <= p < c1.len() && c1[p] == bign;
        proof {
            assert(c0.contains(bign));
            assert(c1.contains(bign));
            g0.lemma_take_prefix(0, sw_src.idx(), p0);
            g0.lemma_take_prefix(1, sw_dst.idx(), p1);
            // the prefix conditions hold in the post-swap state: its entries
            // are not `e` (unlinked) and not the displaced index
            assert forall|j: int|
                0 <= j < p0 implies 0 <= #[trigger] c0.take(p0)[j] < ga.elen() && c0.take(p0)[j]
                != l_ix.idx() by {
                assert(c0.take(p0)[j] == c0[j]);
                if c0[j] == ei {
                    assert(c0.contains(c0[j]));
                    assert(false);
                }
            }
            assert(ga.head_of(sw_src.idx(), 0) == g0.head_of(sw_src.idx(), 0));
            assert forall|j: int|
                0 <= j < p0 - 1 implies #[trigger] ga.next_of(c0.take(p0)[j], 0) == c0.take(p0)[j
                + 1] by {
                assert(c0.take(p0)[j] == c0[j]);
                if c0[j] == ei {
                    assert(c0.contains(c0[j]));
                    assert(false);
                }
                assert(ga.edges@[c0.take(p0)[j]] == g0.edges@[c0.take(p0)[j]]);
                assert(g0.next_of(c0[j], 0) == c0[j + 1]);
            }
            if p0 > 0 {
                assert(c0.take(p0)[p0 - 1] == c0[p0 - 1]);
                if c0[p0 - 1] == ei {
                    assert(c0.contains(c0[p0 - 1]));
                    assert(false);
                }
                assert(ga.edges@[c0[p0 - 1]] == g0.edges@[c0[p0 - 1]]);
                assert(ga.next_of(c0.take(p0)[p0 - 1], 0) == g0.next_of(c0[p0 - 1], 0));
            }
        }
        self.redirect_link(sw_src, Direction::Outgoing, l_ix, e, Ghost(c0.take(p0)));
        let ghost gb = *self;
        proof {
            assert(gb.head_of(sw_dst.idx(), 1) == ga.head_of(sw_dst.idx(), 1));
            assert(ga.head_of(sw_dst.idx(), 1) == g0.head_of(sw_dst.idx(), 1));
            assert forall|j: int|
                0 <= j < p1 implies 0 <= #[trigger] c1.take(p1)[j] < gb.elen() && c1.take(p1)[j]
                != l_ix.idx() by {
                assert(c1.take(p1)[j] == c1[j]);
                if c1[j] == ei {
                    assert(c1.contains(c1[j]));
                    assert(false);
                }
            }
            assert forall|j: int|
                0 <= j < p1 - 1 implies #[trigger] gb.next_of(c1.take(p1)[j], 1) == c1.take(p1)[j
                + 1] by {
                assert(c1.take(p1)[j] == c1[j]);
                if c1[j] == ei {
                    assert(c1.contains(c1[j]));
                    assert(false);
                }
                assert(ga.edges@[c1[j]] == g0.edges@[c1[j]]);
                assert(gb.next_of(c1[j], 1) == ga.next_of(c1[j], 1));
                assert(g0.next_of(c1[j], 1) == c1[j + 1]);
            }
            if p1 > 0 {
                assert(c1.take(p1)[p1 - 1] == c1[p1 - 1]);
                if c1[p1 - 1] == ei {
                    assert(c1.contains(c1[p1 - 1]));
                    assert(false);
                }
                assert(ga.edges@[c1[p1 - 1]] == g0.edges@[c1[p1 - 1]]);
                assert(gb.next_of(c1[p1 - 1], 1) == ga.next_of(c1[p1 - 1], 1));
                assert(g0.next_of(c1[p1 - 1], 1) == bign);
            }
        }
        self.redirect_link(sw_dst, Direction::Incoming, l_ix, e, Ghost(c1.take(p1)));
        let ghost gc = *self;
        proof {
            let cc0 = c0.update(p0, ei);
            let cc1 = c1.update(p1, ei);
            self.chains@ = AdjChains {
                cout: self.chains@.cout.insert(sw_src.idx(), cc0),
                cin: self.chains@.cin.insert(sw_dst.idx(), cc1),
            };
            let g2 = *self;
            assert(g2.elen() == bign);
            // the displaced record, and nothing else, changed its triple
            assert forall|e2: int|
                0 <= e2 < bign implies #[trigger] g2.triple(e2) == (if e2 == ei {
                    g0.triple(bign)
                } else {
                    g0.triple(e2)
                }) by {
                assert(gb.triple(e2) == ga.triple(e2));
                assert(gc.triple(e2) == gb.triple(e2));
                assert(g2.triple(e2) == gc.triple(e2));
                if e2 == ei {
                    assert(ga.edges@[e2] == g0.edges@[bign]);
                } else {
                    assert(ga.edges@[e2] == g0.edges@[e2]);
                }
            }
            let ghost t0 = if p0 > 0 { c0[p0 - 1] } else { -1 };
            let ghost t1 = if p1 > 0 { c1[p1 - 1] } else { -1 };
            if p0 > 0 && c0[p0 - 1] == ei {
                assert(c0.contains(c0[p0 - 1]));
                assert(false);
            }
            if p1 > 0 && c1[p1 - 1] == ei {
                assert(c1.contains(c1[p1 - 1]));
                assert(false);
            }
            assert forall|e2: int|
                0 <= e2 < bign && e2 != t0 && e2 != ei implies #[trigger] g2.next_of(e2, 0)
                == g0.next_of(e2, 0) by {
                assert(ga.edges@[e2] == g0.edges@[e2]);
                assert(ga.next_of(e2, 0) == g0.next_of(e2, 0));
                assert(gb.next_of(e2, 0) == ga.next_of(e2, 0));
                assert(gc.next_of(e2, 0) == gb.next_of(e2, 0));
                assert(g2.next_of(e2, 0) == gc.next_of(e2, 0));
            }
            assert forall|e2: int|
                0 <= e2 < bign && e2 != t1 && e2 != ei implies #[trigger] g2.next_of(e2, 1)
                == g0.next_of(e2, 1) by {
                assert(ga.edges@[e2] == g0.edges@[e2]);
                assert(gb.next_of(e2, 1) == ga.next_of(e2, 1));
                assert(gc.next_of(e2, 1) == gb.next_of(e2, 1));
                assert(g2.next_of(e2, 1) == gc.next_of(e2, 1));
            }
            assert(g2.next_of(ei, 0) == g0.next_of(bign, 0)) by {
                assert(ga.edges@[ei] == g0.edges@[bign]);
                assert(ga.next_of(ei, 0) == g0.next_of(bign, 0));
                assert(gb.next_of(ei, 0) == ga.next_of(ei, 0));
                assert(gc.next_of(ei, 0) == gb.next_of(ei, 0));
                assert(g2.next_of(ei, 0) == gc.next_of(ei, 0));
            }
            assert(g2.next_of(ei, 1) == g0.next_of(bign, 1)) by {
                assert(ga.edges@[ei] == g0.edges@[bign]);
                assert(gb.next_of(ei, 1) == ga.next_of(ei, 1));
                assert(gc.next_of(ei, 1) == gb.next_of(ei, 1));
                assert(g2.next_of(ei, 1) == gc.next_of(ei, 1));
            }
            if p0 > 0 {
                assert(g2.next_of(t0, 0) == ei) by {
                    assert(gb.next_of(t0, 0) == ei);
                    assert(gc.next_of(t0, 0) == gb.next_of(t0, 0));
                    assert(g2.next_of(t0, 0) == gc.next_of(t0, 0));
                }
            }
            if p1 > 0 {
                assert(g2.next_of(t1, 1) == ei) by {
                    assert(gc.next_of(t1, 1) == ei);
                    assert(g2.next_of(t1, 1) == gc.next_of(t1, 1));
                }
            }
            assert forall|m: int, k: int|
                0 <= m < g2.nlen() && 0 <= k < 2 && !(k == 0 && m == sw_src.idx() && p0 == 0) && !(
                k == 1 && m == sw_dst.idx() && p1 == 0) implies #[trigger] g2.head_of(m, k)
                == g0.head_of(m, k) by {
                assert(ga.head_of(m, k) == g0.head_of(m, k));
                assert(gb.head_of(m, k) == ga.head_of(m, k));
                assert(gc.head_of(m, k) == gb.head_of(m, k));
                assert(g2.head_of(m, k) == gc.head_of(m, k));
            }
            if p0 == 0 {
                assert(g2.head_of(sw_src.idx(), 0) == ei) by {
                    assert(gb.head_of(sw_src.idx(), 0) == ei);
                    assert(gc.head_of(sw_src.idx(), 0) == gb.head_of(sw_src.idx(), 0));
                }
            }
            if p1 == 0 {
                assert(g2.head_of(sw_dst.idx(), 1) == ei) by {
                    assert(gc.head_of(sw_dst.idx(), 1) == ei);
                }
            }
            // the two rewritten lists are properly linked
            assert(g2.chain(0, sw_src.idx()) == cc0);
            assert(g2.chain(1, sw_dst.idx()) == cc1);
            assert(g2.chain_ok(0, sw_src.idx())) by {
                assert forall|j: int|
                    0 <= j < cc0.len() implies 0 <= #[trigger] cc0[j] < g2.elen() && g2.node_of(
                    cc0[j],
                    0,
                ) == sw_src.idx() by {
                    if j == p0 {
                        assert(cc0[j] == ei);
                        assert(g2.triple(ei) == g0.triple(bign));
                    } else {
                        assert(cc0[j] == c0[j]);
                        if c0[j] == ei {
                            assert(c0.contains(c0[j]));
                            assert(false);
                        }
                        assert(g2.triple(c0[j]) == g0.triple(c0[j]));
                        assert(g0.node_of(c0[j], 0) == sw_src.idx());
                    }
                }
                if p0 == 0 {
                    assert(cc0[0] == ei);
                } else {
                    assert(cc0[0] == c0[0]);
                    assert(g2.head_of(sw_src.idx(), 0) == g0.head_of(sw_src.idx(), 0));
                }
                assert forall|j: int|
                    0 <= j < cc0.len() - 1 implies #[trigger] g2.next_of(cc0[j], 0) == cc0[j
                    + 1] by {
                    if j == p0 {
                        assert(cc0[j] == ei);
                        assert(t0 != ei);
                        assert(g2.next_of(ei, 0) == g0.next_of(bign, 0));
                        assert(g0.next_of(c0[p0], 0) == c0[p0 + 1]);
                        assert(cc0[j + 1] == c0[p0 + 1]);
                        if c0[p0 + 1] == bign {
                            assert(false);
                        }
                    } else if j == p0 - 1 {
                        assert(cc0[j] == t0);
                        if t0 == ei {
                            assert(c0.contains(t0));
                            assert(false);
                        }
                        assert(g2.next_of(t0, 0) == ei);
                        assert(cc0[j + 1] == ei);
                    } else {
                        assert(cc0[j] == c0[j]);
                        assert(0 <= c0[j] < g0.elen());
                        if c0[j] == ei {
                            assert(c0.contains(c0[j]));
                            assert(false);
                        }
                        if p0 > 0 {
                            if j < p0 - 1 {
                                assert(c0[j] != c0[p0 - 1]);
                            } else {
                                assert(c0[p0 - 1] != c0[j]);
                            }
                        }
                        assert(c0[j] != t0);
                        assert(g2.next_of(c0[j], 0) == g0.next_of(c0[j], 0));
                        assert(g0.next_of(c0[j], 0) == c0[j + 1]);
                        assert(cc0[j + 1] == (if j + 1 == p0 {
                            ei
                        } else {
                            c0[j + 1]
                        }));
                        if j + 1 == p0 {
                            assert(c0[j + 1] == bign);
                            assert(false) by {
                                assert(g0.next_of(c0[j], 0) == c0[j + 1]);
                                assert(cc0[j + 1] == ei);
                                assert(c0[p0] == bign);
                            }
                        }
                    }
                }
                if cc0.len() > 0 {
                    let lj = cc0.len() - 1;
                    if lj == p0 {
                        assert(cc0[lj] == ei);
                        assert(t0 != ei);
                        assert(g2.next_of(ei, 0) == g0.next_of(bign, 0));
                        assert(g0.next_of(c0[c0.len() - 1], 0) == Self::endv());
                    } else {
                        assert(cc0[lj] == c0[lj]);
                        assert(0 <= c0[lj] < g0.elen());
                        if c0[lj] == ei {
                            assert(c0.contains(c0[lj]));
                            assert(false);
                        }
                        if p0 > 0 && lj != p0 - 1 {
                            if lj < p0 - 1 {
                                assert(c0[lj] != c0[p0 - 1]);
                            } else {
                                assert(c0[p0 - 1] != c0[lj]);
                            }
                        }
                        assert(c0[lj] != t0);
                        assert(g2.next_of(c0[lj], 0) == g0.next_of(c0[lj], 0));
                        assert(g0.next_of(c0[c0.len() - 1], 0) == Self::endv());
                    }
                }
            }
            assert(g2.chain_ok(1, sw_dst.idx())) by {
                assert forall|j: int|
                    0 <= j < cc1.len() implies 0 <= #[trigger] cc1[j] < g2.elen() && g2.node_of(
                    cc1[j],
                    1,
                ) == sw_dst.idx() by {
                    if j == p1 {
                        assert(cc1[j] == ei);
                        assert(g2.triple(ei) == g0.triple(bign));
                    } else {
                        assert(cc1[j] == c1[j]);
                        if c1[j] == ei {
                            assert(c1.contains(c1[j]));
                            assert(false);
                        }
                        assert(g2.triple(c1[j]) == g0.triple(c1[j]));
                        assert(g0.node_of(c1[j], 1) == sw_dst.idx());
                    }
                }
                if p1 == 0 {
                    assert(cc1[0] == ei);
                } else {
                    assert(cc1[0] == c1[0]);
                    assert(g2.head_of(sw_dst.idx(), 1) == g0.head_of(sw_dst.idx(), 1));
                }
                assert forall|j: int|
                    0 <= j < cc1.len() - 1 implies #[trigger] g2.next_of(cc1[j], 1) == cc1[j
                    + 1] by {
                    if j == p1 {
                        assert(cc1[j] == ei);
                        assert(t1 != ei);
                        assert(g2.next_of(ei, 1) == g0.next_of(bign, 1));
                        assert(g0.next_of(c1[p1], 1) == c1[p1 + 1]);
                        assert(cc1[j + 1] == c1[p1 + 1]);
                        if c1[p1 + 1] == bign {
                            assert(false);
                        }
                    } else if j == p1 - 1 {
                        assert(cc1[j] == t1);
                        if t1 == ei {
                            assert(c1.contains(t1));
                            assert(false);
                        }
                        assert(g2.next_of(t1, 1) == ei);
                        assert(cc1[j + 1] == ei);
                    } else {
                        assert(cc1[j] == c1[j]);
                        assert(0 <= c1[j] < g0.elen());
                        if c1[j] == ei {
                            assert(c1.contains(c1[j]));
                            assert(false);
                        }
                        if p1 > 0 {
                            if j < p1 - 1 {
                                assert(c1[j] != c1[p1 - 1]);
                            } else {
                                assert(c1[p1 - 1] != c1[j]);
                            }
                        }
                        assert(c1[j] != t1);
                        assert(g2.next_of(c1[j], 1) == g0.next_of(c1[j], 1));
                        assert(g0.next_of(c1[j], 1) == c1[j + 1]);
                        if j + 1 == p1 {
                            assert(c1[j + 1] == bign);
                            assert(false);
                        }
                    }
                }
                if cc1.len() > 0 {
                    let lj = cc1.len() - 1;
                    if lj == p1 {
                        assert(cc1[lj] == ei);
                        assert(t1 != ei);
                        assert(g2.next_of(ei, 1) == g0.next_of(bign, 1));
                        assert(g0.next_of(c1[c1.len() - 1], 1) == Self::endv());
                    } else {
                        assert(cc1[lj] == c1[lj]);
                        assert(0 <= c1[lj] < g0.elen());
                        if c1[lj] == ei {
                            assert(c1.contains(c1[lj]));
                            assert(false);
                        }
                        if p1 > 0 && lj != p1 - 1 {
                            if lj < p1 - 1 {
                                assert(c1[lj] != c1[p1 - 1]);
                            } else {
                                assert(c1[p1 - 1] != c1[lj]);
                            }
                        }
                        assert(c1[lj] != t1);
                        assert(g2.next_of(c1[lj], 1) == g0.next_of(c1[lj], 1));
                        assert(g0.next_of(c1[c1.len() - 1], 1) == Self::endv());
                    }
                }
            }
            // all other lists are untouched
            assert forall|k: int, n: int|
                0 <= k < 2 && 0 <= n < g2.nlen() implies #[trigger] g2.chain_ok(k, n) by {
                if k == 0 && n == sw_src.idx() {
                } else if k == 1 && n == sw_dst.idx() {
                } else {
                    assert(g0.chain_ok(k, n));
                    assert(g2.chain(k, n) == g0.chain(k, n));
                    assert(g2.head_of(n, k) == g0.head_of(n, k));
                    let c = g0.chain(k, n);
                    let t = if k == 0 { t0 } else { t1 };
                    let swn = if k == 0 { sw_src.idx() } else { sw_dst.idx() };
                    assert forall|j: int|
                        0 <= j < c.len() implies 0 <= #[trigger] c[j] < g2.elen() && g2.next_of(
                        c[j],
                        k,
                    ) == g0.next_of(c[j], k) && g2.node_of(c[j], k) == g0.node_of(c[j], k) by {
                        assert(g0.node_of(c[j], k) == n);
                        if c[j] == ei {
                            assert(c.contains(c[j]));
                            assert(false);
                        }
                        if c[j] == bign {
                            assert(g0.node_of(bign, k) == swn);
                            assert(false);
                        }
                        if c[j] == t {
                            assert(g0.node_of(t, k) == swn);
                            assert(false);
                        }
                        assert(g2.triple(c[j]) == g0.triple(c[j]));
                    }
                    Self::lemma_chain_ok_transfer(g0, g2, k, n);
                }
            }
            // endpoint validity and membership
            assert forall|e2: int, k: int|
                0 <= e2 < g2.elen() && 0 <= k < 2 implies 0 <= #[trigger] g2.node_of(e2, k)
                < g2.nlen() && g2.in_own_chain(k, e2) by {
                if e2 == ei {
                    assert(g2.triple(e2) == g0.triple(bign));
                    assert(0 <= g0.node_of(bign, k) < g0.nlen());
                    if k == 0 {
                        assert(g2.node_of(e2, 0) == sw_src.idx());
                        assert(cc0[p0] == ei);
                        assert(g2.chain(0, sw_src.idx()).contains(e2));
                    } else {
                        assert(g2.node_of(e2, 1) == sw_dst.idx());
                        assert(cc1[p1] == ei);
                        assert(g2.chain(1, sw_dst.idx()).contains(e2));
                    }
                } else {
                    assert(g2.triple(e2) == g0.triple(e2));
                    assert(0 <= g0.node_of(e2, k) < g0.nlen());
                    assert(g0.in_own_chain(k, e2));
                    let nd = g0.node_of(e2, k);
                    let cold = g0.chain(k, nd);
                    let q = choose|q: int| 0 <= q < cold.len() && cold[q] == e2;
                    if k == 0 && nd == sw_src.idx() {
                        assert(q != p0);
                        assert(cc0[q] == c0[q] == e2);
                        assert(g2.chain(k, nd).contains(e2));
                    } else if k == 1 && nd == sw_dst.idx() {
                        assert(q != p1);
                        assert(cc1[q] == c1[q] == e2);
                        assert(g2.chain(k, nd).contains(e2));
                    } else {
                        assert(g2.chain(k, nd) == cold);
                        assert(g2.chain(k, nd).contains(e2));
                    }
                }
            }
            assert(g2.wf());
            assert(g2.triples() =~= g0.triples().update(ei, g0.triples().last()).drop_last());
            assert forall|m: int|
                0 <= m < g0.nlen() implies #[trigger] g2.data_of(m) == g0.data_of(m) by {
                assert(ga.data_of(m) == g0.data_of(m));
                assert(gb.data_of(m) == ga.data_of(m));
                assert(gc.data_of(m) == gb.data_of(m));
                assert(g2.data_of(m) == gc.data_of(m));
            }
        }
        removed.weight
    }

    /// Walk node `a`'s list in direction `dir`, returning the first edge
    /// whose opposite endpoint is `b`. Private walker shared by the lookup
    /// functions.
    #[verifier::loop_isolation(false)]
    fn find_edge_in_list(&self, a: NodeIndex<Ix>, dir: Direction, b: NodeIndex<Ix>) -> (r: Option<
        EdgeIndex<Ix>,
    >)
        requires
            self.wf(),
            a.idx() < self.nlen(),
        ensures
            match r {
                Some(eix) => self.find_in_chain(self.chain(dir.k(), a.idx()), dir.k(), b.idx())
                    == Some(eix.idx()),
                None => self.find_in_chain(self.chain(dir.k(), a.idx()), dir.k(), b.idx()) is None,
            },
    {
        let k = dir.index();
        let ghost kk = dir.k();
        let ghost c = self.chain(kk, a.idx());
        proof {
            assert(self.chain_ok(kk, a.idx()));
        }
        let ia = a.index();
        let mut edix: EdgeIndex<Ix> = if k == 0 {
            self.nodes[ia].next_out
        } else {
            self.nodes[ia].next_in
        };
        let ghost j: int = 0;
        proof {
            assert(c.skip(0) =~= c);
        }
        loop
            invariant
                0 <= j <= c.len(),
                j < c.len() ==> edix.idx() == c[j],
                j == c.len() ==> edix.idx() == Self::endv(),
                self.find_in_chain(c, kk, b.idx()) == self.find_in_chain(c.skip(j), kk, b.idx()),
            decreases c.len() - j,
        {
            let i = edix.index();
            if i >= self.edges.len() {
                proof {
                    if j < c.len() {
                        assert(0 <= c[j] < self.elen());
                        assert(false);
                    }
                    assert(c.skip(j) =~= Seq::<int>::empty());
                }
                return None;
            }
            proof {
                if j == c.len() {
                    assert(edix.idx() == Self::endv());
                    assert(false);
                }
                assert(c.skip(j)[0] == c[j]);
            }
            let matches_b = if k == 0 {
                self.edges[i].dst == b
            } else {
                self.edges[i].src == b
            };
            if matches_b {
                proof {
                    assert(self.node_of(c[j], 1 - kk) == b.idx());
                }
                return Some(edix);
            }
            edix = if k == 0 {
                self.edges[i].next_out
            } else {
                self.edges[i].next_in
            };
            proof {
                assert(self.node_of(c[j], 1 - kk) != b.idx());
                assert(c.skip(j).drop_first() =~= c.skip(j + 1));
                if j < c.len() - 1 {
                    assert(self.next_of(c[j], kk) == c[j + 1]);
                } else {
                    assert(self.next_of(c[j], kk) == Self::endv());
                }
                j = j + 1;
            }
        }
    }

    /// Lookup whether there is an edge from `a` to `b`, honoring
    /// directedness.
    ///
    /// Computes in **O(e')** time, where **e'** is the number of edges
    /// connected to `a` (and `b` if the graph edges are undirected).
    pub fn contains_edge(&self, a: NodeIndex<Ix>, b: NodeIndex<Ix>) -> (r: bool)
        requires
            self.wf(),
        ensures
            r == self.spec_contains_edge(a.idx(), b.idx()),
    {
        self.find_edge(a, b).is_some()
    }

    /// Lookup an edge from `a` to `b`, honoring directedness: the first
    /// matching edge on `a`'s lists. Returns `Some` if and only if such an
    /// edge exists anywhere in the graph.
    ///
    /// Computes in **O(e')** time, where **e'** is the number of edges
    /// connected to `a` (and `b` if the graph edges are undirected).
    pub fn find_edge(&self, a: NodeIndex<Ix>, b: NodeIndex<Ix>) -> (r: Option<EdgeIndex<Ix>>)
        requires
            self.wf(),
        ensures
            match r {
                Some(e) => {
                    &&& self.spec_find_edge(a.idx(), b.idx()) == Some(e.idx())
                    &&& 0 <= e.idx() < self.elen()
                    &&& if Ty::spec_is_directed() {
                        self.edge_connects(e.idx(), a.idx(), b.idx())
                    } else {
                        self.edge_connects(e.idx(), a.idx(), b.idx()) || self.edge_connects(
                            e.idx(),
                            b.idx(),
                            a.idx(),
                        )
                    }
                },
                None => self.spec_find_edge(a.idx(), b.idx()) is None,
            },
            (r is Some) <==> self.spec_contains_edge(a.idx(), b.idx()),
    {
        proof {
            self.lemma_find_edge_exists(a.idx(), b.idx());
        }
        if !self.is_directed() {
            match self.find_edge_undirected(a, b) {
                Some((ix, _)) => Some(ix),
                None => None,
            }
        } else {
            let ia = a.index();
            if ia < self.nodes.len() {
                self.find_edge_in_list(a, Direction::Outgoing, b)
            } else {
                None
            }
        }
    }

    /// Lookup an edge between `a` and `b`, in either direction.
    ///
    /// If the graph is undirected, then this is equivalent to `find_edge`.
    ///
    /// Return the edge index and its directionality, with `Outgoing`
    /// meaning from `a` to `b` and `Incoming` the reverse. Returns `Some`
    /// if and only if an edge connects `a` and `b` in some orientation.
    pub fn find_edge_undirected(&self, a: NodeIndex<Ix>, b: NodeIndex<Ix>) -> (r: Option<(
        EdgeIndex<Ix>,
        Direction,
    )>)
        requires
            self.wf(),
        ensures
            match r {
                Some(p) => {
                    &&& self.spec_find_undirected(a.idx(), b.idx()) == Some((p.0.idx(), p.1))
                    &&& 0 <= p.0.idx() < self.elen()
                    &&& if p.1 == Direction::Outgoing {
                        self.edge_connects(p.0.idx(), a.idx(), b.idx())
                    } else {
                        self.edge_connects(p.0.idx(), b.idx(), a.idx())
                    }
                },
                None => self.spec_find_undirected(a.idx(), b.idx()) is None,
            },
            (r is Some) <==> (self.spec_connected(a.idx(), b.idx()) || self.spec_connected(
                b.idx(),
                a.idx(),
            )),
    {
        proof {
            self.lemma_find_edge_exists(a.idx(), b.idx());
        }
        let ia = a.index();
        if ia < self.nodes.len() {
            match self.find_edge_in_list(a, Direction::Outgoing, b) {
                Some(ix) => Some((ix, Direction::Outgoing)),
                None => match self.find_edge_in_list(a, Direction::Incoming, b) {
                    Some(ix) => Some((ix, Direction::Incoming)),
                    None => None,
                },
            }
        } else {
            None
        }
    }

    /// Create a new `Graph` with estimated capacity.
    pub fn with_capacity(nodes: usize, edges: usize) -> (g: Self)
        ensures
            g.wf(),
            g.nlen() == 0,
            g.elen() == 0,
    {
        Graph {
            nodes: Vec::with_capacity(nodes),
            edges: Vec::with_capacity(edges),
            ty: PhantomData,
            chains: Ghost(
                AdjChains { cout: Map::empty(), cin: Map::empty() },
            ),
        }
    }

    /// Return the number of nodes (vertices) in the graph.
    ///
    /// Computes in **O(1)** time.
    pub fn node_count(&self) -> (r: usize)
        ensures
            r == self.nlen(),
    {
        self.nodes.len()
    }

    /// Return the number of edges in the graph.
    ///
    /// Computes in **O(1)** time.
    pub fn edge_count(&self) -> (r: usize)
        ensures
            r == self.elen(),
    {
        self.edges.len()
    }

    /// Whether the graph has directed edges or not.
    #[inline]
    pub fn is_directed(&self) -> (r: bool)
        ensures
            r == Ty::spec_is_directed(),
    {
        Ty::is_directed()
    }

    /// Add a node with associated `data` to the graph, and return its index.
    ///
    /// The new node's index is the old node count, and no existing node or
    /// edge moves. The graph must not be at the maximum number of nodes for
    /// its index type.
    ///
    /// Computes in **O(1)** time.
    pub fn add_node(&mut self, data: N) -> (r: NodeIndex<Ix>)
        requires
            old(self).wf(),
            old(self).nlen() < Ix::spec_max(),
        ensures
            final(self).wf(),
            r.idx() == old(self).nlen(),
            final(self).nlen() == old(self).nlen() + 1,
            final(self).edges@ == old(self).edges@,
            forall|i: int| 0 <= i < old(self).nlen() ==> final(self).nodes@[i] == old(self).nodes@[i],
            final(self).data_of(r.idx()) == data,
            final(self).head_of(r.idx(), 0) == Self::endv(),
            final(self).head_of(r.idx(), 1) == Self::endv(),
            forall|k: int, n: int|
                0 <= k < 2 && 0 <= n < old(self).nlen() ==> #[trigger] final(self).chain(k, n)
                    == old(self).chain(k, n),
            forall|k: int| 0 <= k < 2 ==> #[trigger] final(self).chain(k, r.idx()) == Seq::<int>::empty(),
    {
        let node_idx: NodeIndex<Ix> = NodeIndex::new(self.nodes.len());
        let new_node = Node { data, next_out: EdgeIndex::end(), next_in: EdgeIndex::end() };
        let ghost pushed = new_node;
        self.nodes.push(new_node);
        proof {
            let n0 = old(self).nlen();
            self.chains@ = AdjChains {
                cout: self.chains@.cout.insert(n0, Seq::empty()),
                cin: self.chains@.cin.insert(n0, Seq::empty()),
            };
            assert forall|e: int, k: int|
                0 <= e < self.elen() && 0 <= k < 2 implies 0 <= #[trigger] self.node_of(e, k)
                < self.nlen() by {
                assert(0 <= old(self).node_of(e, k) < old(self).nlen());
            }
            assert forall|k: int, n: int|
                0 <= k < 2 && 0 <= n < self.nlen() implies #[trigger] self.chain_ok(k, n) by {
                if n < n0 {
                    assert(old(self).chain_ok(k, n));
                    assert(self.chain(k, n) == old(self).chain(k, n));
                    assert(self.nodes@[n] == old(self).nodes@[n]);
                    assert(self.head_of(n, k) == old(self).head_of(n, k));
                    assert forall|e: int|
                        0 <= e < old(self).elen() implies #[trigger] self.next_of(e, k) == old(
                        self,
                    ).next_of(e, k) by {}
                    assert forall|e: int|
                        0 <= e < old(self).elen() implies #[trigger] self.node_of(e, k) == old(
                        self,
                    ).node_of(e, k) by {}
                    lemma_chain_ok_frame(*old(self), *self, k, n);
                } else {
                    assert(self.chain(k, n) == Seq::<int>::empty());
                    assert(self.nodes@[n] == pushed);
                    assert(self.head_of(n, k) == Self::endv());
                }
            }
            assert forall|e: int, k: int|
                0 <= e < self.elen() && 0 <= k < 2 implies #[trigger] self.in_own_chain(k, e) by {
                assert(old(self).in_own_chain(k, e));
                assert(self.node_of(e, k) == old(self).node_of(e, k));
                assert(0 <= self.node_of(e, k) < n0);
                assert(self.chain(k, self.node_of(e, k)) == old(self).chain(k, old(self).node_of(e, k)));
            }
        }
        node_idx
    }

    /// Add an edge from `a` to `b` to the graph, with its associated
    /// `weight`, and return its index.
    ///
    /// The new edge's index is the old edge count; it is spliced onto the
    /// head of `a`'s outgoing list and `b`'s incoming list, so the most
    /// recently added edge is found first during traversal. No existing
    /// node or edge moves, and parallel (duplicate) edges are permitted:
    /// use `update_edge` to avoid them.
    ///
    /// Both endpoints must exist, and the graph must not be at the maximum
    /// number of edges for its index type.
    ///
    /// Computes in **O(1)** time.
    pub fn add_edge(&mut self, a: NodeIndex<Ix>, b: NodeIndex<Ix>, weight: E) -> (r: EdgeIndex<
        Ix,
    >)
        requires
            old(self).wf(),
            a.idx() < old(self).nlen(),
            b.idx() < old(self).nlen(),
            old(self).elen() < Ix::spec_max(),
        ensures
            final(self).wf(),
            r.idx() == old(self).elen(),
            final(self).nlen() == old(self).nlen(),
            final(self).elen() == old(self).elen() + 1,
            forall|e: int|
                0 <= e < old(self).elen() ==> #[trigger] final(self).triple(e) == old(self).triple(
                    e,
                ),
            forall|n: int|
                0 <= n < old(self).nlen() ==> #[trigger] final(self).data_of(n) == old(
                    self,
                ).data_of(n),
            final(self).triple(r.idx()) == (a.idx(), b.idx(), weight),
            final(self).chain(0, a.idx()) == seq![old(self).elen()] + old(self).chain(0, a.idx()),
            final(self).chain(1, b.idx()) == seq![old(self).elen()] + old(self).chain(1, b.idx()),
            forall|n: int|
                0 <= n < old(self).nlen() && n != a.idx() ==> #[trigger] final(self).chain(0, n)
                    == old(self).chain(0, n),
            forall|n: int|
                0 <= n < old(self).nlen() && n != b.idx() ==> #[trigger] final(self).chain(1, n)
                    == old(self).chain(1, n),
    {
        let edge_idx: EdgeIndex<Ix> = EdgeIndex::new(self.edges.len());
        let ia = a.index();
        let ib = b.index();
        // read both list heads first, then write both: the two-phase order
        // keeps the `a == b` self-loop case free of aliased borrows
        let h0 = self.nodes[ia].next_out;
        let h1 = self.nodes[ib].next_in;
        let new_edge = Edge { weight, next_out: h0, next_in: h1, src: a, dst: b };
        let ghost pushed = new_edge;
        self.edges.push(new_edge);
        self.nodes[ia].next_out = edge_idx;
        self.nodes[ib].next_in = edge_idx;
        proof {
            let e0 = old(self).elen();
            self.chains@ = AdjChains {
                cout: self.chains@.cout.insert(
                    a.idx(),
                    seq![e0] + old(self).chain(0, a.idx()),
                ),
                cin: self.chains@.cin.insert(
                    b.idx(),
                    seq![e0] + old(self).chain(1, b.idx()),
                ),
            };
            assert(self.edges@[e0] == pushed);
            assert forall|e: int, k: int|
                0 <= e < old(self).elen() && 0 <= k < 2 implies #[trigger] self.next_of(e, k)
                == old(self).next_of(e, k) && self.node_of(e, k) == old(self).node_of(e, k) by {
                assert(self.edges@[e] == old(self).edges@[e]);
            }
            assert forall|e: int, k: int|
                0 <= e < self.elen() && 0 <= k < 2 implies 0 <= #[trigger] self.node_of(e, k)
                < self.nlen() by {
                if e < e0 {
                    assert(0 <= old(self).node_of(e, k) < old(self).nlen());
                }
            }
            assert forall|k: int, n: int|
                0 <= k < 2 && 0 <= n < self.nlen() implies #[trigger] self.chain_ok(k, n) by {
                assert(old(self).chain_ok(k, n));
                if k == 0 && n == a.idx() {
                    let c0 = old(self).chain(0, n);
                    let c = self.chain(0, n);
                    assert(c == seq![e0] + c0);
                    assert(c[0] == e0);
                    assert forall|j: int| 1 <= j < c.len() implies c[j] == c0[j - 1] by {}
                    assert(self.head_of(n, 0) == e0);
                    assert forall|j: int|
                        0 <= j < c.len() implies 0 <= #[trigger] c[j] < self.elen()
                        && self.node_of(c[j], 0) == n by {
                        if j > 0 {
                            assert(0 <= c0[j - 1] < e0);
                            assert(old(self).node_of(c0[j - 1], 0) == n);
                        }
                    }
                    assert forall|j: int|
                        0 <= j < c.len() - 1 implies #[trigger] self.next_of(c[j], 0) == c[j
                        + 1] by {
                        if j == 0 {
                            assert(self.next_of(e0, 0) == h0.idx());
                            assert(old(self).head_of(n, 0) == h0.idx());
                        } else {
                            assert(old(self).next_of(c0[j - 1], 0) == c0[j]);
                        }
                    }
                    if c0.len() > 0 {
                        assert(self.next_of(c[c.len() - 1], 0) == old(self).next_of(
                            c0[c0.len() - 1],
                            0,
                        ));
                    } else {
                        assert(self.next_of(c[0], 0) == h0.idx());
                        assert(old(self).head_of(n, 0) == Self::endv());
                    }
                } else if k == 1 && n == b.idx() {
                    let c0 = old(self).chain(1, n);
                    let c = self.chain(1, n);
                    assert(c == seq![e0] + c0);
                    assert(c[0] == e0);
                    assert forall|j: int| 1 <= j < c.len() implies c[j] == c0[j - 1] by {}
                    assert(self.head_of(n, 1) == e0);
                    assert forall|j: int|
                        0 <= j < c.len() implies 0 <= #[trigger] c[j] < self.elen()
                        && self.node_of(c[j], 1) == n by {
                        if j > 0 {
                            assert(0 <= c0[j - 1] < e0);
                            assert(old(self).node_of(c0[j - 1], 1) == n);
                        }
                    }
                    assert forall|j: int|
                        0 <= j < c.len() - 1 implies #[trigger] self.next_of(c[j], 1) == c[j
                        + 1] by {
                        if j == 0 {
                            assert(self.next_of(e0, 1) == h1.idx());
                            assert(old(self).head_of(n, 1) == h1.idx());
                        } else {
                            assert(old(self).next_of(c0[j - 1], 1) == c0[j]);
                        }
                    }
                    if c0.len() > 0 {
                        assert(self.next_of(c[c.len() - 1], 1) == old(self).next_of(
                            c0[c0.len() - 1],
                            1,
                        ));
                    } else {
                        assert(self.next_of(c[0], 1) == h1.idx());
                        assert(old(self).head_of(n, 1) == Self::endv());
                    }
                } else {
                    assert(self.chain(k, n) == old(self).chain(k, n));
                    assert(self.head_of(n, k) == old(self).head_of(n, k));
                    lemma_chain_ok_frame(*old(self), *self, k, n);
                }
            }
            assert forall|e: int, k: int|
                0 <= e < self.elen() && 0 <= k < 2 implies #[trigger] self.in_own_chain(k, e) by {
                let e0i = e0;
                if e < e0i {
                    assert(old(self).in_own_chain(k, e));
                    let nd = old(self).node_of(e, k);
                    assert(self.node_of(e, k) == nd);
                    let c0 = old(self).chain(k, nd);
                    let i = choose|i: int| 0 <= i < c0.len() && c0[i] == e;
                    if k == 0 && nd == a.idx() {
                        assert((seq![e0i] + c0)[i + 1] == e);
                        assert(self.chain(k, nd) == seq![e0i] + c0);
                    } else if k == 1 && nd == b.idx() {
                        assert((seq![e0i] + c0)[i + 1] == e);
                        assert(self.chain(k, nd) == seq![e0i] + c0);
                    } else {
                        assert(self.chain(k, nd) == c0);
                    }
                    assert(self.chain(k, nd).contains(e));
                } else {
                    if k == 0 {
                        assert(self.node_of(e, 0) == a.idx());
                        assert(self.chain(0, a.idx())[0] == e0i);
                        assert(self.chain(0, a.idx()).contains(e));
                    } else {
                        assert(self.node_of(e, 1) == b.idx());
                        assert(self.chain(1, b.idx())[0] == e0i);
                        assert(self.chain(1, b.idx()).contains(e));
                    }
                }
            }
        }
        edge_idx
    }

    /// Access the data for node `a`, or `None` exactly when `a` is not a
    /// valid node index.
    pub fn node_data(&self, a: NodeIndex<Ix>) -> (r: Option<&N>)
        ensures
            match r {
                Some(d) => a.idx() < self.nlen() && *d == self.data_of(a.idx()),
                None => a.idx() >= self.nlen(),
            },
    {
        let i = a.index();
        if i < self.nodes.len() {
            Some(&self.nodes[i].data)
        } else {
            None
        }
    }

    /// Access the data for node `a` mutably, or `None` exactly when `a` is
    /// not a valid node index. Only that node's data changes.
    pub fn node_data_mut(&mut self, a: NodeIndex<Ix>) -> (r: Option<&mut N>)
        ensures
            match r {
                None => a.idx() >= old(self).nlen() && *final(self) == *old(self),
                Some(m) => {
                    &&& a.idx() < old(self).nlen()
                    &&& *m == old(self).data_of(a.idx())
                    &&& final(self).nodes@ == old(self).nodes@.update(
                        a.idx(),
                        Node {
                            data: *final(r.unwrap()),
                            next_out: old(self).nodes@[a.idx()].next_out,
                            next_in: old(self).nodes@[a.idx()].next_in,
                        },
                    )
                    &&& final(self).edges@ == old(self).edges@
                    &&& final(self).chains == old(self).chains
                },
            },
    {
        let i = a.index();
        if i < self.nodes.len() {
            Some(&mut self.nodes[i].data)
        } else {
            None
        }
    }

    /// Access the weight for edge `e`, or `None` exactly when `e` is not a
    /// valid edge index.
    pub fn edge_weight(&self, e: EdgeIndex<Ix>) -> (r: Option<&E>)
        ensures
            match r {
                Some(w) => e.idx() < self.elen() && *w == self.wt_of(e.idx()),
                None => e.idx() >= self.elen(),
            },
    {
        let i = e.index();
        if i < self.edges.len() {
            Some(&self.edges[i].weight)
        } else {
            None
        }
    }

    /// Access the weight for edge `e` mutably, or `None` exactly when `e`
    /// is not a valid edge index. Only that edge's weight changes: the
    /// structure (endpoints, links, adjacency lists) stays as it was.
    pub fn edge_weight_mut(&mut self, e: EdgeIndex<Ix>) -> (r: Option<&mut E>)
        ensures
            match r {
                None => e.idx() >= old(self).elen() && *final(self) == *old(self),
                Some(m) => {
                    &&& e.idx() < old(self).elen()
                    &&& *m == old(self).wt_of(e.idx())
                    &&& final(self).edges@ == old(self).edges@.update(
                        e.idx(),
                        Edge {
                            weight: *final(r.unwrap()),
                            next_out: old(self).edges@[e.idx()].next_out,
                            next_in: old(self).edges@[e.idx()].next_in,
                            src: old(self).edges@[e.idx()].src,
                            dst: old(self).edges@[e.idx()].dst,
                        },
                    )
                    &&& final(self).nodes@ == old(self).nodes@
                    &&& final(self).chains == old(self).chains
                },
            },
    {
        let i = e.index();
        if i < self.edges.len() {
            Some(&mut self.edges[i].weight)
        } else {
            None
        }
    }

    /// Access the source and target nodes for `e`, or `None` exactly when
    /// `e` is not a valid edge index.
    pub fn edge_endpoints(&self, e: EdgeIndex<Ix>) -> (r: Option<(NodeIndex<Ix>, NodeIndex<Ix>)>)
        ensures
            match r {
                Some(p) => e.idx() < self.elen() && p.0.idx() == self.node_of(e.idx(), 0)
                    && p.1.idx() == self.node_of(e.idx(), 1),
                None => e.idx() >= self.elen(),
            },
    {
        let i = e.index();
        if i < self.edges.len() {
            Some((self.edges[i].src, self.edges[i].dst))
        } else {
            None
        }
    }

    /// Accessor for data structure internals: the first edge on node `a`'s
    /// list in the given direction, or `None` if the node does not exist or
    /// its list is empty.
    pub fn first_edge(&self, a: NodeIndex<Ix>, dir: Direction) -> (r: Option<EdgeIndex<Ix>>)
        ensures
            match r {
                Some(eix) => a.idx() < self.nlen() && self.head_of(a.idx(), dir.k()) == eix.idx()
                    && eix.idx() != Self::endv(),
                None => a.idx() >= self.nlen() || self.head_of(a.idx(), dir.k()) == Self::endv(),
            },
    {
        let i = a.index();
        if i < self.nodes.len() {
            let edix = self.nodes[i].next_edge(dir);
            if edix == EdgeIndex::end() {
                None
            } else {
                Some(edix)
            }
        } else {
            None
        }
    }

    /// Accessor for data structure internals: given an index into the edge
    /// array, the next edge on that record's list in the given direction,
    /// or `None` if the index is out of bounds or the list ends there.
    pub fn next_edge(&self, a: NodeIndex<Ix>, dir: Direction) -> (r: Option<EdgeIndex<Ix>>)
        ensures
            match r {
                Some(eix) => a.idx() < self.elen() && self.next_of(a.idx(), dir.k()) == eix.idx()
                    && eix.idx() != Self::endv(),
                None => a.idx() >= self.elen() || self.next_of(a.idx(), dir.k()) == Self::endv(),
            },
    {
        let i = a.index();
        if i < self.edges.len() {
            let edix = self.edges[i].next_edge(dir);
            if edix == EdgeIndex::end() {
                None
            } else {
                Some(edix)
            }
        } else {
            None
        }
    }

    /// Reverse the direction of all edges: every edge swaps its endpoints
    /// and its two links, and every node swaps its two list heads, so the
    /// outgoing and incoming adjacency lists trade places.
    pub fn reverse(&mut self)
        requires
            old(self).wf(),
        ensures
            final(self).wf(),
            final(self).nlen() == old(self).nlen(),
            final(self).elen() == old(self).elen(),
            forall|m: int|
                0 <= m < old(self).nlen() ==> #[trigger] final(self).data_of(m) == old(
                    self,
                ).data_of(m),
            forall|e: int|
                0 <= e < old(self).elen() ==> #[trigger] final(self).triple(e) == (
                    old(self).node_of(e, 1),
                    old(self).node_of(e, 0),
                    old(self).wt_of(e),
                ),
            forall|k: int, n: int|
                0 <= k < 2 && 0 <= n < old(self).nlen() ==> #[trigger] final(self).chain(k, n)
                    == old(self).chain(1 - k, n),
    {
        let ghost g0 = *old(self);
        let mut i: usize = 0;
        while i < self.edges.len()
            invariant
                0 <= i <= g0.elen(),
                self.nodes@ == g0.nodes@,
                self.chains == g0.chains,
                self.elen() == g0.elen(),
                forall|e: int|
                    0 <= e < i ==> #[trigger] self.edges@[e] == (Edge {
                        weight: g0.edges@[e].weight,
                        next_out: g0.edges@[e].next_in,
                        next_in: g0.edges@[e].next_out,
                        src: g0.edges@[e].dst,
                        dst: g0.edges@[e].src,
                    }),
                forall|e: int|
                    i <= e < g0.elen() ==> #[trigger] self.edges@[e] == g0.edges@[e],
            decreases g0.elen() - i,
        {
            let tn = self.edges[i].next_out;
            self.edges[i].next_out = self.edges[i].next_in;
            self.edges[i].next_in = tn;
            let ts = self.edges[i].src;
            self.edges[i].src = self.edges[i].dst;
            self.edges[i].dst = ts;
            i = i + 1;
        }
        let mut m: usize = 0;
        while m < self.nodes.len()
            invariant
                0 <= m <= g0.nlen(),
                self.chains == g0.chains,
                self.nlen() == g0.nlen(),
                self.elen() == g0.elen(),
                forall|e: int|
                    0 <= e < g0.elen() ==> #[trigger] self.edges@[e] == (Edge {
                        weight: g0.edges@[e].weight,
                        next_out: g0.edges@[e].next_in,
                        next_in: g0.edges@[e].next_out,
                        src: g0.edges@[e].dst,
                        dst: g0.edges@[e].src,
                    }),
                forall|n: int|
                    0 <= n < m ==> #[trigger] self.nodes@[n] == (Node {
                        data: g0.nodes@[n].data,
                        next_out: g0.nodes@[n].next_in,
                        next_in: g0.nodes@[n].next_out,
                    }),
                forall|n: int| m <= n < g0.nlen() ==> #[trigger] self.nodes@[n] == g0.nodes@[n],
            decreases g0.nlen() - m,
        {
            let th = self.nodes[m].next_out;
            self.nodes[m].next_out = self.nodes[m].next_in;
            self.nodes[m].next_in = th;
            m = m + 1;
        }
        proof {
            self.chains@ = AdjChains { cout: g0.chains@.cin, cin: g0.chains@.cout };
            let g2 = *self;
            assert forall|k: int, n: int|
                0 <= k < 2 && 0 <= n < g2.nlen() implies #[trigger] g2.chain_ok(k, n) by {
                assert(g0.chain_ok(1 - k, n));
                let c = g0.chain(1 - k, n);
                assert(g2.chain(k, n) == c);
                assert(g2.head_of(n, k) == g0.head_of(n, 1 - k));
                assert forall|j: int|
                    0 <= j < c.len() implies 0 <= #[trigger] c[j] < g2.elen() && g2.node_of(
                    c[j],
                    k,
                ) == n && g2.next_of(c[j], k) == g0.next_of(c[j], 1 - k) by {
                    assert(g0.node_of(c[j], 1 - k) == n);
                }
            }
            assert forall|e2: int, k: int|
                0 <= e2 < g2.elen() && 0 <= k < 2 implies 0 <= #[trigger] g2.node_of(e2, k)
                < g2.nlen() && g2.in_own_chain(k, e2) by {
                assert(0 <= g0.node_of(e2, 1 - k) < g0.nlen());
                assert(g0.in_own_chain(1 - k, e2));
                assert(g2.node_of(e2, k) == g0.node_of(e2, 1 - k));
                assert(g2.chain(k, g2.node_of(e2, k)) == g0.chain(1 - k, g0.node_of(e2, 1 - k)));
            }
        }
    }

    /// Remove all nodes and edges.
    pub fn clear(&mut self)
        ensures
            final(self).wf(),
            final(self).nlen() == 0,
            final(self).elen() == 0,
    {
        self.nodes.clear();
        self.edges.clear();
        proof {
            self.chains@ = AdjChains { cout: Map::empty(), cin: Map::empty() };
        }
    }

    /// Remove all edges, keeping the nodes (their data and indices) as
    /// they were.
    pub fn clear_edges(&mut self)
        requires
            old(self).wf(),
        ensures
            final(self).wf(),
            final(self).elen() == 0,
            final(self).nlen() == old(self).nlen(),
            forall|m: int|
                0 <= m < old(self).nlen() ==> #[trigger] final(self).data_of(m) == old(
                    self,
                ).data_of(m),
    {
        let ghost g0 = *old(self);
        self.edges.clear();
        let end_ix: EdgeIndex<Ix> = EdgeIndex::end();
        let mut m: usize = 0;
        while m < self.nodes.len()
            invariant
                0 <= m <= g0.nlen(),
                self.nlen() == g0.nlen(),
                self.elen() == 0,
                forall|n: int|
                    0 <= n < m ==> #[trigger] self.nodes@[n] == (Node {
                        data: g0.nodes@[n].data,
                        next_out: end_ix,
                        next_in: end_ix,
                    }),
                forall|n: int| m <= n < g0.nlen() ==> #[trigger] self.nodes@[n] == g0.nodes@[n],
                end_ix.idx() == Self::endv(),
            decreases g0.nlen() - m,
        {
            self.nodes[m].next_out = end_ix;
            self.nodes[m].next_in = end_ix;
            m = m + 1;
        }
        proof {
            self.chains@ = AdjChains {
                cout: Map::new(|n: int| true, |n: int| Seq::<int>::empty()),
                cin: Map::new(|n: int| true, |n: int| Seq::<int>::empty()),
            };
            assert forall|k: int, n: int|
                0 <= k < 2 && 0 <= n < self.nlen() implies #[trigger] self.chain_ok(k, n) by {
                assert(self.chain(k, n) == Seq::<int>::empty());
                assert(self.head_of(n, k) == Self::endv());
            }
        }
    }

    /// Return the current node and edge capacity of the graph. Each is at
    /// least the corresponding count.
    pub fn capacity(&self) -> (r: (usize, usize))
        ensures
            r.0 >= self.nlen(),
            r.1 >= self.elen(),
    {
        (vec_capacity(&self.nodes), vec_capacity(&self.edges))
    }

    /// Reserves capacity for at least `additional` more nodes. The graph
    /// itself is unchanged.
    pub fn reserve_nodes(&mut self, additional: usize)
        ensures
            final(self).nodes@ == old(self).nodes@,
            final(self).edges@ == old(self).edges@,
            final(self).chains == old(self).chains,
            old(self).wf() ==> final(self).wf(),
    {
        self.nodes.reserve(additional);
        proof {
            if old(self).wf() {
                lemma_wf_congruence(*old(self), *self);
            }
        }
    }

    /// Reserves capacity for at least `additional` more edges. The graph
    /// itself is unchanged.
    pub fn reserve_edges(&mut self, additional: usize)
        ensures
            final(self).nodes@ == old(self).nodes@,
            final(self).edges@ == old(self).edges@,
            final(self).chains == old(self).chains,
            old(self).wf() ==> final(self).wf(),
    {
        self.edges.reserve(additional);
        proof {
            if old(self).wf() {
                lemma_wf_congruence(*old(self), *self);
            }
        }
    }

    /// Reserves the minimum capacity for exactly `additional` more nodes.
    /// The graph itself is unchanged.
    pub fn reserve_exact_nodes(&mut self, additional: usize)
        ensures
            final(self).nodes@ == old(self).nodes@,
            final(self).edges@ == old(self).edges@,
            final(self).chains == old(self).chains,
            old(self).wf() ==> final(self).wf(),
    {
        vec_reserve_exact(&mut self.nodes, additional);
        proof {
            if old(self).wf() {
                lemma_wf_congruence(*old(self), *self);
            }
        }
    }

    /// Reserves the minimum capacity for exactly `additional` more edges.
    /// The graph itself is unchanged.
    pub fn reserve_exact_edges(&mut self, additional: usize)
        ensures
            final(self).nodes@ == old(self).nodes@,
            final(self).edges@ == old(self).edges@,
            final(self).chains == old(self).chains,
            old(self).wf() ==> final(self).wf(),
    {
        vec_reserve_exact(&mut self.edges, additional);
        proof {
            if old(self).wf() {
                lemma_wf_congruence(*old(self), *self);
            }
        }
    }

    /// Shrinks the capacity of the node array as much as possible. The
    /// graph itself is unchanged.
    pub fn shrink_to_fit_nodes(&mut self)
        ensures
            final(self).nodes@ == old(self).nodes@,
            final(self).edges@ == old(self).edges@,
            final(self).chains == old(self).chains,
            old(self).wf() ==> final(self).wf(),
    {
        vec_shrink_to_fit(&mut self.nodes);
        proof {
            if old(self).wf() {
                lemma_wf_congruence(*old(self), *self);
            }
        }
    }

    /// Shrinks the capacity of the edge array as much as possible. The
    /// graph itself is unchanged.
    pub fn shrink_to_fit_edges(&mut self)
        ensures
            final(self).nodes@ == old(self).nodes@,
            final(self).edges@ == old(self).edges@,
            final(self).chains == old(self).chains,
            old(self).wf() ==> final(self).wf(),
    {
        vec_shrink_to_fit(&mut self.edges);
        proof {
            if old(self).wf() {
                lemma_wf_congruence(*old(self), *self);
            }
        }
    }

    /// Shrinks the capacity of the graph as much as possible. The graph
    /// itself is unchanged.
    pub fn shrink_to_fit(&mut self)
        ensures
            final(self).nodes@ == old(self).nodes@,
            final(self).edges@ == old(self).edges@,
            final(self).chains == old(self).chains,
            old(self).wf() ==> final(self).wf(),
    {
        vec_shrink_to_fit(&mut self.nodes);
        vec_shrink_to_fit(&mut self.edges);
        proof {
            if old(self).wf() {
                lemma_wf_congruence(*old(self), *self);
            }
        }
    }

    /// Convert the graph into either undirected or directed. No edge
    /// adjustments are done: the structure carries over unchanged.
    ///
    /// Computes in **O(1)** time.
    pub fn into_edge_type<NewTy: EdgeType>(self) -> (g: Graph<N, E, NewTy, Ix>)
        requires
            self.wf(),
        ensures
            g.wf(),
            g.nodes@ == self.nodes@,
            g.edges@ == self.edges@,
            g.chains == self.chains,
    {
        let g = Graph { nodes: self.nodes, edges: self.edges, ty: PhantomData, chains: self.chains };
        proof {
            assert forall|k: int, n: int|
                0 <= k < 2 && 0 <= n < g.nlen() implies #[trigger] g.chain_ok(k, n) by {
                assert(self.chain_ok(k, n));
                let c = self.chain(k, n);
                assert(g.chain(k, n) == c);
                assert(g.head_of(n, k) == self.head_of(n, k));
                assert forall|j: int|
                    0 <= j < c.len() implies 0 <= #[trigger] c[j] < g.elen() && g.node_of(c[j], k)
                    == self.node_of(c[j], k) && g.next_of(c[j], k) == self.next_of(c[j], k) by {}
            }
            assert forall|e2: int, k: int|
                0 <= e2 < g.elen() && 0 <= k < 2 implies 0 <= #[trigger] g.node_of(e2, k)
                < g.nlen() && g.in_own_chain(k, e2) by {
                assert(0 <= self.node_of(e2, k) < self.nlen());
                assert(self.in_own_chain(k, e2));
                assert(g.chain(k, g.node_of(e2, k)) == self.chain(k, self.node_of(e2, k)));
            }
        }
        g
    }

    /// Extend the graph from a list of edge elements (pairs or triples of
    /// endpoints and optional weight, by value or reference).
    ///
    /// Nodes are inserted automatically so that the largest endpoint
    /// referenced becomes a valid index before the corresponding edge is
    /// added; their data is default-valued. The endpoints must lie below
    /// the sentinel, and the index type must have room for the new edges.
    pub fn extend_with_edges<IW: crate::index::IntoWeightedEdge<E, NodeId = NodeIndex<Ix>> + Copy>(
        &mut self,
        elements: &Vec<IW>,
    ) where N: Default
        requires
            old(self).wf(),
            old(self).elen() + elements@.len() <= Ix::spec_max(),
            forall|i: int|
                0 <= i < elements@.len() ==> (#[trigger] elements@[i].spec_nodes()).0.idx()
                    < Ix::spec_max() && elements@[i].spec_nodes().1.idx() < Ix::spec_max(),
        ensures
            final(self).wf(),
            final(self).elen() == old(self).elen() + elements@.len(),
            final(self).nlen() >= old(self).nlen(),
            forall|e: int|
                0 <= e < old(self).elen() ==> #[trigger] final(self).triple(e) == old(self).triple(
                    e,
                ),
            forall|m: int|
                0 <= m < old(self).nlen() ==> #[trigger] final(self).data_of(m) == old(
                    self,
                ).data_of(m),
            forall|i: int|
                0 <= i < elements@.len() ==> final(self).node_of(
                    #[trigger] (old(self).elen() + i),
                    0,
                ) == elements@[i].spec_nodes().0.idx() && final(self).node_of(
                    old(self).elen() + i,
                    1,
                ) == elements@[i].spec_nodes().1.idx(),
    {
        let ghost g0 = *old(self);
        let mut i: usize = 0;
        while i < elements.len()
            invariant
                0 <= i <= elements@.len(),
                self.wf(),
                self.elen() == g0.elen() + i,
                self.nlen() >= g0.nlen(),
                self.nlen() <= Ix::spec_max(),
                g0.elen() + elements@.len() <= Ix::spec_max(),
                forall|ii: int|
                    0 <= ii < elements@.len() ==> (#[trigger] elements@[ii].spec_nodes()).0.idx()
                        < Ix::spec_max() && elements@[ii].spec_nodes().1.idx() < Ix::spec_max(),
                forall|e: int|
                    0 <= e < g0.elen() ==> #[trigger] self.triple(e) == g0.triple(e),
                forall|m: int|
                    0 <= m < g0.nlen() ==> #[trigger] self.data_of(m) == g0.data_of(m),
                forall|ii: int|
                    0 <= ii < i ==> self.node_of(#[trigger] (g0.elen() + ii), 0)
                        == elements@[ii].spec_nodes().0.idx() && self.node_of(g0.elen() + ii, 1)
                        == elements@[ii].spec_nodes().1.idx(),
            decreases elements@.len() - i,
        {
            let elt = elements[i];
            let (source, target, weight) = elt.into_weighted_edge();
            let s_i = source.index();
            let t_i = target.index();
            let nx = if s_i >= t_i {
                s_i
            } else {
                t_i
            };
            let ghost gmid = *self;
            while nx >= self.node_count()
                invariant
                    self.wf(),
                    self.nlen() >= gmid.nlen(),
                    nx < Ix::spec_max(),
                    self.nlen() <= Ix::spec_max(),
                    self.elen() == gmid.elen(),
                    forall|e: int|
                        0 <= e < gmid.elen() ==> #[trigger] self.triple(e) == gmid.triple(e),
                    forall|m: int|
                        0 <= m < gmid.nlen() ==> #[trigger] self.data_of(m) == gmid.data_of(m),
                decreases nx - self.nlen() + 1,
            {
                let ghost sp = *self;
                let d: N = Default::default();
                let _ = self.add_node(d);
                proof {
                    assert forall|e: int|
                        0 <= e < gmid.elen() implies #[trigger] self.triple(e) == gmid.triple(
                        e,
                    ) by {
                        assert(sp.triple(e) == gmid.triple(e));
                        assert(self.triple(e) == sp.triple(e));
                    }
                    assert forall|m: int|
                        0 <= m < gmid.nlen() implies #[trigger] self.data_of(m) == gmid.data_of(
                        m,
                    ) by {
                        assert(sp.data_of(m) == gmid.data_of(m));
                        assert(self.nodes@[m] == sp.nodes@[m]);
                    }
                }
            }
            let ghost spre = *self;
            let _ = self.add_edge(source, target, weight);
            i = i + 1;
            proof {
                assert forall|e: int|
                    0 <= e < g0.elen() implies #[trigger] self.triple(e) == g0.triple(e) by {
                    assert(spre.triple(e) == gmid.triple(e));
                    assert(gmid.triple(e) == g0.triple(e));
                    assert(self.triple(e) == spre.triple(e));
                }
                assert forall|m: int|
                    0 <= m < g0.nlen() implies #[trigger] self.data_of(m) == g0.data_of(m) by {
                    assert(spre.data_of(m) == gmid.data_of(m));
                    assert(gmid.data_of(m) == g0.data_of(m));
                    assert(self.data_of(m) == spre.data_of(m));
                }
                assert forall|ii: int|
                    0 <= ii < i implies self.node_of(#[trigger] (g0.elen() + ii), 0)
                    == elements@[ii].spec_nodes().0.idx() && self.node_of(g0.elen() + ii, 1)
                    == elements@[ii].spec_nodes().1.idx() by {
                    if ii < i - 1 {
                        assert(gmid.node_of(g0.elen() + ii, 0) == elements@[ii].spec_nodes(
                        ).0.idx());
                        assert(gmid.node_of(g0.elen() + ii, 1) == elements@[ii].spec_nodes(
                        ).1.idx());
                        assert(spre.triple(g0.elen() + ii) == gmid.triple(g0.elen() + ii));
                        assert(self.triple(g0.elen() + ii) == spre.triple(g0.elen() + ii));
                    } else {
                        assert(self.triple(g0.elen() + ii) == (
                            source.idx(),
                            target.idx(),
                            weight,
                        ));
                    }
                }
            }
        }
    }

    /// Create a new `Graph` from a list of edge elements, as
    /// `extend_with_edges` does starting from the empty graph.
    pub fn from_edges<IW: crate::index::IntoWeightedEdge<E, NodeId = NodeIndex<Ix>> + Copy>(
        elements: &Vec<IW>,
    ) -> (g: Self) where N: Default
        requires
            elements@.len() <= Ix::spec_max(),
            forall|i: int|
                0 <= i < elements@.len() ==> (#[trigger] elements@[i].spec_nodes()).0.idx()
                    < Ix::spec_max() && elements@[i].spec_nodes().1.idx() < Ix::spec_max(),
        ensures
            g.wf(),
            g.elen() == elements@.len(),
            forall|i: int|
                0 <= i < elements@.len() ==> #[trigger] g.node_of(i, 0)
                    == elements@[i].spec_nodes().0.idx() && g.node_of(i, 1)
                    == elements@[i].spec_nodes().1.idx(),
    {
        let mut g = Self::with_capacity(0, 0);
        g.extend_with_edges(elements);
        proof {
            assert forall|i: int|
                0 <= i < elements@.len() implies #[trigger] g.node_of(i, 0)
                == elements@[i].spec_nodes().0.idx() && g.node_of(i, 1) == elements@[i].spec_nodes(
            ).1.idx() by {
                assert(g.node_of(0 + i, 0) == elements@[i].spec_nodes().0.idx());
                assert(g.node_of(0 + i, 1) == elements@[i].spec_nodes().1.idx());
            }
        }
        g
    }

    /// Access the internal node array.
    pub fn raw_nodes(&self) -> (r: &[Node<N, Ix>])
        ensures
            r@ == self.nodes@,
    {
        self.nodes.as_slice()
    }

    /// Access the internal edge array.
    pub fn raw_edges(&self) -> (r: &[Edge<E, Ix>])
        ensures
            r@ == self.edges@,
    {
        self.edges.as_slice()
    }

    /// Convert the graph into a vector of nodes and a vector of edges.
    pub fn into_nodes_edges(self) -> (r: (Vec<Node<N, Ix>>, Vec<Edge<E, Ix>>))
        ensures
            r.0@ == self.nodes@,
            r.1@ == self.edges@,
    {
        (self.nodes, self.edges)
    }
}

impl<N, E> Graph<N, E, Directed> {
    /// Create a new `Graph` with directed edges.
    pub fn new() -> (g: Self)
        ensures
            g.wf(),
            g.nlen() == 0,
            g.elen() == 0,
    {
        Graph {
            nodes: Vec::new(),
            edges: Vec::new(),
            ty: PhantomData,
            chains: Ghost(
                AdjChains { cout: Map::empty(), cin: Map::empty() },
            ),
        }
    }
}

impl<N, E> Graph<N, E, Undirected> {
    /// Create a new `Graph` with undirected edges.
    pub fn new_undirected() -> (g: Self)
        ensures
            g.wf(),
            g.nlen() == 0,
            g.elen() == 0,
    {
        Graph {
            nodes: Vec::new(),
            edges: Vec::new(),
            ty: PhantomData,
            chains: Ghost(
                AdjChains { cout: Map::empty(), cin: Map::empty() },
            ),
        }
    }
}

impl<N: Clone, Ix: IndexType> Clone for Node<N, Ix> {
    /// Clone the record: the links are copied exactly, the data is cloned.
    fn clone(&self) -> (r: Self)
        ensures
            r.next_out == self.next_out,
            r.next_in == self.next_in,
    {
        Node { data: self.data.clone(), next_out: self.next_out, next_in: self.next_in }
    }
}

impl<E: Clone, Ix: IndexType> Clone for Edge<E, Ix> {
    /// Clone the record: links and endpoints are copied exactly, the
    /// weight is cloned.
    fn clone(&self) -> (r: Self)
        ensures
            r.next_out == self.next_out,
            r.next_in == self.next_in,
            r.src == self.src,
            r.dst == self.dst,
    {
        Edge {
            weight: self.weight.clone(),
            next_out: self.next_out,
            next_in: self.next_in,
            src: self.src,
            dst: self.dst,
        }
    }
}

impl<N: Clone, E: Clone, Ty: EdgeType, Ix: IndexType> Clone for Graph<N, E, Ty, Ix> {
    /// Clone the graph: the whole adjacency structure (counts, links,
    /// endpoints) is copied exactly, and data and weights are cloned.
    fn clone(&self) -> (r: Self)
        ensures
            r.nlen() == self.nlen(),
            r.elen() == self.elen(),
            r.chains == self.chains,
            forall|n: int, k: int|
                0 <= n < self.nlen() && 0 <= k < 2 ==> #[trigger] r.head_of(n, k) == self.head_of(
                    n,
                    k,
                ),
            forall|e: int, k: int|
                0 <= e < self.elen() && 0 <= k < 2 ==> #[trigger] r.next_of(e, k) == self.next_of(
                    e,
                    k,
                ) && r.node_of(e, k) == self.node_of(e, k),
            self.wf() ==> r.wf(),
    {
        let mut nodes: Vec<Node<N, Ix>> = Vec::with_capacity(self.nodes.len());
        let mut i: usize = 0;
        while i < self.nodes.len()
            invariant
                0 <= i <= self.nodes@.len(),
                nodes@.len() == i,
                forall|n: int|
                    0 <= n < i ==> (#[trigger] nodes@[n]).next_out == self.nodes@[n].next_out
                        && nodes@[n].next_in == self.nodes@[n].next_in,
            decreases self.nodes@.len() - i,
        {
            let nr = &self.nodes[i];
            nodes.push(Node { data: nr.data.clone(), next_out: nr.next_out, next_in: nr.next_in });
            i = i + 1;
        }
        let mut edges: Vec<Edge<E, Ix>> = Vec::with_capacity(self.edges.len());
        let mut j: usize = 0;
        while j < self.edges.len()
            invariant
                0 <= j <= self.edges@.len(),
                edges@.len() == j,
                forall|e: int|
                    0 <= e < j ==> (#[trigger] edges@[e]).next_out == self.edges@[e].next_out
                        && edges@[e].next_in == self.edges@[e].next_in && edges@[e].src
                        == self.edges@[e].src && edges@[e].dst == self.edges@[e].dst,
            decreases self.edges@.len() - j,
        {
            let ghost prev = edges@;
            let er = &self.edges[j];
            edges.push(
                Edge {
                    weight: er.weight.clone(),
                    next_out: er.next_out,
                    next_in: er.next_in,
                    src: er.src,
                    dst: er.dst,
                },
            );
            j = j + 1;
            proof {
                assert forall|e: int|
                    0 <= e < j implies (#[trigger] edges@[e]).next_out == self.edges@[e].next_out
                    && edges@[e].next_in == self.edges@[e].next_in && edges@[e].src
                    == self.edges@[e].src && edges@[e].dst == self.edges@[e].dst by {
                    if e < j - 1 {
                        assert(edges@[e] == prev[e]);
                    } else {
                        assert(edges@[e] == edges@.last());
                    }
                }
            }
        }
        let r = Graph { nodes, edges, ty: PhantomData, chains: self.chains };
        proof {
            if self.wf() {
                assert forall|k: int, n: int|
                    0 <= k < 2 && 0 <= n < r.nlen() implies #[trigger] r.chain_ok(k, n) by {
                    assert(self.chain_ok(k, n));
                    assert(r.chain(k, n) == self.chain(k, n));
                    assert(r.nodes@[n].next_out == self.nodes@[n].next_out);
                    assert(r.nodes@[n].next_in == self.nodes@[n].next_in);
                    assert(r.head_of(n, k) == self.head_of(n, k));
                    let c = self.chain(k, n);
                    assert forall|jj: int|
                        0 <= jj < c.len() implies 0 <= #[trigger] c[jj] < r.elen() && r.next_of(
                        c[jj],
                        k,
                    ) == self.next_of(c[jj], k) && r.node_of(c[jj], k) == self.node_of(
                        c[jj],
                        k,
                    ) by {
                        assert(0 <= c[jj] < self.elen());
                        assert(r.edges@[c[jj]].next_out == self.edges@[c[jj]].next_out);
                        assert(r.edges@[c[jj]].next_in == self.edges@[c[jj]].next_in);
                        assert(r.edges@[c[jj]].src == self.edges@[c[jj]].src);
                        assert(r.edges@[c[jj]].dst == self.edges@[c[jj]].dst);
                    }
                    Self::lemma_chain_ok_transfer(*self, r, k, n);
                }
                assert forall|e2: int, k: int|
                    0 <= e2 < r.elen() && 0 <= k < 2 implies 0 <= #[trigger] r.node_of(e2, k)
                    < r.nlen() && r.in_own_chain(k, e2) by {
                    assert(0 <= self.node_of(e2, k) < self.nlen());
                    assert(self.in_own_chain(k, e2));
                    assert(r.edges@[e2].src == self.edges@[e2].src);
                    assert(r.edges@[e2].dst == self.edges@[e2].dst);
                    assert(r.node_of(e2, k) == self.node_of(e2, k));
                    assert(r.chain(k, r.node_of(e2, k)) == self.chain(k, self.node_of(e2, k)));
                }
            }
        }
        r
    }
}

impl<N, E, Ty: EdgeType, Ix: IndexType> Default for Graph<N, E, Ty, Ix> {
    /// The empty graph.
    fn default() -> (g: Self)
        ensures
            g.wf(),
            g.nlen() == 0,
            g.elen() == 0,
    {
        Self::with_capacity(0, 0)
    }
}

/// Relies on std's Vec::capacity: a vector's capacity is at least its
/// length.
#[verifier::external_body]
fn vec_capacity<T>(v: &Vec<T>) -> (r: usize)
    ensures
        r >= v@.len(),
{
    v.capacity()
}

/// Relies on std's Vec::reserve_exact: it only affects capacity, the
/// contents are unchanged.
#[verifier::external_body]
fn vec_reserve_exact<T>(v: &mut Vec<T>, additional: usize)
    ensures
        final(v)@ == old(v)@,
{
    v.reserve_exact(additional)
}

/// Relies on std's Vec::shrink_to_fit: it only affects capacity, the
/// contents are unchanged.
#[verifier::external_body]
fn vec_shrink_to_fit<T>(v: &mut Vec<T>)
    ensures
        final(v)@ == old(v)@,
{
    v.shrink_to_fit()
}

/// Whether triple `t` has node `n` as one of its endpoints.
pub open spec fn triple_incident<E>(t: (int, int, E), n: int) -> bool {
    t.0 == n || t.1 == n
}

/// Triple `t` with every endpoint equal to `from` replaced by `to`.
pub open spec fn triple_subst<E>(t: (int, int, E), from: int, to: int) -> (int, int, E) {
    ((if t.0 == from { to } else { t.0 }), (if t.1 == from { to } else { t.1 }), t.2)
}

/// Swap-removal of the element at `e` removes exactly that element from the
/// sequence's multiset.
proof fn lemma_swap_remove_multiset<T>(s: Seq<T>, e: int)
    requires
        0 <= e < s.len(),
    ensures
        s.update(e, s.last()).drop_last().to_multiset() == s.to_multiset().remove(s[e]),
{
    s.to_multiset_ensures();
    let v = s.last();
    let su = s.update(e, v);
    su.to_multiset_ensures();
    if e == s.len() - 1 {
        assert(su =~= s);
        assert(su.drop_last() =~= s.remove(e));
    } else {
        let sr = s.remove(e);
        sr.to_multiset_ensures();
        assert(su =~= sr.insert(e, v));
        vstd::seq_lib::to_multiset_insert(sr, e, v);
        assert(su.drop_last() =~= su.remove(s.len() - 1));
        assert(su[s.len() - 1] == v);
        assert(su.remove(s.len() - 1).to_multiset() =~= su.to_multiset().remove(v));
        assert(su.to_multiset() =~= sr.to_multiset().insert(v));
        assert(sr.to_multiset() =~= s.to_multiset().remove(s[e]));
        assert(sr.to_multiset().insert(v).remove(v) =~= sr.to_multiset());
        assert(su.drop_last().to_multiset() =~= s.to_multiset().remove(s[e]));
    }
}

/// A sequence's multiset splits into the multisets of the elements that
/// satisfy a predicate and of those that satisfy its negation.
proof fn lemma_filter_split_multiset<T>(s: Seq<T>, q: spec_fn(T) -> bool, nq: spec_fn(T) -> bool)
    requires
        forall|t: T| #[trigger] nq(t) == !q(t),
    ensures
        s.to_multiset() == s.filter(q).to_multiset().add(s.filter(nq).to_multiset()),
    decreases s.len(),
{
    reveal(Seq::filter);
    s.to_multiset_ensures();
    s.filter(q).to_multiset_ensures();
    s.filter(nq).to_multiset_ensures();
    if s.len() == 0 {
        assert(s.to_multiset() =~= s.filter(q).to_multiset().add(s.filter(nq).to_multiset()));
    } else {
        let d = s.drop_last();
        let x = s.last();
        lemma_filter_split_multiset(d, q, nq);
        d.to_multiset_ensures();
        d.filter(q).to_multiset_ensures();
        d.filter(nq).to_multiset_ensures();
        assert(s =~= d.push(x));
        assert(s.to_multiset() =~= d.to_multiset().insert(x));
        if q(x) {
            assert(s.filter(q) == d.filter(q).push(x));
            assert(s.filter(nq) == d.filter(nq));
            assert(s.filter(q).to_multiset() =~= d.filter(q).to_multiset().insert(x));
            assert(s.to_multiset() =~= s.filter(q).to_multiset().add(s.filter(nq).to_multiset()));
        } else {
            assert(s.filter(nq) == d.filter(nq).push(x));
            assert(s.filter(q) == d.filter(q));
            assert(s.filter(nq).to_multiset() =~= d.filter(nq).to_multiset().insert(x));
            assert(s.to_multiset() =~= s.filter(q).to_multiset().add(s.filter(nq).to_multiset()));
        }
    }
}

/// Two sequences with the same multiset still have the same multiset after
/// mapping both through the same function.
proof fn lemma_map_multiset_congruence<T, U>(s1: Seq<T>, s2: Seq<T>, f: spec_fn(T) -> U)
    requires
        s1.to_multiset() == s2.to_multiset(),
    ensures
        s1.map_values(f).to_multiset() == s2.map_values(f).to_multiset(),
    decreases s1.len(),
{
    s1.to_multiset_ensures();
    s2.to_multiset_ensures();
    if s1.len() == 0 {
        assert(s2.len() == 0);
        assert(s1.map_values(f) =~= Seq::<U>::empty());
        assert(s2.map_values(f) =~= Seq::<U>::empty());
        s1.map_values(f).to_multiset_ensures();
        s2.map_values(f).to_multiset_ensures();
        assert(s1.map_values(f).to_multiset() =~= s2.map_values(f).to_multiset());
    } else {
        let x = s1[0];
        assert(s1.contains(x));
        assert(s1.to_multiset().count(x) > 0);
        assert(s2.to_multiset().count(x) > 0);
        assert(s2.contains(x));
        let i = choose|i: int| 0 <= i < s2.len() && s2[i] == x;
        let d1 = s1.remove(0);
        let d2 = s2.remove(i);
        assert(d1.to_multiset() =~= s1.to_multiset().remove(x));
        assert(d2.to_multiset() =~= s2.to_multiset().remove(x));
        lemma_map_multiset_congruence(d1, d2, f);
        let m1 = s1.map_values(f);
        let m2 = s2.map_values(f);
        m1.to_multiset_ensures();
        m2.to_multiset_ensures();
        assert(m1.remove(0) =~= d1.map_values(f));
        assert(m2.remove(i) =~= d2.map_values(f));
        assert(m1.remove(0).to_multiset() =~= m1.to_multiset().remove(f(x))) by {
            assert(m1[0] == f(x));
        }
        assert(m2.remove(i).to_multiset() =~= m2.to_multiset().remove(f(x))) by {
            assert(m2[i] == f(x));
        }
        assert(m1.to_multiset().count(f(x)) > 0) by {
            assert(m1[0] == f(x));
            assert(m1.contains(f(x)));
        }
        assert(m2.to_multiset().count(f(x)) > 0) by {
            assert(m2[i] == f(x));
            assert(m2.contains(f(x)));
        }
        assert(m1.to_multiset() =~= m1.to_multiset().remove(f(x)).insert(f(x)));
        assert(m2.to_multiset() =~= m2.to_multiset().remove(f(x)).insert(f(x)));
        assert(m1.to_multiset() =~= m2.to_multiset());
    }
}

/// A properly linked list stays properly linked in another graph whose
/// relevant pieces agree: the same list for `(k, n)`, the same head at `n`,
/// and unchanged links and endpoints on the edges the list can mention.
pub proof fn lemma_chain_ok_frame<N, E, Ty: EdgeType, Ix: IndexType>(
    g1: Graph<N, E, Ty, Ix>,
    g2: Graph<N, E, Ty, Ix>,
    k: int,
    n: int,
)
    requires
        g1.chain_ok(k, n),
        g2.chain(k, n) == g1.chain(k, n),
        g2.head_of(n, k) == g1.head_of(n, k),
        g2.elen() >= g1.elen(),
        forall|e: int| 0 <= e < g1.elen() ==> #[trigger] g2.next_of(e, k) == g1.next_of(e, k),
        forall|e: int| 0 <= e < g1.elen() ==> #[trigger] g2.node_of(e, k) == g1.node_of(e, k),
    ensures
        g2.chain_ok(k, n),
{
    let c = g1.chain(k, n);
    assert forall|j: int| 0 <= j < c.len() implies 0 <= #[trigger] c[j] < g2.elen()
        && g2.node_of(c[j], k) == n by {
        assert(0 <= c[j] < g1.elen());
        assert(g2.node_of(c[j], k) == g1.node_of(c[j], k));
    }
    assert forall|j: int| 0 <= j < c.len() - 1 implies #[trigger] g2.next_of(c[j], k) == c[j
        + 1] by {
        assert(0 <= c[j] < g1.elen());
        assert(g2.next_of(c[j], k) == g1.next_of(c[j], k));
    }
    if c.len() > 0 {
        assert(0 <= c[c.len() - 1] < g1.elen());
        assert(g2.next_of(c[c.len() - 1], k) == g1.next_of(c[c.len() - 1], k));
    }
}

/// Well-formedness depends only on the graph's contents: it carries over
/// to any graph value with the same node records, edge records and lists.
pub proof fn lemma_wf_congruence<N, E, Ty: EdgeType, Ix: IndexType>(
    g1: Graph<N, E, Ty, Ix>,
    g2: Graph<N, E, Ty, Ix>,
)
    requires
        g1.wf(),
        g2.nodes@ == g1.nodes@,
        g2.edges@ == g1.edges@,
        g2.chains == g1.chains,
    ensures
        g2.wf(),
{
    assert forall|k: int, n: int|
        0 <= k < 2 && 0 <= n < g2.nlen() implies #[trigger] g2.chain_ok(k, n) by {
        assert(g1.chain_ok(k, n));
        assert(g2.chain(k, n) == g1.chain(k, n));
        assert(g2.head_of(n, k) == g1.head_of(n, k));
        let c = g1.chain(k, n);
        assert forall|j: int|
            0 <= j < c.len() implies 0 <= #[trigger] c[j] < g2.elen() && g2.node_of(c[j], k)
            == g1.node_of(c[j], k) && g2.next_of(c[j], k) == g1.next_of(c[j], k) by {}
        Graph::lemma_chain_ok_transfer(g1, g2, k, n);
    }
    assert forall|e2: int, k: int|
        0 <= e2 < g2.elen() && 0 <= k < 2 implies 0 <= #[trigger] g2.node_of(e2, k) < g2.nlen()
        && g2.in_own_chain(k, e2) by {
        assert(0 <= g1.node_of(e2, k) < g1.nlen());
        assert(g1.in_own_chain(k, e2));
        assert(g2.node_of(e2, k) == g1.node_of(e2, k));
        assert(g2.chain(k, g2.node_of(e2, k)) == g1.chain(k, g1.node_of(e2, k)));
    }
}

/// Two graphs that differ at most in node data have the same adjacency
/// structure, so well-formedness carries over.
pub proof fn lemma_wf_data_independent<N, E, Ty: EdgeType, Ix: IndexType>(
    g1: Graph<N, E, Ty, Ix>,
    g2: Graph<N, E, Ty, Ix>,
)
    requires
        g1.wf(),
        g2.nlen() == g1.nlen(),
        g2.edges@ == g1.edges@,
        g2.chains == g1.chains,
        forall|n: int, k: int|
            0 <= n < g1.nlen() && 0 <= k < 2 ==> #[trigger] g2.head_of(n, k) == g1.head_of(n, k),
    ensures
        g2.wf(),
{
    assert forall|e: int, k: int|
        0 <= e < g2.elen() && 0 <= k < 2 implies 0 <= #[trigger] g2.node_of(e, k) < g2.nlen() by {
        assert(0 <= g1.node_of(e, k) < g1.nlen());
    }
    assert forall|k: int, n: int|
        0 <= k < 2 && 0 <= n < g2.nlen() implies #[trigger] g2.chain_ok(k, n) by {
        assert(g1.chain_ok(k, n));
        assert(g2.head_of(n, k) == g1.head_of(n, k));
        assert forall|e: int| 0 <= e < g1.elen() implies #[trigger] g2.next_of(e, k) == g1.next_of(
            e,
            k,
        ) by {}
        assert forall|e: int| 0 <= e < g1.elen() implies #[trigger] g2.node_of(e, k) == g1.node_of(
            e,
            k,
        ) by {}
        lemma_chain_ok_frame(g1, g2, k, n);
    }
    assert forall|e: int, k: int|
        0 <= e < g2.elen() && 0 <= k < 2 implies #[trigger] g2.in_own_chain(k, e) by {
        assert(g1.in_own_chain(k, e));
        assert(g2.node_of(e, k) == g1.node_of(e, k));
    }
}

/// Two graphs that differ at most in edge weights have the same adjacency
/// structure, so well-formedness carries over.
pub proof fn lemma_wf_weight_independent<N, E, Ty: EdgeType, Ix: IndexType>(
    g1: Graph<N, E, Ty, Ix>,
    g2: Graph<N, E, Ty, Ix>,
)
    requires
        g1.wf(),
        g2.nodes@ == g1.nodes@,
        g2.elen() == g1.elen(),
        g2.chains == g1.chains,
        forall|e: int, k: int|
            0 <= e < g1.elen() && 0 <= k < 2 ==> #[trigger] g2.next_of(e, k) == g1.next_of(e, k),
        forall|e: int, k: int|
            0 <= e < g1.elen() && 0 <= k < 2 ==> #[trigger] g2.node_of(e, k) == g1.node_of(e, k),
    ensures
        g2.wf(),
{
    assert forall|e: int, k: int|
        0 <= e < g2.elen() && 0 <= k < 2 implies 0 <= #[trigger] g2.node_of(e, k) < g2.nlen() by {
        assert(0 <= g1.node_of(e, k) < g1.nlen());
    }
    assert forall|k: int, n: int|
        0 <= k < 2 && 0 <= n < g2.nlen() implies #[trigger] g2.chain_ok(k, n) by {
        assert(g1.chain_ok(k, n));
        assert(g2.head_of(n, k) == g1.head_of(n, k));
        lemma_chain_ok_frame(g1, g2, k, n);
    }
    assert forall|e: int, k: int|
        0 <= e < g2.elen() && 0 <= k < 2 implies #[trigger] g2.in_own_chain(k, e) by {
        assert(g1.in_own_chain(k, e));
        assert(g2.node_of(e, k) == g1.node_of(e, k));
    }
}

} // verus!
