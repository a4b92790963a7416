//! Lazy traversal views over the graph: neighbor and edge iterators that
//! borrow the edge array read-only, index-range iterators, externals, and
//! a detached walker that holds only indices.
use vstd::prelude::*;

use core::marker::PhantomData;
use crate::index::Direction;
use crate::index::EdgeType;
use crate::index::IndexType;
use crate::index::DefaultIx;
use crate::index::NodeIndex;
use crate::index::EdgeIndex;
use crate::graph::Node;
use crate::graph::Edge;
use crate::graph::Graph;

verus! {

/// The sentinel index value of the index type `Ix`.
pub open spec fn sentinel<Ix: IndexType>() -> int {
    Ix::spec_max() as int
}

/// The link structure a detached list walk relies on: `c` lists valid edge
/// indices, `head` points at the first of them (or is the sentinel), each
/// entry's direction-`k` link points at the next, and the last entry's
/// link is the sentinel.
pub open spec fn list_linked<E, Ix: IndexType>(
    edges: Seq<Edge<E, Ix>>,
    head: int,
    c: Seq<int>,
    k: int,
) -> bool {
    &&& forall|j: int| 0 <= j < c.len() ==> 0 <= #[trigger] c[j] < edges.len()
    &&& head == (if c.len() == 0 {
        sentinel::<Ix>()
    } else {
        c[0]
    })
    &&& forall|j: int| 0 <= j < c.len() - 1 ==> edges[#[trigger] c[j]].enext(k) == c[j + 1]
    &&& (c.len() > 0 ==> edges[c[c.len() - 1]].enext(k) == sentinel::<Ix>())
}

/// The (edge, neighbor) pairs yielded while walking an outgoing list:
/// each edge reports its target.
pub open spec fn out_yields<E, Ix: IndexType>(edges: Seq<Edge<E, Ix>>, rem: Seq<int>) -> Seq<
    (int, int),
> {
    Seq::new(rem.len() as nat, |j: int| (rem[j], edges[rem[j]].endpoint(1)))
}

/// The (edge, neighbor) pairs yielded while walking an incoming list:
/// each edge reports its source, except that edges whose source is
/// `skip` are passed over (self-loops were already reported on the
/// outgoing walk).
pub open spec fn in_yields<E, Ix: IndexType>(
    edges: Seq<Edge<E, Ix>>,
    rem: Seq<int>,
    skip: int,
) -> Seq<(int, int)>
    decreases rem.len(),
{
    if rem.len() == 0 {
        Seq::empty()
    } else {
        let rest = in_yields(edges, rem.drop_first(), skip);
        if edges[rem[0]].endpoint(0) == skip {
            rest
        } else {
            seq![(rem[0], edges[rem[0]].endpoint(0))] + rest
        }
    }
}

/// The (edge, source, target) triples yielded while walking a list
/// forward: endpoints are reported in stored order.
pub open spec fn edge_out_yields<E, Ix: IndexType>(
    edges: Seq<Edge<E, Ix>>,
    rem: Seq<int>,
) -> Seq<(int, int, int)> {
    Seq::new(
        rem.len() as nat,
        |j: int| (rem[j], edges[rem[j]].endpoint(0), edges[rem[j]].endpoint(1)),
    )
}

/// The (edge, source, target) triples yielded while walking an incoming
/// list in the undirected case: endpoints are reported swapped, so the
/// caller always sees the start node first, and edges whose source is
/// `skip` are passed over.
pub open spec fn edge_in_yields<E, Ix: IndexType>(
    edges: Seq<Edge<E, Ix>>,
    rem: Seq<int>,
    skip: int,
) -> Seq<(int, int, int)>
    decreases rem.len(),
{
    if rem.len() == 0 {
        Seq::empty()
    } else {
        let rest = edge_in_yields(edges, rem.drop_first(), skip);
        if edges[rem[0]].endpoint(0) == skip {
            rest
        } else {
            seq![(rem[0], edges[rem[0]].endpoint(1), edges[rem[0]].endpoint(0))] + rest
        }
    }
}

/// Whether node `n` is external in direction `k`: no edge in that
/// direction, and, for undirected graphs, no edge at all.
pub open spec fn node_is_external<N, Ix: IndexType>(
    nodes: Seq<Node<N, Ix>>,
    n: int,
    k: int,
    directed: bool,
) -> bool {
    nodes[n].nhead(k) == sentinel::<Ix>() && (directed || nodes[n].nhead(1 - k)
        == sentinel::<Ix>())
}

/// The first external node at position `pos` or later, if any.
pub open spec fn first_external_from<N, Ix: IndexType>(
    nodes: Seq<Node<N, Ix>>,
    pos: int,
    k: int,
    directed: bool,
) -> Option<int>
    decreases nodes.len() - pos,
{
    if pos < 0 || pos >= nodes.len() {
        None
    } else if node_is_external(nodes, pos, k, directed) {
        Some(pos)
    } else {
        first_external_from(nodes, pos + 1, k, directed)
    }
}

/// An iterator over either the nodes without edges to them or from them.
pub struct Externals<'a, N, Ty, Ix: IndexType = DefaultIx> {
    /// The node records being scanned.
    pub nodes: &'a [Node<N, Ix>],
    /// The next position to examine.
    pub pos: usize,
    /// The direction in which nodes must have no edges.
    pub dir: Direction,
    /// Marker for the edge type.
    pub ty: PhantomData<Ty>,
}

impl<'a, N, Ty: EdgeType, Ix: IndexType> Externals<'a, N, Ty, Ix> {
    /// The iterator state stays within bounds small enough to build
    /// indices.
    pub open spec fn wf(self) -> bool {
        self.nodes@.len() <= Ix::spec_max()
    }

    /// The next external node at or after the current position, if any.
    pub fn next(&mut self) -> (r: Option<NodeIndex<Ix>>)
        requires
            old(self).wf(),
        ensures
            final(self).wf(),
            final(self).nodes == old(self).nodes,
            final(self).dir == old(self).dir,
            match r {
                Some(n) => {
                    &&& first_external_from(
                        old(self).nodes@,
                        old(self).pos as int,
                        old(self).dir.k(),
                        Ty::spec_is_directed(),
                    ) == Some(n.idx())
                    &&& final(self).pos == n.idx() + 1
                },
                None => {
                    &&& first_external_from(
                        old(self).nodes@,
                        old(self).pos as int,
                        old(self).dir.k(),
                        Ty::spec_is_directed(),
                    ) is None
                },
            },
    {
        let k = self.dir.index();
        let ghost kk = self.dir.k();
        loop
            invariant
                self.wf(),
                self.nodes == old(self).nodes,
                self.dir == old(self).dir,
                old(self).pos <= self.pos,
                first_external_from(
                    self.nodes@,
                    old(self).pos as int,
                    kk,
                    Ty::spec_is_directed(),
                ) == first_external_from(self.nodes@, self.pos as int, kk, Ty::spec_is_directed()),
                kk == self.dir.k(),
                k == kk,
            ensures
                self.wf(),
                self.nodes == old(self).nodes,
                self.dir == old(self).dir,
                first_external_from(
                    self.nodes@,
                    old(self).pos as int,
                    kk,
                    Ty::spec_is_directed(),
                ) == first_external_from(self.nodes@, self.pos as int, kk, Ty::spec_is_directed()),
                self.pos as int >= self.nodes@.len() || node_is_external(
                    self.nodes@,
                    self.pos as int,
                    kk,
                    Ty::spec_is_directed(),
                ),
            decreases self.nodes@.len() - self.pos,
        {
            if self.pos >= self.nodes.len() {
                break ;
            }
            let node = &self.nodes[self.pos];
            let head_k = if k == 0 {
                node.next_out
            } else {
                node.next_in
            };
            let other = if k == 0 {
                node.next_in
            } else {
                node.next_out
            };
            let is_ext = head_k == EdgeIndex::end() && (Ty::is_directed() || other
                == EdgeIndex::end());
            if is_ext {
                proof {
                    assert(node_is_external(self.nodes@, self.pos as int, kk, Ty::spec_is_directed()));
                }
                break ;
            }
            proof {
                assert(!node_is_external(self.nodes@, self.pos as int, kk, Ty::spec_is_directed()));
            }
            self.pos = self.pos + 1;
        }
        if self.pos >= self.nodes.len() {
            None
        } else {
            let r = NodeIndex::new(self.pos);
            self.pos = self.pos + 1;
            Some(r)
        }
    }
}

/// Iterator over the node indices of a graph: the dense range from zero
/// to the node count.
pub struct NodeIndices<Ix = DefaultIx> {
    /// The next index to yield from the front.
    pub pos: usize,
    /// One past the last index to yield.
    pub end: usize,
    /// Marker for the index type.
    pub ty: PhantomData<Ix>,
}

impl<Ix: IndexType> NodeIndices<Ix> {
    /// The range stays within the index type.
    pub open spec fn wf(self) -> bool {
        self.pos <= self.end && self.end <= Ix::spec_max()
    }

    /// The next index from the front, if any.
    pub fn next(&mut self) -> (r: Option<NodeIndex<Ix>>)
        requires
            old(self).wf(),
        ensures
            final(self).wf(),
            final(self).end == old(self).end,
            match r {
                Some(n) => old(self).pos < old(self).end && n.idx() == old(self).pos
                    && final(self).pos == old(self).pos + 1,
                None => old(self).pos == old(self).end && *final(self) == *old(self),
            },
    {
        if self.pos < self.end {
            let r = NodeIndex::new(self.pos);
            self.pos = self.pos + 1;
            Some(r)
        } else {
            None
        }
    }

    /// The next index from the back, if any.
    pub fn next_back(&mut self) -> (r: Option<NodeIndex<Ix>>)
        requires
            old(self).wf(),
        ensures
            final(self).wf(),
            final(self).pos == old(self).pos,
            match r {
                Some(n) => old(self).pos < old(self).end && n.idx() == old(self).end - 1
                    && final(self).end == old(self).end - 1,
                None => old(self).pos == old(self).end && *final(self) == *old(self),
            },
    {
        if self.pos < self.end {
            self.end = self.end - 1;
            Some(NodeIndex::new(self.end))
        } else {
            None
        }
    }
}

/// Iterator over the edge indices of a graph: the dense range from zero
/// to the edge count.
pub struct EdgeIndices<Ix = DefaultIx> {
    /// The next index to yield.
    pub pos: usize,
    /// One past the last index to yield.
    pub end: usize,
    /// Marker for the index type.
    pub ty: PhantomData<Ix>,
}

impl<Ix: IndexType> EdgeIndices<Ix> {
    /// The range stays within the index type.
    pub open spec fn wf(self) -> bool {
        self.pos <= self.end && self.end <= Ix::spec_max()
    }

    /// The next index from the front, if any.
    pub fn next(&mut self) -> (r: Option<EdgeIndex<Ix>>)
        requires
            old(self).wf(),
        ensures
            final(self).wf(),
            final(self).end == old(self).end,
            match r {
                Some(e) => old(self).pos < old(self).end && e.idx() == old(self).pos
                    && final(self).pos == old(self).pos + 1,
                None => old(self).pos == old(self).end && *final(self) == *old(self),
            },
    {
        if self.pos < self.end {
            let r = EdgeIndex::new(self.pos);
            self.pos = self.pos + 1;
            Some(r)
        } else {
            None
        }
    }

    /// How many indices are left.
    pub fn size_hint(&self) -> (r: (usize, Option<usize>))
        requires
            self.wf(),
        ensures
            r.0 == self.end - self.pos,
            r.1 == Some((self.end - self.pos) as usize),
    {
        let n = self.end - self.pos;
        (n, Some(n))
    }
}

/// Iterator over all nodes of a graph, as (index, data reference) pairs.
pub struct NodeReferences<'a, N, Ix: IndexType = DefaultIx> {
    /// The node records.
    pub nodes: &'a [Node<N, Ix>],
    /// The next position to yield from the front.
    pub pos: usize,
    /// One past the last position to yield.
    pub end: usize,
}

impl<'a, N, Ix: IndexType> NodeReferences<'a, N, Ix> {
    /// The range is within the array and the index type.
    pub open spec fn wf(self) -> bool {
        self.pos <= self.end && self.end <= self.nodes@.len() && self.nodes@.len()
            <= Ix::spec_max()
    }

    /// The next node from the front, if any.
    pub fn next(&mut self) -> (r: Option<(NodeIndex<Ix>, &'a N)>)
        requires
            old(self).wf(),
        ensures
            final(self).wf(),
            final(self).nodes == old(self).nodes,
            final(self).end == old(self).end,
            match r {
                Some(p) => old(self).pos < old(self).end && p.0.idx() == old(self).pos && *p.1
                    == old(self).nodes@[old(self).pos as int].data && final(self).pos == old(
                    self,
                ).pos + 1,
                None => old(self).pos == old(self).end && *final(self) == *old(self),
            },
    {
        if self.pos < self.end {
            let r = (NodeIndex::new(self.pos), &self.nodes[self.pos].data);
            self.pos = self.pos + 1;
            Some(r)
        } else {
            None
        }
    }

    /// The next node from the back, if any.
    pub fn next_back(&mut self) -> (r: Option<(NodeIndex<Ix>, &'a N)>)
        requires
            old(self).wf(),
        ensures
            final(self).wf(),
            final(self).nodes == old(self).nodes,
            final(self).pos == old(self).pos,
            match r {
                Some(p) => old(self).pos < old(self).end && p.0.idx() == old(self).end - 1 && *p.1
                    == old(self).nodes@[old(self).end - 1].data && final(self).end == old(
                    self,
                ).end - 1,
                None => old(self).pos == old(self).end && *final(self) == *old(self),
            },
    {
        if self.pos < self.end {
            self.end = self.end - 1;
            Some((NodeIndex::new(self.end), &self.nodes[self.end].data))
        } else {
            None
        }
    }
}

/// Reference to a `Graph` edge: its index, its endpoints as reported by
/// the iterator that produced it, and its weight.
pub struct EdgeReference<'a, E, Ix: IndexType = DefaultIx> {
    /// The edge's index.
    pub index: EdgeIndex<Ix>,
    /// The reported source.
    pub source: NodeIndex<Ix>,
    /// The reported target.
    pub target: NodeIndex<Ix>,
    /// The edge's weight.
    pub weight: &'a E,
}

impl<'a, E, Ix: IndexType> Clone for EdgeReference<'a, E, Ix> {
    fn clone(&self) -> (r: Self)
        ensures
            r == *self,
    {
        EdgeReference {
            index: self.index,
            source: self.source,
            target: self.target,
            weight: self.weight,
        }
    }
}

impl<'a, E, Ix: IndexType> Copy for EdgeReference<'a, E, Ix> {

}

impl<'a, E: PartialEq, Ix: IndexType> PartialEq for EdgeReference<'a, E, Ix> {
    fn eq(&self, other: &Self) -> bool {
        self.index == other.index && *self.weight == *other.weight
    }
}

impl<'a, E: PartialEq, Ix: IndexType> vstd::std_specs::cmp::PartialEqSpecImpl for EdgeReference<'a, E, Ix> {
    open spec fn obeys_eq_spec() -> bool {
        <E as vstd::std_specs::cmp::PartialEqSpec>::obeys_eq_spec()
    }

    open spec fn eq_spec(&self, other: &Self) -> bool {
        self.index.idx() == other.index.idx()
            && vstd::std_specs::cmp::PartialEqSpec::eq_spec(self.weight, other.weight)
    }
}

/// Iterator over all edges of a graph, in indexed order, as
/// `EdgeReference`s with endpoints in stored order.
pub struct EdgeReferences<'a, E, Ix: IndexType = DefaultIx> {
    /// The edge records.
    pub edges: &'a [Edge<E, Ix>],
    /// The next position to yield from the front.
    pub pos: usize,
    /// One past the last position to yield.
    pub end: usize,
}

impl<'a, E, Ix: IndexType> EdgeReferences<'a, E, Ix> {
    /// The range is within the array and the index type.
    pub open spec fn wf(self) -> bool {
        self.pos <= self.end && self.end <= self.edges@.len() && self.edges@.len()
            <= Ix::spec_max()
    }

    /// The next edge from the front, if any.
    pub fn next(&mut self) -> (r: Option<EdgeReference<'a, E, Ix>>)
        requires
            old(self).wf(),
        ensures
            final(self).wf(),
            final(self).edges == old(self).edges,
            final(self).end == old(self).end,
            match r {
                Some(er) => {
                    &&& old(self).pos < old(self).end
                    &&& er.index.idx() == old(self).pos
                    &&& er.source.idx() == old(self).edges@[old(self).pos as int].endpoint(0)
                    &&& er.target.idx() == old(self).edges@[old(self).pos as int].endpoint(1)
                    &&& *er.weight == old(self).edges@[old(self).pos as int].weight
                    &&& final(self).pos == old(self).pos + 1
                },
                None => old(self).pos == old(self).end && *final(self) == *old(self),
            },
    {
        if self.pos < self.end {
            let e = &self.edges[self.pos];
            let r = EdgeReference {
                index: EdgeIndex::new(self.pos),
                source: e.src,
                target: e.dst,
                weight: &e.weight,
            };
            self.pos = self.pos + 1;
            Some(r)
        } else {
            None
        }
    }

    /// The next edge from the back, if any.
    pub fn next_back(&mut self) -> (r: Option<EdgeReference<'a, E, Ix>>)
        requires
            old(self).wf(),
        ensures
            final(self).wf(),
            final(self).edges == old(self).edges,
            final(self).pos == old(self).pos,
            match r {
                Some(er) => {
                    &&& old(self).pos < old(self).end
                    &&& er.index.idx() == old(self).end - 1
                    &&& er.source.idx() == old(self).edges@[old(self).end - 1].endpoint(0)
                    &&& er.target.idx() == old(self).edges@[old(self).end - 1].endpoint(1)
                    &&& *er.weight == old(self).edges@[old(self).end - 1].weight
                    &&& final(self).end == old(self).end - 1
                },
                None => old(self).pos == old(self).end && *final(self) == *old(self),
            },
    {
        if self.pos < self.end {
            self.end = self.end - 1;
            let e = &self.edges[self.end];
            Some(
                EdgeReference {
                    index: EdgeIndex::new(self.end),
                    source: e.src,
                    target: e.dst,
                    weight: &e.weight,
                },
            )
        } else {
            None
        }
    }
}

/// Cursor yielding mutable access to all node data, in index order. It
/// holds only a position: each step reborrows the graph, so the borrows
/// do not pile up.
pub struct NodeWeightsMut {
    /// The next index to yield.
    pub pos: usize,
}

impl NodeWeightsMut {
    /// Mutable access to the data of the next node of `g`, if any.
    pub fn next<'b, N, E, Ty: EdgeType, Ix: IndexType>(
        &mut self,
        g: &'b mut Graph<N, E, Ty, Ix>,
    ) -> (r: Option<&'b mut N>)
        ensures
            match r {
                None => old(self).pos >= old(g).nlen() && *final(g) == *old(g) && *final(self)
                    == *old(self),
                Some(m) => {
                    &&& old(self).pos < old(g).nlen()
                    &&& final(self).pos == old(self).pos + 1
                    &&& *m == old(g).data_of(old(self).pos as int)
                    &&& final(g).nodes@ == old(g).nodes@.update(
                        old(self).pos as int,
                        Node {
                            data: *final(r.unwrap()),
                            next_out: old(g).nodes@[old(self).pos as int].next_out,
                            next_in: old(g).nodes@[old(self).pos as int].next_in,
                        },
                    )
                    &&& final(g).edges@ == old(g).edges@
                    &&& final(g).chains == old(g).chains
                },
            },
    {
        let i = self.pos;
        if i < g.nodes.len() {
            self.pos = i + 1;
            Some(&mut g.nodes[i].data)
        } else {
            None
        }
    }
}

/// Cursor yielding mutable access to all edge weights, in index order. It
/// holds only a position: each step reborrows the graph, so the borrows
/// do not pile up.
pub struct EdgeWeightsMut {
    /// The next index to yield.
    pub pos: usize,
}

impl EdgeWeightsMut {
    /// Mutable access to the weight of the next edge of `g`, if any.
    pub fn next<'b, N, E, Ty: EdgeType, Ix: IndexType>(
        &mut self,
        g: &'b mut Graph<N, E, Ty, Ix>,
    ) -> (r: Option<&'b mut E>)
        ensures
            match r {
                None => old(self).pos >= old(g).elen() && *final(g) == *old(g) && *final(self)
                    == *old(self),
                Some(m) => {
                    &&& old(self).pos < old(g).elen()
                    &&& final(self).pos == old(self).pos + 1
                    &&& *m == old(g).wt_of(old(self).pos as int)
                    &&& final(g).edges@ == old(g).edges@.update(
                        old(self).pos as int,
                        Edge {
                            weight: *final(r.unwrap()),
                            next_out: old(g).edges@[old(self).pos as int].next_out,
                            next_in: old(g).edges@[old(self).pos as int].next_in,
                            src: old(g).edges@[old(self).pos as int].src,
                            dst: old(g).edges@[old(self).pos as int].dst,
                        },
                    )
                    &&& final(g).nodes@ == old(g).nodes@
                    &&& final(g).chains == old(g).chains
                },
            },
    {
        let i = self.pos;
        if i < g.edges.len() {
            self.pos = i + 1;
            Some(&mut g.edges[i].weight)
        } else {
            None
        }
    }

    /// How many edges a graph with `total` edges has left to yield.
    pub fn size_hint(&self, total: usize) -> (r: (usize, Option<usize>))
        requires
            self.pos <= total,
        ensures
            r.0 == total - self.pos,
            r.1 == Some((total - self.pos) as usize),
    {
        let n = total - self.pos;
        (n, Some(n))
    }
}

/// Iterator over the neighbors of a node.
///
/// It holds the node's two list heads and walks the outgoing list, then —
/// unless restricted to one direction — the incoming list, skipping
/// self-loops there so each is reported exactly once.
pub struct Neighbors<'a, E, Ix: IndexType = DefaultIx> {
    /// The starting node, whose self-loops are skipped on the incoming
    /// walk.
    pub skip_start: NodeIndex<Ix>,
    /// The edge records.
    pub edges: &'a [Edge<E, Ix>],
    /// The next edge of the outgoing walk.
    pub next0: EdgeIndex<Ix>,
    /// The next edge of the incoming walk.
    pub next1: EdgeIndex<Ix>,
    /// The remaining outgoing list.
    pub rem0: Ghost<Seq<int>>,
    /// The remaining incoming list.
    pub rem1: Ghost<Seq<int>>,
}

impl<'a, E, Ix: IndexType> Neighbors<'a, E, Ix> {
    /// Both remaining lists are properly linked in the borrowed edge
    /// array.
    pub open spec fn wf(self) -> bool {
        &&& self.edges@.len() <= Ix::spec_max()
        &&& list_linked(self.edges@, self.next0.idx(), self.rem0@, 0)
        &&& list_linked(self.edges@, self.next1.idx(), self.rem1@, 1)
    }

    /// The (edge, neighbor) pairs this iterator will still yield.
    pub open spec fn yields(self) -> Seq<(int, int)> {
        out_yields(self.edges@, self.rem0@) + in_yields(
            self.edges@,
            self.rem1@,
            self.skip_start.idx(),
        )
    }

    /// The next neighbor, if any: the first entry of the remaining yield
    /// sequence.
    pub fn next(&mut self) -> (r: Option<NodeIndex<Ix>>)
        requires
            old(self).wf(),
        ensures
            final(self).wf(),
            final(self).edges == old(self).edges,
            final(self).skip_start == old(self).skip_start,
            match r {
                Some(n) => old(self).yields().len() > 0 && n.idx() == old(self).yields()[0].1
                    && final(self).yields() == old(self).yields().drop_first(),
                None => old(self).yields().len() == 0 && final(self).yields() == old(
                    self,
                ).yields(),
            },
    {
        let i0 = self.next0.index();
        if i0 < self.edges.len() {
            proof {
                if self.rem0@.len() == 0 {
                    assert(self.next0.idx() == sentinel::<Ix>());
                    assert(false);
                }
                assert(self.rem0@[0] == i0);
            }
            let e = &self.edges[i0];
            let r = e.dst;
            self.next0 = e.next_out;
            proof {
                let edges = self.edges@;
                let c = self.rem0@;
                self.rem0@ = c.drop_first();
                assert forall|j: int|
                    0 <= j < c.drop_first().len() implies #[trigger] c.drop_first()[j] == c[j
                    + 1] by {}
                assert(out_yields(edges, c).drop_first() =~= out_yields(edges, c.drop_first()));
                assert(out_yields(edges, c).len() > 0);
                assert((out_yields(edges, c) + in_yields(
                    edges,
                    self.rem1@,
                    self.skip_start.idx(),
                )).drop_first() =~= out_yields(edges, c.drop_first()) + in_yields(
                    edges,
                    self.rem1@,
                    self.skip_start.idx(),
                ));
                assert(out_yields(edges, c)[0] == (c[0], edges[c[0]].endpoint(1)));
            }
            return Some(r);
        }
        proof {
            if self.rem0@.len() > 0 {
                assert(0 <= self.rem0@[0] < self.edges@.len());
                assert(false);
            }
            assert(out_yields(self.edges@, self.rem0@) =~= Seq::<(int, int)>::empty());
            assert(self.yields() =~= in_yields(self.edges@, self.rem1@, self.skip_start.idx()));
        }
        loop
            invariant
                self.wf(),
                self.edges == old(self).edges,
                self.skip_start == old(self).skip_start,
                self.rem0@.len() == 0,
                old(self).yields() == in_yields(self.edges@, self.rem1@, self.skip_start.idx()),
            decreases self.rem1@.len(),
        {
            let i1 = self.next1.index();
            if i1 >= self.edges.len() {
                proof {
                    if self.rem1@.len() > 0 {
                        assert(0 <= self.rem1@[0] < self.edges@.len());
                        assert(false);
                    }
                    assert(self.yields() =~= old(self).yields());
                }
                return None;
            }
            proof {
                if self.rem1@.len() == 0 {
                    assert(self.next1.idx() == sentinel::<Ix>());
                    assert(false);
                }
                assert(self.rem1@[0] == i1);
            }
            let e = &self.edges[i1];
            let r = e.src;
            self.next1 = e.next_in;
            let ghost c = self.rem1@;
            proof {
                self.rem1@ = c.drop_first();
                assert forall|j: int|
                    0 <= j < c.drop_first().len() implies #[trigger] c.drop_first()[j] == c[j
                    + 1] by {}
            }
            if r != self.skip_start {
                proof {
                    assert(self.edges@[c[0]].endpoint(0) != self.skip_start.idx());
                    assert(in_yields(self.edges@, c, self.skip_start.idx())[0] == (
                        c[0],
                        self.edges@[c[0]].endpoint(0),
                    ));
                    assert(in_yields(self.edges@, c, self.skip_start.idx()).drop_first()
                        =~= in_yields(self.edges@, c.drop_first(), self.skip_start.idx()));
                    assert(self.yields() =~= old(self).yields().drop_first());
                }
                return Some(r);
            }
            proof {
                assert(self.edges@[c[0]].endpoint(0) == self.skip_start.idx());
                assert(in_yields(self.edges@, c, self.skip_start.idx()) == in_yields(
                    self.edges@,
                    c.drop_first(),
                    self.skip_start.idx(),
                ));
                assert(self.yields() =~= old(self).yields());
            }
        }
    }

    /// Return a walker object that can be used to step through the
    /// remaining neighbors without borrowing from the graph, so that edge
    /// weights can be mutated between steps.
    pub fn detach(&self) -> (w: WalkNeighbors<Ix>)
        ensures
            w.skip_start == self.skip_start,
            w.next0 == self.next0,
            w.next1 == self.next1,
            w.rem0 == self.rem0,
            w.rem1 == self.rem1,
    {
        WalkNeighbors {
            skip_start: self.skip_start,
            next0: self.next0,
            next1: self.next1,
            rem0: self.rem0,
            rem1: self.rem1,
        }
    }
}

impl<'a, E, Ix: IndexType> Clone for Neighbors<'a, E, Ix> {
    /// An exact copy: the clone yields the same remaining neighbors.
    fn clone(&self) -> (r: Self)
        ensures
            r == *self,
    {
        Neighbors {
            skip_start: self.skip_start,
            edges: self.edges,
            next0: self.next0,
            next1: self.next1,
            rem0: self.rem0,
            rem1: self.rem1,
        }
    }
}

/// A walker object that can be used to step through the edge lists of a
/// node while separately mutating the graph's edge weights: it holds only
/// indices, no borrow of the graph.
pub struct WalkNeighbors<Ix = DefaultIx> {
    /// The starting node, whose self-loops are skipped on the incoming
    /// walk.
    pub skip_start: NodeIndex<Ix>,
    /// The next edge of the outgoing walk.
    pub next0: EdgeIndex<Ix>,
    /// The next edge of the incoming walk.
    pub next1: EdgeIndex<Ix>,
    /// The remaining outgoing list.
    pub rem0: Ghost<Seq<int>>,
    /// The remaining incoming list.
    pub rem1: Ghost<Seq<int>>,
}

impl<Ix: IndexType> Clone for WalkNeighbors<Ix> {
    /// An exact copy: the clone walks the same remaining neighbors.
    fn clone(&self) -> (r: Self)
        ensures
            r == *self,
    {
        WalkNeighbors {
            skip_start: self.skip_start,
            next0: self.next0,
            next1: self.next1,
            rem0: self.rem0,
            rem1: self.rem1,
        }
    }
}

impl<Ix: IndexType> WalkNeighbors<Ix> {
    /// The walker's lists are properly linked in graph `g`: this is kept
    /// as long as the graph's structure is unchanged, however its weights
    /// and data are mutated.
    pub open spec fn wf_for<N, E, Ty: EdgeType>(self, g: Graph<N, E, Ty, Ix>) -> bool {
        &&& g.edges@.len() <= Ix::spec_max()
        &&& list_linked(g.edges@, self.next0.idx(), self.rem0@, 0)
        &&& list_linked(g.edges@, self.next1.idx(), self.rem1@, 1)
    }

    /// The (edge, neighbor) pairs this walker will still yield on `g`.
    pub open spec fn yields<N, E, Ty: EdgeType>(self, g: Graph<N, E, Ty, Ix>) -> Seq<(int, int)> {
        out_yields(g.edges@, self.rem0@) + in_yields(g.edges@, self.rem1@, self.skip_start.idx())
    }

    /// Step to the next edge and its endpoint node in the walk for graph
    /// `g`: the first entry of the remaining yield sequence.
    pub fn next<N, E, Ty: EdgeType>(&mut self, g: &Graph<N, E, Ty, Ix>) -> (r: Option<
        (EdgeIndex<Ix>, NodeIndex<Ix>),
    >)
        requires
            old(self).wf_for(*g),
        ensures
            final(self).wf_for(*g),
            final(self).skip_start == old(self).skip_start,
            match r {
                Some(p) => old(self).yields(*g).len() > 0 && (p.0.idx(), p.1.idx()) == old(
                    self,
                ).yields(*g)[0] && final(self).yields(*g) == old(self).yields(*g).drop_first(),
                None => old(self).yields(*g).len() == 0 && final(self).yields(*g) == old(
                    self,
                ).yields(*g),
            },
    {
        let i0 = self.next0.index();
        if i0 < g.edges.len() {
            proof {
                if self.rem0@.len() == 0 {
                    assert(self.next0.idx() == sentinel::<Ix>());
                    assert(false);
                }
                assert(self.rem0@[0] == i0);
            }
            let ed = self.next0;
            let r = g.edges[i0].dst;
            self.next0 = g.edges[i0].next_out;
            proof {
                let edges = g.edges@;
                let c = self.rem0@;
                self.rem0@ = c.drop_first();
                assert forall|j: int|
                    0 <= j < c.drop_first().len() implies #[trigger] c.drop_first()[j] == c[j
                    + 1] by {}
                assert(out_yields(edges, c).drop_first() =~= out_yields(edges, c.drop_first()));
                assert(out_yields(edges, c).len() > 0);
                assert(old(self).yields(*g).drop_first() =~= out_yields(edges, c.drop_first())
                    + in_yields(edges, self.rem1@, self.skip_start.idx()));
                assert(out_yields(edges, c)[0] == (c[0], edges[c[0]].endpoint(1)));
            }
            return Some((ed, r));
        }
        proof {
            if self.rem0@.len() > 0 {
                assert(0 <= self.rem0@[0] < g.edges@.len());
                assert(false);
            }
            assert(out_yields(g.edges@, self.rem0@) =~= Seq::<(int, int)>::empty());
            assert(self.yields(*g) =~= in_yields(g.edges@, self.rem1@, self.skip_start.idx()));
        }
        loop
            invariant
                self.wf_for(*g),
                self.skip_start == old(self).skip_start,
                self.rem0@.len() == 0,
                old(self).yields(*g) == in_yields(g.edges@, self.rem1@, self.skip_start.idx()),
            decreases self.rem1@.len(),
        {
            let i1 = self.next1.index();
            if i1 >= g.edges.len() {
                proof {
                    if self.rem1@.len() > 0 {
                        assert(0 <= self.rem1@[0] < g.edges@.len());
                        assert(false);
                    }
                    assert(self.yields(*g) =~= old(self).yields(*g));
                }
                return None;
            }
            proof {
                if self.rem1@.len() == 0 {
                    assert(self.next1.idx() == sentinel::<Ix>());
                    assert(false);
                }
                assert(self.rem1@[0] == i1);
            }
            let ed = self.next1;
            let r = g.edges[i1].src;
            self.next1 = g.edges[i1].next_in;
            let ghost c = self.rem1@;
            proof {
                self.rem1@ = c.drop_first();
                assert forall|j: int|
                    0 <= j < c.drop_first().len() implies #[trigger] c.drop_first()[j] == c[j
                    + 1] by {}
            }
            if r != self.skip_start {
                proof {
                    assert(g.edges@[c[0]].endpoint(0) != self.skip_start.idx());
                    assert(in_yields(g.edges@, c, self.skip_start.idx())[0] == (
                        c[0],
                        g.edges@[c[0]].endpoint(0),
                    ));
                    assert(in_yields(g.edges@, c, self.skip_start.idx()).drop_first()
                        =~= in_yields(g.edges@, c.drop_first(), self.skip_start.idx()));
                    assert(self.yields(*g) =~= old(self).yields(*g).drop_first());
                }
                return Some((ed, r));
            }
            proof {
                assert(g.edges@[c[0]].endpoint(0) == self.skip_start.idx());
                assert(in_yields(g.edges@, c, self.skip_start.idx()) == in_yields(
                    g.edges@,
                    c.drop_first(),
                    self.skip_start.idx(),
                ));
                assert(self.yields(*g) =~= old(self).yields(*g));
            }
        }
    }

    /// Step to the next node in the walk for graph `g`.
    pub fn next_node<N, E, Ty: EdgeType>(&mut self, g: &Graph<N, E, Ty, Ix>) -> (r: Option<
        NodeIndex<Ix>,
    >)
        requires
            old(self).wf_for(*g),
        ensures
            final(self).wf_for(*g),
            final(self).skip_start == old(self).skip_start,
            match r {
                Some(n) => old(self).yields(*g).len() > 0 && n.idx() == old(self).yields(*g)[0].1
                    && final(self).yields(*g) == old(self).yields(*g).drop_first(),
                None => old(self).yields(*g).len() == 0 && final(self).yields(*g) == old(
                    self,
                ).yields(*g),
            },
    {
        match self.next(g) {
            Some(t) => Some(t.1),
            None => None,
        }
    }

    /// Step to the next edge in the walk for graph `g`.
    pub fn next_edge<N, E, Ty: EdgeType>(&mut self, g: &Graph<N, E, Ty, Ix>) -> (r: Option<
        EdgeIndex<Ix>,
    >)
        requires
            old(self).wf_for(*g),
        ensures
            final(self).wf_for(*g),
            final(self).skip_start == old(self).skip_start,
            match r {
                Some(e) => old(self).yields(*g).len() > 0 && e.idx() == old(self).yields(*g)[0].0
                    && final(self).yields(*g) == old(self).yields(*g).drop_first(),
                None => old(self).yields(*g).len() == 0 && final(self).yields(*g) == old(
                    self,
                ).yields(*g),
            },
    {
        match self.next(g) {
            Some(t) => Some(t.0),
            None => None,
        }
    }
}

/// Iterator over the edges from or to a node, yielding full edge
/// references.
///
/// When restricted to one direction it walks a single list; otherwise it
/// walks the outgoing list and then the incoming list, skipping self-loops
/// there and swapping the reported endpoints so the caller always sees the
/// start node first.
pub struct Edges<'a, E, Ty, Ix: IndexType = DefaultIx> {
    /// The starting node, whose self-loops are skipped on the incoming
    /// walk.
    pub skip_start: NodeIndex<Ix>,
    /// The edge records.
    pub edges: &'a [Edge<E, Ix>],
    /// The next edge of the first walk (in the direction `dirk` gives).
    pub next0: EdgeIndex<Ix>,
    /// The next edge of the incoming walk (both-directions mode only).
    pub next1: EdgeIndex<Ix>,
    /// `Some(d)`: only direction `d` is walked. `None`: both.
    pub direction: Option<Direction>,
    /// Marker for the edge type.
    pub ty: PhantomData<Ty>,
    /// The remaining list of the first walk.
    pub rem0: Ghost<Seq<int>>,
    /// The remaining incoming list (both-directions mode only).
    pub rem1: Ghost<Seq<int>>,
}

impl<'a, E, Ty: EdgeType, Ix: IndexType> Edges<'a, E, Ty, Ix> {
    /// The list direction of the first walk.
    pub open spec fn dirk(self) -> int {
        match self.direction {
            Some(d) => d.k(),
            None => 0,
        }
    }

    /// The remaining lists are properly linked in the borrowed edge array;
    /// in single-direction mode the incoming walk is empty.
    pub open spec fn wf(self) -> bool {
        &&& self.edges@.len() <= Ix::spec_max()
        &&& list_linked(self.edges@, self.next0.idx(), self.rem0@, self.dirk())
        &&& list_linked(self.edges@, self.next1.idx(), self.rem1@, 1)
        &&& (self.direction is Some ==> self.rem1@ == Seq::<int>::empty())
    }

    /// The (edge, reported source, reported target) triples this iterator
    /// will still yield.
    pub open spec fn yields(self) -> Seq<(int, int, int)> {
        edge_out_yields(self.edges@, self.rem0@) + edge_in_yields(
            self.edges@,
            self.rem1@,
            self.skip_start.idx(),
        )
    }

    /// The next edge reference, if any: the first entry of the remaining
    /// yield sequence, with the weight of that edge.
    pub fn next(&mut self) -> (r: Option<EdgeReference<'a, E, Ix>>)
        requires
            old(self).wf(),
        ensures
            final(self).wf(),
            final(self).edges == old(self).edges,
            final(self).skip_start == old(self).skip_start,
            final(self).direction == old(self).direction,
            match r {
                Some(er) => {
                    &&& old(self).yields().len() > 0
                    &&& old(self).yields()[0] == (er.index.idx(), er.source.idx(), er.target.idx())
                    &&& *er.weight == old(self).edges@[er.index.idx()].weight
                    &&& 0 <= er.index.idx() < old(self).edges@.len()
                    &&& final(self).yields() == old(self).yields().drop_first()
                },
                None => old(self).yields().len() == 0 && final(self).yields() == old(
                    self,
                ).yields(),
            },
    {
        let k = match self.direction {
            Some(d) => d.index(),
            None => 0,
        };
        let i0 = self.next0.index();
        if i0 < self.edges.len() {
            proof {
                if self.rem0@.len() == 0 {
                    assert(self.next0.idx() == sentinel::<Ix>());
                    assert(false);
                }
                assert(self.rem0@[0] == i0);
            }
            let cur = self.next0;
            let e = &self.edges[i0];
            self.next0 = if k == 0 {
                e.next_out
            } else {
                e.next_in
            };
            let er = EdgeReference { index: cur, source: e.src, target: e.dst, weight: &e.weight };
            proof {
                let edges = self.edges@;
                let c = self.rem0@;
                self.rem0@ = c.drop_first();
                assert forall|j: int|
                    0 <= j < c.drop_first().len() implies #[trigger] c.drop_first()[j] == c[j
                    + 1] by {}
                assert(edge_out_yields(edges, c).drop_first() =~= edge_out_yields(
                    edges,
                    c.drop_first(),
                ));
                assert(edge_out_yields(edges, c).len() > 0);
                assert(old(self).yields().drop_first() =~= edge_out_yields(edges, c.drop_first())
                    + edge_in_yields(edges, self.rem1@, self.skip_start.idx()));
                assert(edge_out_yields(edges, c)[0] == (
                    c[0],
                    edges[c[0]].endpoint(0),
                    edges[c[0]].endpoint(1),
                ));
            }
            return Some(er);
        }
        proof {
            if self.rem0@.len() > 0 {
                assert(0 <= self.rem0@[0] < self.edges@.len());
                assert(false);
            }
            assert(edge_out_yields(self.edges@, self.rem0@) =~= Seq::<(int, int, int)>::empty());
            assert(self.yields() =~= edge_in_yields(
                self.edges@,
                self.rem1@,
                self.skip_start.idx(),
            ));
        }
        if self.direction.is_some() {
            proof {
                assert(edge_in_yields(self.edges@, self.rem1@, self.skip_start.idx())
                    =~= Seq::<(int, int, int)>::empty());
            }
            return None;
        }
        loop
            invariant
                self.wf(),
                self.edges == old(self).edges,
                self.skip_start == old(self).skip_start,
                self.direction == old(self).direction,
                self.direction is None,
                self.rem0@.len() == 0,
                old(self).yields() == edge_in_yields(
                    self.edges@,
                    self.rem1@,
                    self.skip_start.idx(),
                ),
            decreases self.rem1@.len(),
        {
            let i1 = self.next1.index();
            if i1 >= self.edges.len() {
                proof {
                    if self.rem1@.len() > 0 {
                        assert(0 <= self.rem1@[0] < self.edges@.len());
                        assert(false);
                    }
                    assert(self.yields() =~= old(self).yields());
                }
                return None;
            }
            proof {
                if self.rem1@.len() == 0 {
                    assert(self.next1.idx() == sentinel::<Ix>());
                    assert(false);
                }
                assert(self.rem1@[0] == i1);
            }
            let cur = self.next1;
            let e = &self.edges[i1];
            self.next1 = e.next_in;
            let ghost c = self.rem1@;
            proof {
                self.rem1@ = c.drop_first();
                assert forall|j: int|
                    0 <= j < c.drop_first().len() implies #[trigger] c.drop_first()[j] == c[j
                    + 1] by {}
            }
            if e.src != self.skip_start {
                let er = EdgeReference {
                    index: cur,
                    source: e.dst,
                    target: e.src,
                    weight: &e.weight,
                };
                proof {
                    assert(self.edges@[c[0]].endpoint(0) != self.skip_start.idx());
                    assert(edge_in_yields(self.edges@, c, self.skip_start.idx())[0] == (
                        c[0],
                        self.edges@[c[0]].endpoint(1),
                        self.edges@[c[0]].endpoint(0),
                    ));
                    assert(edge_in_yields(self.edges@, c, self.skip_start.idx()).drop_first()
                        =~= edge_in_yields(self.edges@, c.drop_first(), self.skip_start.idx()));
                    assert(self.yields() =~= old(self).yields().drop_first());
                }
                return Some(er);
            }
            proof {
                assert(self.edges@[c[0]].endpoint(0) == self.skip_start.idx());
                assert(edge_in_yields(self.edges@, c, self.skip_start.idx()) == edge_in_yields(
                    self.edges@,
                    c.drop_first(),
                    self.skip_start.idx(),
                ));
                assert(self.yields() =~= old(self).yields());
            }
        }
    }
}

impl<'a, E, Ty: EdgeType, Ix: IndexType> Clone for Edges<'a, E, Ty, Ix> {
    /// An exact copy: the clone yields the same remaining edges.
    fn clone(&self) -> (r: Self)
        ensures
            r == *self,
    {
        Edges {
            skip_start: self.skip_start,
            edges: self.edges,
            next0: self.next0,
            next1: self.next1,
            direction: self.direction,
            ty: PhantomData,
            rem0: self.rem0,
            rem1: self.rem1,
        }
    }
}

impl<N, E, Ty: EdgeType, Ix: IndexType> Graph<N, E, Ty, Ix> {
    /// The (edge, reported source, reported target) triples an undirected
    /// edge walk from `a` yields: `a`'s outgoing list in stored order,
    /// then its incoming list with self-loops skipped and endpoints
    /// swapped.
    pub open spec fn und_edge_yields(self, a: int) -> Seq<(int, int, int)> {
        if 0 <= a < self.nlen() {
            edge_out_yields(self.edges@, self.chain(0, a)) + edge_in_yields(
                self.edges@,
                self.chain(1, a),
                a,
            )
        } else {
            Seq::empty()
        }
    }

    /// The (edge, reported source, reported target) triples an edge walk
    /// from `a` in direction `dir` yields; for undirected graphs the
    /// direction is ignored.
    pub open spec fn dir_edge_yields(self, a: int, dir: Direction) -> Seq<(int, int, int)> {
        if Ty::spec_is_directed() {
            if 0 <= a < self.nlen() {
                edge_out_yields(self.edges@, self.chain(dir.k(), a))
            } else {
                Seq::empty()
            }
        } else {
            self.und_edge_yields(a)
        }
    }

    /// Return an iterator of all edges connected to `a`, in either
    /// direction.
    ///
    /// Produces an empty iterator if the node doesn't exist.
    pub fn edges_undirected(&self, a: NodeIndex<Ix>) -> (it: Edges<E, Ty, Ix>)
        requires
            self.wf(),
        ensures
            it.wf(),
            it.edges@ == self.edges@,
            it.skip_start == a,
            it.direction is None,
            it.yields() == self.und_edge_yields(a.idx()),
            a.idx() < self.nlen() ==> it.rem0@ == self.chain(0, a.idx()) && it.rem1@ == self.chain(
                1,
                a.idx(),
            ) && it.next0.idx() == self.head_of(a.idx(), 0) && it.next1.idx() == self.head_of(
                a.idx(),
                1,
            ),
            a.idx() >= self.nlen() ==> it.rem0@ == Seq::<int>::empty() && it.rem1@
                == Seq::<int>::empty(),
    {
        let ia = a.index();
        if ia < self.nodes.len() {
            let it = Edges {
                skip_start: a,
                edges: self.edges.as_slice(),
                next0: self.nodes[ia].next_out,
                next1: self.nodes[ia].next_in,
                direction: None,
                ty: PhantomData,
                rem0: Ghost(self.chain(0, a.idx())),
                rem1: Ghost(self.chain(1, a.idx())),
            };
            proof {
                assert(self.chain_ok(0, a.idx()));
                assert(self.chain_ok(1, a.idx()));
                let c0 = self.chain(0, a.idx());
                let c1 = self.chain(1, a.idx());
                assert forall|j: int|
                    0 <= j < c0.len() - 1 implies self.edges@[#[trigger] c0[j]].enext(0) == c0[j
                    + 1] by {
                    assert(self.next_of(c0[j], 0) == c0[j + 1]);
                }
                assert forall|j: int|
                    0 <= j < c1.len() - 1 implies self.edges@[#[trigger] c1[j]].enext(1) == c1[j
                    + 1] by {
                    assert(self.next_of(c1[j], 1) == c1[j + 1]);
                }
            }
            it
        } else {
            let e: EdgeIndex<Ix> = EdgeIndex::end();
            let it = Edges {
                skip_start: a,
                edges: self.edges.as_slice(),
                next0: e,
                next1: e,
                direction: None,
                ty: PhantomData,
                rem0: Ghost(Seq::empty()),
                rem1: Ghost(Seq::empty()),
            };
            proof {
                assert(edge_out_yields(self.edges@, Seq::empty())
                    =~= Seq::<(int, int, int)>::empty());
                assert(it.yields() =~= Seq::<(int, int, int)>::empty());
            }
            it
        }
    }

    /// Return an iterator of all edges of `a` in the given direction.
    ///
    /// - `Directed`, `Outgoing`: all edges from `a`.
    /// - `Directed`, `Incoming`: all edges to `a`, with endpoints in
    ///   stored order.
    /// - `Undirected`: all edges connected to `a`.
    ///
    /// Produces an empty iterator if the node doesn't exist.
    pub fn edges_directed(&self, a: NodeIndex<Ix>, dir: Direction) -> (it: Edges<E, Ty, Ix>)
        requires
            self.wf(),
        ensures
            it.wf(),
            it.edges@ == self.edges@,
            it.yields() == self.dir_edge_yields(a.idx(), dir),
    {
        let mut it = self.edges_undirected(a);
        if self.is_directed() {
            it.direction = Some(dir);
            if dir.index() == 1 {
                it.next0 = it.next1;
                proof {
                    it.rem0@ = it.rem1@;
                }
            }
            let e: EdgeIndex<Ix> = EdgeIndex::end();
            it.next1 = e;
            proof {
                it.rem1@ = Seq::empty();
                assert(edge_in_yields(self.edges@, Seq::<int>::empty(), it.skip_start.idx())
                    =~= Seq::<(int, int, int)>::empty());
                assert(it.yields() =~= edge_out_yields(self.edges@, it.rem0@));
                if a.idx() >= self.nlen() {
                    assert(edge_out_yields(self.edges@, it.rem0@)
                        =~= Seq::<(int, int, int)>::empty());
                }
            }
        }
        it
    }

    /// Return an iterator of all edges of `a`: outgoing edges for directed
    /// graphs, all connected edges for undirected ones.
    ///
    /// Produces an empty iterator if the node doesn't exist.
    pub fn edges(&self, a: NodeIndex<Ix>) -> (it: Edges<E, Ty, Ix>)
        requires
            self.wf(),
        ensures
            it.wf(),
            it.edges@ == self.edges@,
            it.yields() == self.dir_edge_yields(a.idx(), Direction::Outgoing),
    {
        self.edges_directed(a, Direction::Outgoing)
    }

    /// The (edge, neighbor) pairs an undirected neighbor walk from `a`
    /// yields: `a`'s outgoing list, then its incoming list with
    /// self-loops skipped.
    pub open spec fn und_neighbor_yields(self, a: int) -> Seq<(int, int)> {
        if 0 <= a < self.nlen() {
            out_yields(self.edges@, self.chain(0, a)) + in_yields(
                self.edges@,
                self.chain(1, a),
                a,
            )
        } else {
            Seq::empty()
        }
    }

    /// The (edge, neighbor) pairs a neighbor walk from `a` in direction
    /// `dir` yields; for undirected graphs the direction is ignored.
    pub open spec fn dir_neighbor_yields(self, a: int, dir: Direction) -> Seq<(int, int)> {
        if Ty::spec_is_directed() {
            if 0 <= a < self.nlen() {
                if dir.k() == 0 {
                    out_yields(self.edges@, self.chain(0, a))
                } else {
                    in_yields(self.edges@, self.chain(1, a), sentinel::<Ix>())
                }
            } else {
                Seq::empty()
            }
        } else {
            self.und_neighbor_yields(a)
        }
    }

    /// Return an iterator of all neighbors connected to `a` by an edge in
    /// either direction, skipping the duplicate report of self-loops.
    ///
    /// Produces an empty iterator if the node doesn't exist.
    pub fn neighbors_undirected(&self, a: NodeIndex<Ix>) -> (it: Neighbors<E, Ix>)
        requires
            self.wf(),
        ensures
            it.wf(),
            it.edges@ == self.edges@,
            it.skip_start == a,
            it.yields() == self.und_neighbor_yields(a.idx()),
            a.idx() < self.nlen() ==> it.rem0@ == self.chain(0, a.idx()) && it.rem1@ == self.chain(
                1,
                a.idx(),
            ),
            a.idx() >= self.nlen() ==> it.rem0@ == Seq::<int>::empty() && it.rem1@
                == Seq::<int>::empty(),
    {
        let ia = a.index();
        if ia < self.nodes.len() {
            let it = Neighbors {
                skip_start: a,
                edges: self.edges.as_slice(),
                next0: self.nodes[ia].next_out,
                next1: self.nodes[ia].next_in,
                rem0: Ghost(self.chain(0, a.idx())),
                rem1: Ghost(self.chain(1, a.idx())),
            };
            proof {
                assert(self.chain_ok(0, a.idx()));
                assert(self.chain_ok(1, a.idx()));
                let c0 = self.chain(0, a.idx());
                let c1 = self.chain(1, a.idx());
                assert forall|j: int|
                    0 <= j < c0.len() - 1 implies self.edges@[#[trigger] c0[j]].enext(0) == c0[j
                    + 1] by {
                    assert(self.next_of(c0[j], 0) == c0[j + 1]);
                }
                assert forall|j: int|
                    0 <= j < c1.len() - 1 implies self.edges@[#[trigger] c1[j]].enext(1) == c1[j
                    + 1] by {
                    assert(self.next_of(c1[j], 1) == c1[j + 1]);
                }
            }
            it
        } else {
            let e: EdgeIndex<Ix> = EdgeIndex::end();
            let it = Neighbors {
                skip_start: a,
                edges: self.edges.as_slice(),
                next0: e,
                next1: e,
                rem0: Ghost(Seq::empty()),
                rem1: Ghost(Seq::empty()),
            };
            proof {
                assert(out_yields(self.edges@, Seq::empty()) =~= Seq::<(int, int)>::empty());
                assert(it.yields() =~= Seq::<(int, int)>::empty());
            }
            it
        }
    }

    /// Return an iterator of all neighbors of `a` in the given direction.
    ///
    /// - `Directed`, `Outgoing`: all edges from `a`.
    /// - `Directed`, `Incoming`: all edges to `a`.
    /// - `Undirected`: all edges connected to `a`.
    ///
    /// Produces an empty iterator if the node doesn't exist. Neighbors
    /// are listed most-recently-added first.
    pub fn neighbors_directed(&self, a: NodeIndex<Ix>, dir: Direction) -> (it: Neighbors<E, Ix>)
        requires
            self.wf(),
        ensures
            it.wf(),
            it.edges@ == self.edges@,
            it.yields() == self.dir_neighbor_yields(a.idx(), dir),
    {
        let mut it = self.neighbors_undirected(a);
        if self.is_directed() {
            let k = dir.index();
            if k == 0 {
                it.next1 = EdgeIndex::end();
                proof {
                    it.rem1@ = Seq::empty();
                }
            } else {
                it.next0 = EdgeIndex::end();
                proof {
                    it.rem0@ = Seq::empty();
                }
            }
            it.skip_start = NodeIndex::end();
            proof {
                if k == 0 {
                    assert(in_yields(self.edges@, Seq::empty(), it.skip_start.idx())
                        =~= Seq::<(int, int)>::empty());
                    assert(it.yields() =~= out_yields(self.edges@, it.rem0@));
                    if 0 <= a.idx() < self.nlen() {
                        assert(it.rem0@ == self.chain(0, a.idx()));
                    } else {
                        assert(out_yields(self.edges@, it.rem0@) =~= Seq::<(int, int)>::empty());
                    }
                } else {
                    assert(out_yields(self.edges@, Seq::empty()) =~= Seq::<(int, int)>::empty());
                    assert(it.yields() =~= in_yields(self.edges@, it.rem1@, it.skip_start.idx()));
                    if 0 <= a.idx() < self.nlen() {
                        assert(it.skip_start.idx() == sentinel::<Ix>());
                    } else {
                        assert(in_yields(self.edges@, it.rem1@, it.skip_start.idx())
                            =~= Seq::<(int, int)>::empty());
                    }
                }
            }
        }
        it
    }

    /// Return an iterator of all nodes with an edge starting from `a`:
    /// outgoing edges for directed graphs, all edges for undirected ones.
    ///
    /// Produces an empty iterator if the node doesn't exist.
    pub fn neighbors(&self, a: NodeIndex<Ix>) -> (it: Neighbors<E, Ix>)
        requires
            self.wf(),
        ensures
            it.wf(),
            it.edges@ == self.edges@,
            it.yields() == self.dir_neighbor_yields(a.idx(), Direction::Outgoing),
    {
        self.neighbors_directed(a, Direction::Outgoing)
    }

    /// Return a cursor yielding mutable access to all node data, in index
    /// order. Drive it with the graph itself: stepping it changes only the
    /// data it hands out.
    pub fn node_weights_mut(&mut self) -> (it: NodeWeightsMut)
        ensures
            *final(self) == *old(self),
            it.pos == 0,
    {
        NodeWeightsMut { pos: 0 }
    }

    /// Return a cursor yielding mutable access to all edge weights, in
    /// index order. Drive it with the graph itself: stepping it changes
    /// only the weights it hands out, never the structure.
    pub fn edge_weights_mut(&mut self) -> (it: EdgeWeightsMut)
        ensures
            *final(self) == *old(self),
            it.pos == 0,
    {
        EdgeWeightsMut { pos: 0 }
    }

    /// Return an iterator over either the nodes without edges to them
    /// (`Incoming`, the sources) or from them (`Outgoing`, the sinks).
    ///
    /// For a graph with undirected edges, both are just the nodes without
    /// edges.
    ///
    /// The whole iteration computes in **O(|V|)** time.
    pub fn externals(&self, dir: Direction) -> (it: Externals<N, Ty, Ix>)
        requires
            self.wf(),
        ensures
            it.wf(),
            it.nodes@ == self.nodes@,
            it.pos == 0,
            it.dir == dir,
    {
        Externals { nodes: self.nodes.as_slice(), pos: 0, dir, ty: PhantomData }
    }

    /// Return an iterator over the source nodes of the graph: the nodes
    /// without edges to them. Wrapper for `externals(Incoming)`.
    pub fn source_nodes(&self) -> (it: Externals<N, Ty, Ix>)
        requires
            self.wf(),
        ensures
            it.wf(),
            it.nodes@ == self.nodes@,
            it.pos == 0,
            it.dir == Direction::Incoming,
    {
        self.externals(Direction::Incoming)
    }

    /// Return an iterator over the sink nodes of the graph: the nodes
    /// without edges from them. Wrapper for `externals(Outgoing)`.
    pub fn sink_nodes(&self) -> (it: Externals<N, Ty, Ix>)
        requires
            self.wf(),
        ensures
            it.wf(),
            it.nodes@ == self.nodes@,
            it.pos == 0,
            it.dir == Direction::Outgoing,
    {
        self.externals(Direction::Outgoing)
    }

    /// Return an iterator over the node indices of the graph.
    pub fn node_indices(&self) -> (it: NodeIndices<Ix>)
        requires
            self.wf(),
        ensures
            it.wf(),
            it.pos == 0,
            it.end == self.nlen(),
    {
        NodeIndices { pos: 0, end: self.node_count(), ty: PhantomData }
    }

    /// Return an iterator over the edge indices of the graph.
    pub fn edge_indices(&self) -> (it: EdgeIndices<Ix>)
        requires
            self.wf(),
        ensures
            it.wf(),
            it.pos == 0,
            it.end == self.elen(),
    {
        EdgeIndices { pos: 0, end: self.edge_count(), ty: PhantomData }
    }

    /// Create an iterator over all edges, in indexed order.
    pub fn edge_references(&self) -> (it: EdgeReferences<E, Ix>)
        requires
            self.wf(),
        ensures
            it.wf(),
            it.edges@ == self.edges@,
            it.pos == 0,
            it.end == self.elen(),
    {
        EdgeReferences { edges: self.edges.as_slice(), pos: 0, end: self.edge_count() }
    }
}

} // verus!
