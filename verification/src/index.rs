//! Edge directions, index types and the node/edge handles of the graph.
use vstd::prelude::*;

verus! {

/// Edge direction.
#[derive(Clone, Copy, Debug, PartialEq, Eq, Structural)]
pub enum Direction {
    /// Edges from a node.
    Outgoing,
    /// Edges to a node.
    Incoming,
}

impl Direction {
    /// `0` for `Outgoing` and `1` for `Incoming`, as a spec value.
    pub open spec fn k(self) -> int {
        if self == Direction::Outgoing {
            0
        } else {
            1
        }
    }

    /// Return the opposite of `Direction`.
    pub fn opposite(&self) -> (r: Direction)
        ensures
            r.k() == 1 - self.k(),
    {
        match *self {
            Direction::Outgoing => Direction::Incoming,
            Direction::Incoming => Direction::Outgoing,
        }
    }

    /// Return `0` for `Outgoing` and `1` for `Incoming`.
    pub fn index(&self) -> (r: usize)
        ensures
            r == self.k(),
    {
        match *self {
            Direction::Outgoing => 0,
            Direction::Incoming => 1,
        }
    }
}

/// Marker type for directed graphs.
pub struct Directed;

/// Marker type for undirected graphs.
pub struct Undirected;

/// Edge type: determines whether a graph has directed edges or not.
pub trait EdgeType {
    /// Whether the graph has directed edges or not, as a spec value.
    spec fn spec_is_directed() -> bool;

    /// Whether the graph has directed edges or not.
    fn is_directed() -> (r: bool)
        ensures
            r == Self::spec_is_directed();
}

impl EdgeType for Directed {
    open spec fn spec_is_directed() -> bool {
        true
    }

    fn is_directed() -> (r: bool) {
        true
    }
}

impl EdgeType for Undirected {
    open spec fn spec_is_directed() -> bool {
        false
    }

    fn is_directed() -> (r: bool) {
        false
    }
}

/// Trait for the unsigned integer type used for node and edge indices.
///
/// The type's maximum value is reserved as the sentinel that means
/// "no node" or "no edge", so a valid index is always strictly below it.
pub trait IndexType: Copy + Sized {
    /// The index as a spec-level `usize`.
    spec fn spec_index(self) -> usize;

    /// The largest representable value, as a spec value.
    spec fn spec_max() -> usize;

    /// Construct a new `IndexType` from an `usize`.
    fn new(x: usize) -> (r: Self)
        requires
            x <= Self::spec_max(),
        ensures
            r.spec_index() == x;

    /// Index for internal data structure access.
    fn index(&self) -> (r: usize)
        ensures
            r == self.spec_index();

    /// The type's max-value.
    fn max() -> (r: Self)
        ensures
            r.spec_index() == Self::spec_max();
}

impl IndexType for usize {
    open spec fn spec_index(self) -> usize {
        self
    }

    open spec fn spec_max() -> usize {
        usize::MAX
    }

    fn new(x: usize) -> (r: Self) {
        x
    }

    fn index(&self) -> (r: usize) {
        *self
    }

    fn max() -> (r: Self) {
        usize::MAX
    }
}

impl IndexType for u32 {
    open spec fn spec_index(self) -> usize {
        self as usize
    }

    open spec fn spec_max() -> usize {
        u32::MAX as usize
    }

    fn new(x: usize) -> (r: Self) {
        x as u32
    }

    fn index(&self) -> (r: usize) {
        *self as usize
    }

    fn max() -> (r: Self) {
        u32::MAX
    }
}

impl IndexType for u16 {
    open spec fn spec_index(self) -> usize {
        self as usize
    }

    open spec fn spec_max() -> usize {
        u16::MAX as usize
    }

    fn new(x: usize) -> (r: Self) {
        x as u16
    }

    fn index(&self) -> (r: usize) {
        *self as usize
    }

    fn max() -> (r: Self) {
        u16::MAX
    }
}

impl IndexType for u8 {
    open spec fn spec_index(self) -> usize {
        self as usize
    }

    open spec fn spec_max() -> usize {
        u8::MAX as usize
    }

    fn new(x: usize) -> (r: Self) {
        x as u8
    }

    fn index(&self) -> (r: usize) {
        *self as usize
    }

    fn max() -> (r: Self) {
        u8::MAX
    }
}

/// The default integer type for graph indices.
pub type DefaultIx = u32;

/// Node identifier.
#[derive(Clone, Copy, Debug)]
pub struct NodeIndex<Ix = DefaultIx>(pub Ix);

impl<Ix: IndexType> NodeIndex<Ix> {
    /// The underlying index as a spec-level integer.
    pub open spec fn idx(self) -> int {
        self.0.spec_index() as int
    }

    /// Construct a new `NodeIndex`.
    pub fn new(x: usize) -> (r: Self)
        requires
            x <= Ix::spec_max(),
        ensures
            r.idx() == x,
    {
        NodeIndex(Ix::new(x))
    }

    /// Internal index into the node array.
    pub fn index(self) -> (r: usize)
        ensures
            r == self.idx(),
    {
        self.0.index()
    }

    /// Represents an invalid `NodeIndex`: the sentinel that ends a list.
    pub fn end() -> (r: Self)
        ensures
            r.idx() == Ix::spec_max(),
    {
        NodeIndex(Ix::max())
    }
}

impl<Ix: IndexType> PartialEq for NodeIndex<Ix> {
    fn eq(&self, other: &Self) -> (r: bool) {
        self.0.index() == other.0.index()
    }
}

impl<Ix: IndexType> Eq for NodeIndex<Ix> {

}

impl<Ix: IndexType> vstd::std_specs::cmp::PartialEqSpecImpl for NodeIndex<Ix> {
    open spec fn obeys_eq_spec() -> bool {
        true
    }

    open spec fn eq_spec(&self, other: &Self) -> bool {
        self.idx() == other.idx()
    }
}

/// Edge identifier.
#[derive(Clone, Copy, Debug)]
pub struct EdgeIndex<Ix = DefaultIx>(pub Ix);

impl<Ix: IndexType> EdgeIndex<Ix> {
    /// The underlying index as a spec-level integer.
    pub open spec fn idx(self) -> int {
        self.0.spec_index() as int
    }

    /// Construct a new `EdgeIndex`.
    pub fn new(x: usize) -> (r: Self)
        requires
            x <= Ix::spec_max(),
        ensures
            r.idx() == x,
    {
        EdgeIndex(Ix::new(x))
    }

    /// Internal index into the edge array.
    pub fn index(self) -> (r: usize)
        ensures
            r == self.idx(),
    {
        self.0.index()
    }

    /// An invalid `EdgeIndex` used to denote absence of an edge,
    /// for example to end an adjacency list.
    pub fn end() -> (r: Self)
        ensures
            r.idx() == Ix::spec_max(),
    {
        EdgeIndex(Ix::max())
    }
}

impl<Ix: IndexType> PartialEq for EdgeIndex<Ix> {
    fn eq(&self, other: &Self) -> (r: bool) {
        self.0.index() == other.0.index()
    }
}

impl<Ix: IndexType> Eq for EdgeIndex<Ix> {

}

impl<Ix: IndexType> vstd::std_specs::cmp::PartialEqSpecImpl for EdgeIndex<Ix> {
    open spec fn obeys_eq_spec() -> bool {
        true
    }

    open spec fn eq_spec(&self, other: &Self) -> bool {
        self.idx() == other.idx()
    }
}

/// Convert an element like `(i, j)` or `(i, j, w)` into a triple of
/// source, target, edge weight.
///
/// For `Graph::from_edges`.
pub trait IntoWeightedEdge<E>: Sized {
    /// The node-ID type.
    type NodeId;

    /// The source and target of the element, as spec values.
    spec fn spec_nodes(self) -> (Self::NodeId, Self::NodeId);

    /// Transform the element into a (source, target, weight) triple.
    fn into_weighted_edge(self) -> (r: (Self::NodeId, Self::NodeId, E))
        ensures
            (r.0, r.1) == self.spec_nodes();
}

impl<E: Default, Ix> IntoWeightedEdge<E> for (Ix, Ix) {
    type NodeId = Ix;

    open spec fn spec_nodes(self) -> (Ix, Ix) {
        (self.0, self.1)
    }

    fn into_weighted_edge(self) -> (r: (Ix, Ix, E)) {
        let (s, t) = self;
        (s, t, E::default())
    }
}

impl<'a, E: Clone, Ix> IntoWeightedEdge<E> for (Ix, Ix, &'a E) {
    type NodeId = Ix;

    open spec fn spec_nodes(self) -> (Ix, Ix) {
        (self.0, self.1)
    }

    fn into_weighted_edge(self) -> (r: (Ix, Ix, E)) {
        let (s, t, w) = self;
        (s, t, w.clone())
    }
}

impl<'a, E: Default, Ix: Copy> IntoWeightedEdge<E> for &'a (Ix, Ix) {
    type NodeId = Ix;

    open spec fn spec_nodes(self) -> (Ix, Ix) {
        (self.0, self.1)
    }

    fn into_weighted_edge(self) -> (r: (Ix, Ix, E)) {
        (self.0, self.1, E::default())
    }
}

impl<'a, E: Clone, Ix: Copy> IntoWeightedEdge<E> for &'a (Ix, Ix, E) {
    type NodeId = Ix;

    open spec fn spec_nodes(self) -> (Ix, Ix) {
        (self.0, self.1)
    }

    fn into_weighted_edge(self) -> (r: (Ix, Ix, E)) {
        (self.0, self.1, self.2.clone())
    }
}

} // verus!
